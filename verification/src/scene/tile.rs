//! A cache of rendered tiles, and the invalidation that keeps it honest.
//!
//! The tile grid is anchored in the document, not on the screen: a tile's key
//! is `(level, x, y)`, and it covers the document square `[x * s, (x + 1) * s)`
//! by `[y * s, (y + 1) * s)` where `s = 256 / 2^level`. Neither the pan nor the
//! rotation of a view appears in it.
//!
//! What is in a tile is not this module's business: [`TileCache`] stores opaque
//! bytes.

use vstd::prelude::*;
use vstd::arithmetic::power2::pow2;
use crate::geom::Real;
use crate::geom::Rect;
use crate::geom::INFINITY;

verus! {

/// The most tiles a viewport is drawn with, by its bits: 16384. One that needs
/// more is nonsense, and gets none.
pub const MAX_VISIBLE: u64 = 0x40d0_0000_0000_0000;

/// The power of two of a tile's side at level 0.
pub const TILE_POWER: i32 = 8;

pub const HIDDEN_BIT: u64 = 0x10_0000_0000_0000;

pub const SIGN_BIT: u64 = 0x8000_0000_0000_0000;

pub const NOT_A_NUMBER: u64 = 0x7ff8_0000_0000_0000;

/// Which square of the document a cached tile holds, and at what scale.
#[derive(Clone, Copy, Debug, PartialEq, Eq, Hash, PartialOrd, Ord, Structural)]
pub struct TileKey {
    /// The zoom level: the tile is rendered at `2^level` pixels per document
    /// unit, so level 0 is 1:1 and level 3 is an eightfold magnification.
    pub level: i16,
    /// The tile's column, counting from the document origin.
    pub x: i32,
    /// The tile's row, counting from the document origin.
    pub y: i32,
}

/// A positive number `m * 2^(e - 52)` with `m` doubled, and `e` lowered for it,
/// until it has 53 bits.
pub open spec fn normal(m: nat, e: int) -> (nat, int)
    decreases 2 * HIDDEN_BIT - m,
{
    if m == 0 || m >= HIDDEN_BIT {
        (m, e)
    } else {
        normal(2 * m, e - 1)
    }
}

/// The bits of the positive number `m * 2^(e - 52)` without its sign: an
/// exponent field over the 52 bits below the leading one. Past the largest
/// number it is infinity.
pub open spec fn packed(m: nat, e: int) -> int {
    if m == 0 {
        0
    } else if e > 1023 {
        INFINITY as int
    } else {
        (e + 1022) * HIDDEN_BIT + m
    }
}

/// The bits of `n * 2^k` without its sign.
pub open spec fn scaled(n: nat, k: int) -> int {
    let (m, e) = normal(n, 52);
    packed(m, e + k)
}

/// The number `n * 2^k`.
pub open spec fn grid_line(n: int, k: int) -> Real {
    if n < 0 {
        Real { bits: (SIGN_BIT + scaled((-n) as nat, k)) as u64 }
    } else {
        Real { bits: scaled(n as nat, k) as u64 }
    }
}

/// The two ends of cell `n` of a grid whose cells are `2^k` long. A length past
/// the largest number counts as infinite, and one below `2^-1015` as zero.
pub open spec fn ends(n: int, k: int) -> (Real, Real) {
    if k > 1023 {
        if n == 0 {
            (Real { bits: NOT_A_NUMBER }, Real { bits: NOT_A_NUMBER })
        } else if n > 0 {
            (Real { bits: INFINITY }, Real { bits: INFINITY })
        } else {
            (Real { bits: (SIGN_BIT + INFINITY) as u64 }, Real { bits: NOT_A_NUMBER })
        }
    } else if k < -1015 {
        (
            Real {
                bits: if n < 0 {
                    SIGN_BIT
                } else {
                    0
                },
            },
            Real { bits: 0 },
        )
    } else {
        let low = grid_line(n, k);
        (
            low,
            if low.finite() {
                grid_line(n + 1, k)
            } else {
                low
            },
        )
    }
}

impl TileKey {
    /// The document-space square this tile covers.
    pub open spec fn square(self) -> Rect {
        let k = TILE_POWER - self.level;
        Rect {
            x0: ends(self.x as int, k).0,
            y0: ends(self.y as int, k).0,
            x1: ends(self.x as int, k).1,
            y1: ends(self.y as int, k).1,
        }
    }
}

proof fn lemma_normal(m: nat, e: int)
    requires
        0 < m < 2 * HIDDEN_BIT,
    ensures
        HIDDEN_BIT <= normal(m, e).0 < 2 * HIDDEN_BIT,
        normal(m, e).1 <= e,
        m < HIDDEN_BIT ==> normal(m, e).1 < e,
    decreases 2 * HIDDEN_BIT - m,
{
    if m < HIDDEN_BIT {
        lemma_normal(2 * m, e - 1);
    }
}

/// Doubling keeps the number: `m * 2^e` is the same before and after.
pub proof fn doubling_keeps_the_number(m: nat, e: int)
    ensures
        normal(m, e).1 <= e,
        normal(m, e).0 == m * pow2((e - normal(m, e).1) as nat),
    decreases 2 * HIDDEN_BIT - m,
{
    if m == 0 || m >= HIDDEN_BIT {
        vstd::arithmetic::power2::lemma2_to64();
        assert(m * 1 == m);
    } else {
        doubling_keeps_the_number(2 * m, e - 1);
        let f = normal(m, e).1;
        vstd::arithmetic::power2::lemma_pow2_unfold((e - f) as nat);
        assert(2 * m * pow2((e - 1 - f) as nat) == m * (2 * pow2((e - 1 - f) as nat)))
            by (nonlinear_arith);
    }
}

/// Larger numbers have larger bits.
proof fn lemma_packed_grows(a: nat, b: nat, e: int, k: int)
    requires
        0 < a < b < 2 * HIDDEN_BIT,
        normal(b, e).1 + k <= 1023,
    ensures
        packed(normal(a, e).0, normal(a, e).1 + k) < packed(normal(b, e).0, normal(b, e).1 + k),
        normal(a, e).1 <= normal(b, e).1,
    decreases 2 * HIDDEN_BIT - a,
{
    lemma_normal(a, e);
    lemma_normal(b, e);
    if b < HIDDEN_BIT {
        lemma_packed_grows(2 * a, 2 * b, e - 1, k);
    } else if a < HIDDEN_BIT {
        let (m, f) = normal(a, e);
        assert((f + k + 1022) * HIDDEN_BIT + HIDDEN_BIT <= (e + k + 1022) * HIDDEN_BIT)
            by (nonlinear_arith)
            requires
                f < e,
                HIDDEN_BIT > 0,
        ;
    }
}

/// The bits of a number in the range of grid lines fit under the sign bit.
proof fn lemma_scaled_fits(n: nat, k: int)
    requires
        n <= 0x1_0000_0000,
        -1015 <= k <= 1023,
    ensures
        0 <= scaled(n, k) <= INFINITY,
        n > 0 && normal(n, 52).1 + k <= 1023 ==> scaled(n, k) < INFINITY,
        n > 0 ==> scaled(n, k) > 0,
        n > 0 ==> 0 <= normal(n, 52).1 <= 52,
{
    if n > 0 {
        lemma_normal(n, 52);
        vstd::arithmetic::power2::lemma2_to64();
        lemma_low(n, 52);
        let (m, e) = normal(n, 52);
        if e + k <= 1023 {
            assert((e + k + 1022) * HIDDEN_BIT <= 2045 * HIDDEN_BIT) by (nonlinear_arith)
                requires
                    e + k <= 1023,
            ;
            assert(0 <= (e + k + 1022) * HIDDEN_BIT) by (nonlinear_arith)
                requires
                    e + k + 1022 >= 0,
            ;
        }
    }
}

/// A whole number is at least 1.
proof fn lemma_low(m: nat, e: int)
    requires
        0 < m < HIDDEN_BIT,
        0 <= e <= 52,
        m >= pow2((52 - e) as nat),
    ensures
        normal(m, e).1 >= 0,
    decreases 2 * HIDDEN_BIT - m,
{
    vstd::arithmetic::power2::lemma2_to64();
    vstd::arithmetic::power2::lemma2_to64_rest();
    if e == 0 {
        assert(pow2(52) == HIDDEN_BIT);
    } else if 2 * m < HIDDEN_BIT {
        vstd::arithmetic::power2::lemma_pow2_unfold((52 - e + 1) as nat);
        lemma_low(2 * m, e - 1);
    } else {
        assert(normal(2 * m, e - 1) == (2 * m, e - 1));
    }
}

/// The number `n * 2^k`, for a count of cells and a power a side can have.
fn line(n: i64, k: i32) -> (r: Real)
    requires
        -0x1_0000_0000 <= n <= 0x1_0000_0000,
        -1015 <= k <= 1023,
    ensures
        r == grid_line(n as int, k as int),
{
    let mut m: u64 = if n < 0 {
        (-n) as u64
    } else {
        n as u64
    };
    let ghost a = m as nat;
    proof {
        lemma_scaled_fits(a, k as int);
    }
    let sign: u64 = if n < 0 {
        SIGN_BIT
    } else {
        0
    };
    if m == 0 {
        return Real { bits: 0 };
    }
    let mut e: i32 = 52;
    while m < HIDDEN_BIT
        invariant
            0 < m < 2 * HIDDEN_BIT,
            e <= 52,
            normal(m as nat, e as int) == normal(a, 52),
            normal(a, 52).1 >= 0,
        decreases 2 * HIDDEN_BIT - m,
    {
        proof {
            lemma_normal(m as nat, e as int);
        }
        m = 2 * m;
        e = e - 1;
    }
    assert(normal(a, 52) == (m as nat, e as int));
    if e + k > 1023 {
        Real { bits: sign + INFINITY }
    } else {
        proof {
            assert(0 <= (e + k + 1022) * HIDDEN_BIT <= 2045 * HIDDEN_BIT) by (nonlinear_arith)
                requires
                    0 <= e + k + 1022 <= 2045,
            ;
        }
        Real { bits: sign + ((e + k + 1022) as u64 * HIDDEN_BIT + m) }
    }
}

fn both_ends(n: i32, k: i32) -> (r: (Real, Real))
    requires
        -40000 <= k <= 40000,
    ensures
        r == ends(n as int, k as int),
{
    if k > 1023 {
        if n == 0 {
            (Real { bits: NOT_A_NUMBER }, Real { bits: NOT_A_NUMBER })
        } else if n > 0 {
            (Real { bits: INFINITY }, Real { bits: INFINITY })
        } else {
            (Real { bits: SIGN_BIT + INFINITY }, Real { bits: NOT_A_NUMBER })
        }
    } else if k < -1015 {
        (
            Real {
                bits: if n < 0 {
                    SIGN_BIT
                } else {
                    0
                },
            },
            Real { bits: 0 },
        )
    } else {
        let low = line(n as i64, k);
        let high = if low.is_finite() {
            line(n as i64 + 1, k)
        } else {
            low
        };
        (low, high)
    }
}

impl TileKey {
    /// The document-space square this tile covers.
    pub fn doc_rect(self) -> (r: Rect)
        ensures
            r == self.square(),
    {
        let k: i32 = TILE_POWER - self.level as i32;
        let (x0, x1) = both_ends(self.x, k);
        let (y0, y1) = both_ends(self.y, k);
        Rect { x0, y0, x1, y1 }
    }
}

/// The line between cells `n - 1` and `n` lies before the one after it, unless
/// it is past the largest number: cells in a row do not overlap, and leave no
/// gap.
pub proof fn the_grid_has_no_seam(n: int, k: int)
    requires
        -0x8000_0000 <= n < 0x7fff_ffff,
        -1015 <= k <= 1023,
        grid_line(n, k).finite(),
        grid_line(n + 1, k).finite(),
    ensures
        ends(n, k).1 == ends(n + 1, k).0,
        ends(n, k).0.less(ends(n, k).1),
{
    lemma_line(n, k);
    lemma_line(n + 1, k);
    lemma_scaled_fits(1, k);
    if n >= 0 {
        if n > 0 {
            lemma_packed_grows(n as nat, (n + 1) as nat, 52, k);
        }
    } else if n + 1 < 0 {
        lemma_packed_grows((-n - 1) as nat, (-n) as nat, 52, k);
    }
}

proof fn lemma_line(n: int, k: int)
    requires
        -0x1_0000_0000 <= n <= 0x1_0000_0000,
        -1015 <= k <= 1023,
    ensures
        !grid_line(n, k).nan(),
        n >= 0 ==> grid_line(n, k).rank() == scaled(n as nat, k),
        n < 0 ==> grid_line(n, k).rank() == -scaled((-n) as nat, k),
        grid_line(n, k).finite() && n > 0 ==> normal(n as nat, 52).1 + k <= 1023,
        grid_line(n, k).finite() && n < 0 ==> normal((-n) as nat, 52).1 + k <= 1023,
{
    if n >= 0 {
        lemma_scaled_fits(n as nat, k);
        if n > 0 {
            lemma_normal(n as nat, 52);
        }
    } else {
        lemma_scaled_fits((-n) as nat, k);
        lemma_normal((-n) as nat, 52);
    }
}

/// The keys of the tiles from `(x0, y)` on, `n` of them.
pub open spec fn row(level: i16, x0: int, y: int, n: int) -> Seq<TileKey> {
    Seq::new(
        if n < 0 {
            0
        } else {
            n as nat
        },
        |i: int| TileKey { level, x: (x0 + i) as i32, y: y as i32 },
    )
}

/// The keys of `rows` rows of `cols` tiles, row by row.
pub open spec fn block(level: i16, x0: int, y0: int, cols: int, rows: int) -> Seq<TileKey>
    decreases rows,
{
    if rows <= 0 {
        Seq::empty()
    } else {
        block(level, x0, y0, cols, rows - 1) + row(level, x0, y0 + rows - 1, cols)
    }
}

impl TileKey {
    /// Appends every tile of a level from column `x0` to column `x1` and from
    /// row `y0` to row `y1`, the last ones included.
    pub fn block(level: i16, x0: i32, y0: i32, x1: i32, y1: i32, out: &mut Vec<TileKey>)
        ensures
            final(out)@ == old(out)@ + block(
                level,
                x0 as int,
                y0 as int,
                x1 - x0 + 1,
                y1 - y0 + 1,
            ),
    {
        let ghost cols = x1 - x0 + 1;
        let mut y: i64 = y0 as i64;
        assert(out@ =~= old(out)@ + block(level, x0 as int, y0 as int, cols, y - y0));
        while y <= y1 as i64
            invariant
                y0 <= y <= (if y1 < y0 {
                    y0 as int
                } else {
                    y1 + 1
                }),
                cols == x1 - x0 + 1,
                out@ == old(out)@ + block(level, x0 as int, y0 as int, cols, y - y0),
            decreases y1 - y + 1,
        {
            let ghost before = out@;
            let mut x: i64 = x0 as i64;
            assert(out@ =~= before + row(level, x0 as int, y as int, 0));
            while x <= x1 as i64
                invariant
                    x0 <= x <= (if x1 < x0 {
                        x0 as int
                    } else {
                        x1 + 1
                    }),
                    y0 <= y <= y1,
                    out@ == before + row(level, x0 as int, y as int, x - x0),
                decreases x1 - x + 1,
            {
                out.push(TileKey { level, x: x as i32, y: y as i32 });
                x += 1;
                assert(out@ =~= before + row(level, x0 as int, y as int, x - x0));
            }
            assert(row(level, x0 as int, y as int, x - x0) =~= row(
                level,
                x0 as int,
                y as int,
                cols,
            ));
            y += 1;
            assert(out@ =~= old(out)@ + block(level, x0 as int, y0 as int, cols, y - y0));
        }
        assert(block(level, x0 as int, y0 as int, cols, y - y0) == block(
            level,
            x0 as int,
            y0 as int,
            cols,
            y1 - y0 + 1,
        ));
    }
}

/// A block holds exactly the tiles of its columns and rows, each once.
pub proof fn a_block_holds_its_tiles(level: i16, x0: int, y0: int, cols: int, rows: int)
    requires
        cols >= 0,
        rows >= 0,
        i32::MIN <= x0 && x0 + cols <= i32::MAX + 1,
        i32::MIN <= y0 && y0 + rows <= i32::MAX + 1,
    ensures
        forall|k: TileKey|
            block(level, x0, y0, cols, rows).contains(k) <==> k.level == level && x0 <= k.x < x0
                + cols && y0 <= k.y < y0 + rows,
        block(level, x0, y0, cols, rows).no_duplicates(),
    decreases rows,
{
    if rows > 0 {
        a_block_holds_its_tiles(level, x0, y0, cols, rows - 1);
        let before = block(level, x0, y0, cols, rows - 1);
        let last = row(level, x0, y0 + rows - 1, cols);
        let all = block(level, x0, y0, cols, rows);
        assert forall|k: TileKey|
            all.contains(k) <==> k.level == level && x0 <= k.x < x0 + cols && y0 <= k.y < y0
                + rows by {
            if all.contains(k) {
                let i = choose|i: int| 0 <= i < all.len() && all[i] == k;
                if i < before.len() {
                    assert(before[i] == k);
                    assert(before.contains(k));
                } else {
                    assert(last[i - before.len()] == k);
                }
            }
            if k.level == level && x0 <= k.x < x0 + cols && y0 <= k.y < y0 + rows {
                if k.y == y0 + rows - 1 {
                    assert(last[k.x - x0] == k);
                    assert(all[before.len() + (k.x - x0)] == k);
                } else {
                    assert(before.contains(k));
                    let i = choose|i: int| 0 <= i < before.len() && before[i] == k;
                    assert(all[i] == k);
                }
            }
        }
        assert forall|i: int, j: int| 0 <= i < j < all.len() implies all[i] != all[j] by {
            if j < before.len() {
                assert(all[i] == before[i] && all[j] == before[j]);
            } else if i < before.len() {
                assert(before.contains(before[i]));
                assert(all[j] == last[j - before.len()]);
            } else {
                assert(all[i] == last[i - before.len()]);
                assert(all[j] == last[j - before.len()]);
            }
        }
    }
}

/// One, by its bits.
pub const ONE: u64 = 0x3ff0_0000_0000_0000;

/// The cells of the grid that hold the edges of a viewport, and how many cells
/// there are from one to the other.
pub struct Cells {
    pub x0: Real,
    pub y0: Real,
    pub x1: Real,
    pub y1: Real,
    pub cols: Real,
    pub rows: Real,
    pub all: Real,
}

impl Cells {
    /// Whether there are some, and no more than a viewport is drawn with. A
    /// count that is not a number is neither.
    pub open spec fn drawable(self) -> bool {
        (Real { bits: ONE }).at_most(self.cols) && (Real { bits: ONE }).at_most(self.rows)
            && self.all.at_most(Real { bits: MAX_VISIBLE })
    }
}

/// Whether these are the cells of a viewport.
pub open spec fn cells_of<
    C: Fn(Real) -> Real,
    S: Fn(Real, Real) -> Real,
    P: Fn(Real, Real) -> Real,
>(cell: C, count: S, times: P, doc: Rect, c: Cells) -> bool {
    &&& call_ensures(cell, (doc.x0,), c.x0)
    &&& call_ensures(cell, (doc.y0,), c.y0)
    &&& call_ensures(cell, (doc.x1,), c.x1)
    &&& call_ensures(cell, (doc.y1,), c.y1)
    &&& call_ensures(count, (c.x0, c.x1), c.cols)
    &&& call_ensures(count, (c.y0, c.y1), c.rows)
    &&& call_ensures(times, (c.cols, c.rows), c.all)
}

/// Whether these are the columns and rows of cells, as integers.
pub open spec fn indexed<X: Fn(Real) -> i32>(index: X, c: Cells, at: (i32, i32, i32, i32)) -> bool {
    &&& call_ensures(index, (c.x0,), at.0)
    &&& call_ensures(index, (c.y0,), at.1)
    &&& call_ensures(index, (c.x1,), at.2)
    &&& call_ensures(index, (c.y1,), at.3)
}

/// Whether tiles are those that a viewport needs.
pub open spec fn needs<X: Fn(Real) -> i32>(
    index: X,
    level: i16,
    c: Cells,
    tiles: Seq<TileKey>,
) -> bool {
    if c.drawable() {
        exists|at: (i32, i32, i32, i32)| #[trigger]
            indexed(index, c, at) && tiles == block(
                level,
                at.0 as int,
                at.1 as int,
                at.2 - at.0 + 1,
                at.3 - at.1 + 1,
            )
    } else {
        tiles == Seq::<TileKey>::empty()
    }
}

impl TileKey {
    /// Appends every tile of a level that overlaps the document box `doc`. One
    /// that needs too many, or is not a box, gets none.
    ///
    /// `cell` is the grid cell that holds a coordinate, `count` how many cells
    /// there are from one to another, `times` a product, and `index` a cell as
    /// an integer. `out` is not cleared.
    pub fn visible<
        C: Fn(Real) -> Real,
        S: Fn(Real, Real) -> Real,
        P: Fn(Real, Real) -> Real,
        X: Fn(Real) -> i32,
    >(
        level: i16,
        doc: Rect,
        cell: C,
        count: S,
        times: P,
        index: X,
        out: &mut Vec<TileKey>,
    )
        requires
            forall|v: Real| call_requires(cell, (v,)),
            forall|a: Real, b: Real| call_requires(count, (a, b)),
            forall|a: Real, b: Real| call_requires(times, (a, b)),
            forall|v: Real| call_requires(index, (v,)),
        ensures
            exists|c: Cells, tiles: Seq<TileKey>|
                #![trigger cells_of(cell, count, times, doc, c), needs(index, level, c, tiles)]
                cells_of(cell, count, times, doc, c) && needs(index, level, c, tiles) && final(out)@
                    == old(out)@ + tiles,
    {
        let (x0, y0): (Real, Real) = (cell(doc.x0), cell(doc.y0));
        let (x1, y1): (Real, Real) = (cell(doc.x1), cell(doc.y1));
        let cols = count(x0, x1);
        let rows = count(y0, y1);
        let all = times(cols, rows);
        let one = Real { bits: ONE };
        let ghost c = Cells { x0, y0, x1, y1, cols, rows, all };
        assert(cells_of(cell, count, times, doc, c));
        if !(one.not_above(cols) && one.not_above(rows) && all.not_above(
            Real { bits: MAX_VISIBLE },
        )) {
            assert(needs(index, level, c, Seq::<TileKey>::empty()));
            assert(out@ =~= old(out)@ + Seq::<TileKey>::empty());
            return ;
        }
        let (a, b): (i32, i32) = (index(x0), index(y0));
        let (d, e): (i32, i32) = (index(x1), index(y1));
        TileKey::block(level, a, b, d, e, out);
        proof {
            assert(indexed(index, c, (a, b, d, e)));
            assert(needs(
                index,
                level,
                c,
                block(level, a as int, b as int, d - a + 1, e - b + 1),
            ));
        }
    }
}

/// A stored tile: its key and its bytes.
pub type TileModel = (TileKey, Seq<u8>);

/// One resident tile.
struct Tile {
    key: TileKey,
    pixels: Vec<u8>,
}

/// The bytes that the tiles hold together.
pub open spec fn total(tiles: Seq<TileModel>) -> nat
    decreases tiles.len(),
{
    if tiles.len() == 0 {
        0
    } else {
        total(tiles.drop_last()) + tiles.last().1.len()
    }
}

/// Whether no key occurs twice.
pub open spec fn distinct(tiles: Seq<TileModel>) -> bool {
    forall|i: int, j: int|
        0 <= i < j < tiles.len() ==> (#[trigger] tiles[i]).0 != (#[trigger] tiles[j]).0
}

/// Where a key is, if it is there.
pub open spec fn place(tiles: Seq<TileModel>, key: TileKey) -> Option<int> {
    if exists|i: int| 0 <= i < tiles.len() && (#[trigger] tiles[i]).0 == key {
        Some(choose|i: int| 0 <= i < tiles.len() && (#[trigger] tiles[i]).0 == key)
    } else {
        None
    }
}

/// The tiles without the one of this key.
pub open spec fn without(tiles: Seq<TileModel>, key: TileKey) -> Seq<TileModel> {
    match place(tiles, key) {
        Some(i) => tiles.remove(i),
        None => tiles,
    }
}

/// The tiles left when the least recently used are dropped one by one until
/// the rest fit the budget.
pub open spec fn trimmed(tiles: Seq<TileModel>, budget: nat) -> Seq<TileModel>
    decreases tiles.len(),
{
    if tiles.len() == 0 || total(tiles) <= budget {
        tiles
    } else {
        trimmed(tiles.skip(1), budget)
    }
}

/// Whether a tile's square overlaps either box.
pub open spec fn touched(key: TileKey, was: Rect, now: Rect) -> bool {
    key.square().meets(was) || key.square().meets(now)
}

/// The tiles among the first `n` that neither box touches, in their order.
pub open spec fn untouched(tiles: Seq<TileModel>, was: Rect, now: Rect, n: int) -> Seq<TileModel>
    decreases n,
{
    if n <= 0 {
        Seq::empty()
    } else if touched(tiles[n - 1].0, was, now) {
        untouched(tiles, was, now, n - 1)
    } else {
        untouched(tiles, was, now, n - 1).push(tiles[n - 1])
    }
}

proof fn lemma_place(tiles: Seq<TileModel>, key: TileKey, i: int)
    requires
        distinct(tiles),
        0 <= i < tiles.len(),
        tiles[i].0 == key,
    ensures
        place(tiles, key) == Some(i),
{
    let k = place(tiles, key)->0;
    if k < i {
        assert(tiles[k].0 != tiles[i].0);
    } else if k > i {
        assert(tiles[i].0 != tiles[k].0);
    }
}

proof fn lemma_total_add(a: Seq<TileModel>, b: Seq<TileModel>)
    ensures
        total(a + b) == total(a) + total(b),
    decreases b.len(),
{
    if b.len() == 0 {
        assert(a + b =~= a);
    } else {
        lemma_total_add(a, b.drop_last());
        assert((a + b).drop_last() =~= a + b.drop_last());
    }
}

proof fn lemma_total_one(t: TileModel)
    ensures
        total(seq![t]) == t.1.len(),
{
    let one = seq![t];
    assert(one.drop_last() =~= Seq::<TileModel>::empty());
    assert(total(one.drop_last()) == 0);
}

proof fn lemma_total_remove(tiles: Seq<TileModel>, i: int)
    requires
        0 <= i < tiles.len(),
    ensures
        total(tiles) == total(tiles.remove(i)) + tiles[i].1.len(),
{
    let one = seq![tiles[i]];
    assert(tiles =~= tiles.take(i) + one + tiles.skip(i + 1));
    assert(tiles.remove(i) =~= tiles.take(i) + tiles.skip(i + 1));
    lemma_total_add(tiles.take(i), one);
    lemma_total_add(tiles.take(i) + one, tiles.skip(i + 1));
    lemma_total_add(tiles.take(i), tiles.skip(i + 1));
    lemma_total_one(tiles[i]);
}

proof fn lemma_total_push(tiles: Seq<TileModel>, t: TileModel)
    ensures
        total(tiles.push(t)) == total(tiles) + t.1.len(),
{
    assert(tiles.push(t).drop_last() =~= tiles);
}

/// A bounded store of rendered tiles, keyed by [`TileKey`].
///
/// A tile that is present is up to date: invalidation removes rather than
/// flags, so there is no state in which a stale tile is resident and something
/// has to remember not to draw it.
pub struct TileCache {
    /// Each with a key of its own, the least recently used first.
    tiles: Vec<Tile>,
    budget: usize,
    /// The sum of every tile's byte length, maintained rather than recomputed.
    bytes: usize,
    hits: u64,
    misses: u64,
}

spec fn models(tiles: Seq<Tile>) -> Seq<TileModel> {
    tiles.map_values(|t: Tile| (t.key, t.pixels@))
}

impl View for TileCache {
    type V = Seq<TileModel>;

    /// The resident tiles, the least recently used first.
    closed spec fn view(&self) -> Seq<TileModel> {
        models(self.tiles@)
    }
}

impl TileCache {
    pub closed spec fn limit(&self) -> nat {
        self.budget as nat
    }

    pub closed spec fn served(&self) -> nat {
        self.hits as nat
    }

    pub closed spec fn missed(&self) -> nat {
        self.misses as nat
    }

    /// No key occurs twice, and the tiles fit the budget.
    pub closed spec fn wf(&self) -> bool {
        &&& distinct(self@)
        &&& self.bytes == total(self@)
        &&& self.bytes <= self.budget
    }

    /// A cache holding at most `budget` bytes of tile pixels.
    pub fn new(budget: usize) -> (c: Self)
        ensures
            c.wf(),
            c@ == Seq::<TileModel>::empty(),
            c.limit() == budget,
            c.served() == 0 && c.missed() == 0,
    {
        let c = TileCache { tiles: Vec::new(), budget, bytes: 0, hits: 0, misses: 0 };
        assert(c@ =~= Seq::<TileModel>::empty());
        c
    }

    fn position(&self, key: TileKey) -> (r: Option<usize>)
        requires
            distinct(self@),
        ensures
            match r {
                Some(i) => i < self.tiles@.len() && place(self@, key) == Some(i as int)
                    && self@[i as int].0 == key,
                None => place(self@, key) is None,
            },
    {
        let mut i: usize = 0;
        while i < self.tiles.len()
            invariant
                i <= self.tiles@.len(),
                distinct(self@),
                forall|j: int| 0 <= j < i ==> (#[trigger] self@[j]).0 != key,
            decreases self.tiles@.len() - i,
        {
            if self.tiles[i].key == key {
                proof {
                    lemma_place(self@, key, i as int);
                }
                return Some(i);
            }
            i += 1;
        }
        None
    }

    /// The tile's pixels, or `None` if it must be rendered.
    ///
    /// Counts towards the hit rate and marks the tile as most recently used.
    pub fn get(&mut self, key: TileKey) -> (r: Option<&[u8]>)
        requires
            old(self).wf(),
            old(self).served() < u64::MAX,
            old(self).missed() < u64::MAX,
        ensures
            final(self).wf(),
            final(self).limit() == old(self).limit(),
            match place(old(self)@, key) {
                Some(i) => {
                    &&& r matches Some(p) && p@ == old(self)@[i].1
                    &&& final(self)@ == old(self)@.remove(i).push(old(self)@[i])
                    &&& final(self).served() == old(self).served() + 1
                    &&& final(self).missed() == old(self).missed()
                },
                None => {
                    &&& r is None
                    &&& final(self)@ == old(self)@
                    &&& final(self).served() == old(self).served()
                    &&& final(self).missed() == old(self).missed() + 1
                },
            },
    {
        match self.position(key) {
            Some(i) => {
                let ghost before = self@;
                let tile = self.tiles.remove(i);
                self.tiles.push(tile);
                self.hits += 1;
                proof {
                    assert(self@ =~= before.remove(i as int).push(before[i as int]));
                    lemma_total_remove(before, i as int);
                    lemma_total_push(before.remove(i as int), before[i as int]);
                }
                let last: usize = self.tiles.len() - 1;
                Some(self.tiles[last].pixels.as_slice())
            },
            None => {
                self.misses += 1;
                None
            },
        }
    }

    /// Stores a freshly rendered tile, evicting as needed to stay in budget.
    ///
    /// A tile larger than the whole budget is dropped rather than stored.
    pub fn insert(&mut self, key: TileKey, pixels: Vec<u8>)
        requires
            old(self).wf(),
        ensures
            final(self).wf(),
            final(self).limit() == old(self).limit(),
            final(self).served() == old(self).served(),
            final(self).missed() == old(self).missed(),
            final(self)@ == (if pixels@.len() > old(self).limit() {
                old(self)@
            } else {
                trimmed(without(old(self)@, key).push((key, pixels@)), old(self).limit())
            }),
    {
        let len: usize = pixels.len();
        if len > self.budget {
            return;
        }
        let ghost before = self@;
        if let Some(i) = self.position(key) {
            proof {
                lemma_total_remove(before, i as int);
            }
            let gone = self.tiles.remove(i);
            self.bytes -= gone.pixels.len();
            assert(self@ =~= without(before, key));
        }
        proof {
            lemma_without(before, key);
        }
        let ghost rest = self@;
        assert(rest == without(before, key));
        while len > self.budget - self.bytes
            invariant
                len <= self.budget,
                self.bytes <= self.budget,
                self.bytes == total(self@),
                distinct(self@),
                forall|j: int| 0 <= j < self@.len() ==> (#[trigger] self@[j]).0 != key,
                self.budget == old(self).budget,
                self.hits == old(self).hits,
                self.misses == old(self).misses,
                len == pixels@.len(),
                trimmed(self@.push((key, pixels@)), self.budget as nat) == trimmed(
                    rest.push((key, pixels@)),
                    self.budget as nat,
                ),
            decreases self@.len(),
        {
            proof {
                lemma_total_push(self@, (key, pixels@));
                if self@.len() == 0 {
                    assert(total(self@) == 0);
                }
                assert(self@.push((key, pixels@)).skip(1) =~= self@.skip(1).push((key, pixels@)));
            }
            self.evict_one();
        }
        proof {
            lemma_total_push(self@, (key, pixels@));
        }
        let ghost kept = self@;
        self.tiles.push(Tile { key, pixels });
        self.bytes += len;
        assert(self@ =~= kept.push((key, pixels@)));
    }

    /// Drops the least recently used tile. False when there was none.
    fn evict_one(&mut self) -> (r: bool)
        requires
            distinct(old(self)@),
            old(self).bytes == total(old(self)@),
        ensures
            distinct(final(self)@),
            final(self).bytes == total(final(self)@),
            final(self).bytes <= old(self).bytes,
            final(self).budget == old(self).budget,
            final(self).hits == old(self).hits,
            final(self).misses == old(self).misses,
            r == (old(self)@.len() > 0),
            r ==> final(self)@ == old(self)@.skip(1),
            !r ==> final(self)@ == old(self)@,
    {
        if self.tiles.len() == 0 {
            return false;
        }
        let ghost before = self@;
        proof {
            lemma_total_remove(before, 0);
            assert(before.remove(0) =~= before.skip(1));
        }
        let gone = self.tiles.remove(0);
        self.bytes -= gone.pixels.len();
        assert(self@ =~= before.skip(1));
        true
    }

    /// Discards every tile overlapping the box an object occupied before an
    /// edit or the box it occupies after it.
    pub fn invalidate(&mut self, was: Rect, now: Rect)
        requires
            old(self).wf(),
        ensures
            final(self).wf(),
            final(self).limit() == old(self).limit(),
            final(self).served() == old(self).served(),
            final(self).missed() == old(self).missed(),
            final(self)@ == untouched(old(self)@, was, now, old(self)@.len() as int),
    {
        let ghost before = self@;
        let ghost mut seen: int = 0;
        let mut i: usize = 0;
        assert(self@.take(0) =~= untouched(before, was, now, 0));
        while i < self.tiles.len()
            invariant
                i <= self.tiles@.len(),
                0 <= seen <= before.len(),
                self@.len() - i == before.len() - seen,
                self@.take(i as int) == untouched(before, was, now, seen),
                forall|j: int|
                    i <= j < self@.len() ==> #[trigger] self@[j] == before[j - i + seen],
                self.bytes == total(self@),
                self.bytes <= self.budget,
                self.budget == old(self).budget,
                self.hits == old(self).hits,
                self.misses == old(self).misses,
            decreases before.len() - seen,
        {
            let ghost all = self@;
            assert(all[i as int] == before[seen]);
            let rect = self.tiles[i].key.doc_rect();
            if rect.overlaps(was) || rect.overlaps(now) {
                proof {
                    lemma_total_remove(all, i as int);
                }
                let gone = self.tiles.remove(i);
                self.bytes -= gone.pixels.len();
                proof {
                    assert(self@ =~= all.remove(i as int));
                    assert(self@.take(i as int) =~= all.take(i as int));
                    assert forall|j: int| i <= j < self@.len() implies #[trigger] self@[j]
                        == before[j - i + seen + 1] by {
                        assert(self@[j] == all[j + 1]);
                    }
                }
            } else {
                proof {
                    assert(all.take(i + 1) =~= all.take(i as int).push(before[seen]));
                }
                i += 1;
            }
            proof {
                seen = seen + 1;
            }
        }
        proof {
            assert(self@.take(i as int) =~= self@);
            lemma_untouched(before, was, now, seen);
        }
    }

    /// Drops every tile. For a document swap, where nothing is worth keeping.
    pub fn clear(&mut self)
        requires
            old(self).wf(),
        ensures
            final(self).wf(),
            final(self)@ == Seq::<TileModel>::empty(),
            final(self).limit() == old(self).limit(),
            final(self).served() == old(self).served(),
            final(self).missed() == old(self).missed(),
    {
        self.tiles.clear();
        self.bytes = 0;
        assert(self@ =~= Seq::<TileModel>::empty());
    }

    /// Tiles served from the cache since it was created.
    pub fn hits(&self) -> (n: u64)
        ensures
            n == self.served(),
    {
        self.hits
    }

    /// Tiles that had to be rendered since the cache was created.
    pub fn misses(&self) -> (n: u64)
        ensures
            n == self.missed(),
    {
        self.misses
    }

    /// The fraction of [`TileCache::get`] calls that were served, or zero before
    /// the first call. `ratio` is one count over another that is not zero.
    pub fn hit_rate<R: Fn(u64, u64) -> Real>(&self, ratio: R) -> (r: Real)
        requires
            self.served() + self.missed() <= u64::MAX,
            forall|a: u64, b: u64| b > 0 ==> #[trigger] call_requires(ratio, (a, b)),
        ensures
            if self.served() + self.missed() == 0 {
                r == (Real { bits: 0 })
            } else {
                call_ensures(
                    ratio,
                    (self.served() as u64, (self.served() + self.missed()) as u64),
                    r,
                )
            },
    {
        let total: u64 = self.hits + self.misses;
        if total == 0 {
            Real { bits: 0 }
        } else {
            ratio(self.hits, total)
        }
    }

    /// Bytes of tile pixels currently resident, never above the budget.
    pub fn bytes(&self) -> (n: usize)
        requires
            self.wf(),
        ensures
            n == total(self@),
            n <= self.limit(),
    {
        self.bytes
    }
}

proof fn lemma_without(tiles: Seq<TileModel>, key: TileKey)
    requires
        distinct(tiles),
    ensures
        distinct(without(tiles, key)),
        forall|j: int|
            0 <= j < without(tiles, key).len() ==> (#[trigger] without(tiles, key)[j]).0 != key,
{
    if let Some(i) = place(tiles, key) {
        let rest = tiles.remove(i);
        assert forall|j: int| 0 <= j < rest.len() implies (#[trigger] rest[j]).0 != key by {
            let k = if j < i {
                j
            } else {
                j + 1
            };
            assert(rest[j] == tiles[k]);
            if tiles[k].0 == key {
                lemma_place(tiles, key, k);
            }
        }
    }
}

/// What the boxes do not touch is kept, in its order, and nothing else.
proof fn lemma_untouched(tiles: Seq<TileModel>, was: Rect, now: Rect, n: int)
    requires
        0 <= n <= tiles.len(),
        distinct(tiles),
    ensures
        distinct(untouched(tiles, was, now, n)),
        forall|j: int|
            0 <= j < untouched(tiles, was, now, n).len() ==> exists|i: int|
                0 <= i < n && #[trigger] tiles[i] == (#[trigger] untouched(tiles, was, now, n)[j]),
    decreases n,
{
    if n > 0 {
        lemma_untouched(tiles, was, now, n - 1);
        let prev = untouched(tiles, was, now, n - 1);
        let all = untouched(tiles, was, now, n);
        assert forall|j: int| 0 <= j < all.len() implies exists|i: int|
            0 <= i < n && #[trigger] tiles[i] == (#[trigger] all[j]) by {
            if j < prev.len() {
                assert(all[j] == prev[j]);
                let i = choose|i: int| 0 <= i < n - 1 && #[trigger] tiles[i] == prev[j];
                assert(tiles[i] == all[j]);
            } else {
                assert(tiles[n - 1] == all[j]);
            }
        }
        assert forall|i: int, j: int| 0 <= i < j < all.len() implies (#[trigger] all[i]).0 != (
        #[trigger] all[j]).0 by {
            let p = choose|p: int| 0 <= p < n - 1 && #[trigger] tiles[p] == prev[i];
            assert(all[i] == prev[i]);
            if j < prev.len() {
                assert(all[j] == prev[j]);
            } else {
                assert(all[j] == tiles[n - 1]);
                assert(tiles[p].0 != tiles[n - 1].0);
            }
        }
    }
}

/// The tiles left are the most recently used, as many as fit: one more would
/// not.
pub proof fn the_least_recently_used_go_first(tiles: Seq<TileModel>, budget: nat)
    ensures
        exists|k: int|
            {
                &&& 0 <= k <= tiles.len()
                &&& trimmed(tiles, budget) == #[trigger] tiles.skip(k)
                &&& total(tiles.skip(k)) <= budget
                &&& k > 0 ==> total(tiles.skip(k - 1)) > budget
            },
    decreases tiles.len(),
{
    if tiles.len() == 0 || total(tiles) <= budget {
        assert(tiles.skip(0) =~= tiles);
    } else {
        let rest = tiles.skip(1);
        the_least_recently_used_go_first(rest, budget);
        let k = choose|k: int|
            {
                &&& 0 <= k <= rest.len()
                &&& trimmed(rest, budget) == #[trigger] rest.skip(k)
                &&& total(rest.skip(k)) <= budget
                &&& k > 0 ==> total(rest.skip(k - 1)) > budget
            };
        assert(rest.skip(k) =~= tiles.skip(k + 1));
        if k > 0 {
            assert(rest.skip(k - 1) =~= tiles.skip(k));
        } else {
            assert(tiles.skip(0) =~= tiles);
        }
        assert(trimmed(tiles, budget) == tiles.skip(k + 1));
    }
}

/// A tile that fits the budget is found after it was stored, with the bytes it
/// was stored with.
pub proof fn what_is_stored_is_found(
    tiles: Seq<TileModel>,
    key: TileKey,
    pixels: Seq<u8>,
    budget: nat,
)
    requires
        distinct(tiles),
        pixels.len() <= budget,
    ensures
        ({
            let after = trimmed(without(tiles, key).push((key, pixels)), budget);
            place(after, key) matches Some(i) && after[i] == (key, pixels)
        }),
{
    let all = without(tiles, key).push((key, pixels));
    lemma_without(tiles, key);
    assert(distinct(all));
    the_least_recently_used_go_first(all, budget);
    let k = choose|k: int|
        {
            &&& 0 <= k <= all.len()
            &&& trimmed(all, budget) == #[trigger] all.skip(k)
            &&& total(all.skip(k)) <= budget
            &&& k > 0 ==> total(all.skip(k - 1)) > budget
        };
    if k == all.len() {
        assert(all.skip(k - 1) =~= seq![(key, pixels)]);
        lemma_total_one((key, pixels));
    }
    let after = all.skip(k);
    assert(after.last() == (key, pixels));
    assert(distinct(after));
    lemma_place(after, key, after.len() - 1);
}

/// After an edit no tile that either box touches is left, and every other tile
/// is.
pub proof fn invalidation_drops_what_is_touched_and_no_more(
    tiles: Seq<TileModel>,
    was: Rect,
    now: Rect,
    t: TileModel,
)
    ensures
        untouched(tiles, was, now, tiles.len() as int).contains(t) <==> tiles.contains(t)
            && !touched(t.0, was, now),
{
    lemma_untouched_contains(tiles, was, now, t, tiles.len() as int);
    assert(tiles.take(tiles.len() as int) =~= tiles);
}

proof fn lemma_untouched_contains(
    tiles: Seq<TileModel>,
    was: Rect,
    now: Rect,
    t: TileModel,
    n: int,
)
    requires
        0 <= n <= tiles.len(),
    ensures
        untouched(tiles, was, now, n).contains(t) <==> tiles.take(n).contains(t) && !touched(
            t.0,
            was,
            now,
        ),
    decreases n,
{
    broadcast use vstd::seq_lib::group_seq_properties;

    if n > 0 {
        lemma_untouched_contains(tiles, was, now, t, n - 1);
        assert(tiles.take(n) =~= tiles.take(n - 1).push(tiles[n - 1]));
    } else {
        assert(tiles.take(0) =~= Seq::<TileModel>::empty());
    }
}

/// A grid line is the number it stands for, exactly: read as a binary64 number, the
/// bits of the `n`th line at a power `k` are `n` times two to the `k`.
pub proof fn a_grid_line_is_its_number(n: nat, k: int)
    requires
        0 < n < 0x1_0000_0000,
        -1015 <= k <= 900,
    ensures
        ({
            let b = grid_line(n as int, k).bits as int;
            let exponent = b / 0x10_0000_0000_0000 - 1023;
            let mantissa = b % 0x10_0000_0000_0000 + 0x10_0000_0000_0000;
            let shift = 52 + k - exponent;
            shift >= 0 && mantissa == n * pow2(shift as nat) && grid_line(n as int, k).finite()
        }),
        grid_line(-(n as int), k).bits == grid_line(n as int, k).bits + 0x8000_0000_0000_0000,
        grid_line(0, k).bits == 0,
{
    lemma_scaled_fits(n, k);
    doubling_keeps_the_number(n, 52);
    lemma_normal(n, 52);
    let (m, e) = normal(n, 52);
    let b = scaled(n, k);
    assert(b == (e + k + 1022) * HIDDEN_BIT + m);
    assert(b == (e + k + 1023) * 0x10_0000_0000_0000 + (m - 0x10_0000_0000_0000));
    assert(b / 0x10_0000_0000_0000 == e + k + 1023);
    assert(b % 0x10_0000_0000_0000 == m - 0x10_0000_0000_0000);
    lemma_line(n as int, k);
}

/// The grid of the next level has every line of this one, and one more between each
/// two: its `2n`th line is this level's `n`th.
pub proof fn the_next_level_halves_the_grid(n: int, k: int)
    requires
        -0x4000_0000 <= n <= 0x4000_0000,
        -1014 <= k <= 900,
    ensures
        grid_line(2 * n, k - 1) == grid_line(n, k),
{
    if n != 0 {
        let a: nat = if n < 0 {
            (-n) as nat
        } else {
            n as nat
        };
        lemma_normal_shift(2 * a, 51, 1);
        assert(normal(a, 52) == normal(2 * a, 51));
        assert(normal(2 * a, 52) == (normal(2 * a, 51).0, normal(2 * a, 51).1 + 1));
        assert(scaled(2 * a, k - 1) == scaled(a, k));
    }
}

proof fn lemma_normal_shift(m: nat, e: int, d: int)
    ensures
        normal(m, e + d) == (normal(m, e).0, normal(m, e).1 + d),
    decreases 2 * HIDDEN_BIT - m,
{
    if m != 0 && m < HIDDEN_BIT {
        lemma_normal_shift(2 * m, e - 1, d);
    }
}

/// A tile covers one cell of its level's grid, 256 units wide at level zero and half
/// as wide at each level after it: from the line of its index to the next, on both
/// axes alike.
pub proof fn a_tile_is_a_cell_of_its_grid(key: TileKey)
    requires
        -800 <= key.level <= 1000,
        key.x < 0x7fff_ffff && key.y < 0x7fff_ffff,
    ensures
        key.square().x0 == grid_line(key.x as int, 8 - key.level),
        key.square().x1 == grid_line(key.x + 1, 8 - key.level),
        key.square().y0 == grid_line(key.y as int, 8 - key.level),
        key.square().y1 == grid_line(key.y + 1, 8 - key.level),
{
    let k = 8 - key.level;
    lemma_finite_line(key.x as int, k);
    lemma_finite_line(key.y as int, k);
}

proof fn lemma_finite_line(n: int, k: int)
    requires
        -0x8000_0000 <= n < 0x7fff_ffff,
        -1015 <= k <= 900,
    ensures
        grid_line(n, k).finite(),
{
    lemma_line(n, k);
    if n != 0 {
        let a: nat = if n < 0 {
            (-n) as nat
        } else {
            n as nat
        };
        lemma_scaled_fits(a, k);
    }
}

/// Tiles are drawn only where there are some, and no more than 16384 of them.
pub proof fn too_many_tiles_are_not_drawn(c: Cells)
    ensures
        c.drawable() <==> (Real { bits: 0x3ff0_0000_0000_0000 }).at_most(c.cols) && (Real {
            bits: 0x3ff0_0000_0000_0000,
        }).at_most(c.rows) && c.all.at_most(Real { bits: 0x40d0_0000_0000_0000 }),
{
}

/// Storing a tile again replaces it: there is never more than one of a key, and the
/// others stay in their order.
pub proof fn storing_again_replaces(tiles: Seq<TileModel>, key: TileKey, pixels: Seq<u8>)
    requires
        distinct(tiles),
    ensures
        distinct(without(tiles, key).push((key, pixels))),
        forall|t: TileModel|
            t.0 != key ==> (#[trigger] without(tiles, key).contains(t) <==> tiles.contains(t)),
        place(without(tiles, key), key) is None,
{
    lemma_without(tiles, key);
    let rest = without(tiles, key);
    if place(tiles, key) is Some {
        let i = place(tiles, key)->0;
        assert forall|t: TileModel| t.0 != key implies (#[trigger] rest.contains(t)
            <==> tiles.contains(t)) by {
            if tiles.contains(t) {
                let m = choose|m: int| 0 <= m < tiles.len() && tiles[m] == t;
                assert(m != i);
                if m < i {
                    assert(rest[m] == t);
                } else {
                    assert(rest[m - 1] == t);
                }
            }
            if rest.contains(t) {
                let m = choose|m: int| 0 <= m < rest.len() && rest[m] == t;
                if m < i {
                    assert(tiles[m] == t);
                } else {
                    assert(tiles[m + 1] == t);
                }
            }
        }
    }
    if place(rest, key) is Some {
        let j = place(rest, key)->0;
        assert(rest[j].0 == key);
        let all = rest.push((key, pixels));
        if place(tiles, key) is Some {
            let i = place(tiles, key)->0;
            if j < i {
                assert(tiles[j].0 == tiles[i].0);
            } else {
                assert(tiles[j + 1].0 == tiles[i].0);
            }
        }
    }
    let all = rest.push((key, pixels));
    assert forall|i: int, j: int| 0 <= i < j < all.len() implies (#[trigger] all[i]).0 != (
    #[trigger] all[j]).0 by {
        if j == rest.len() {
            assert(rest[i].0 != key);
        }
    }
}

/// A change reaches a tile where what was there or what is there now overlaps it.
pub proof fn a_change_reaches_what_it_overlaps(key: TileKey, was: Rect, now: Rect)
    ensures
        key.square().meets(was) ==> touched(key, was, now),
        key.square().meets(now) ==> touched(key, was, now),
        !key.square().meets(was) && !key.square().meets(now) ==> !touched(key, was, now),
        touched(key, was, now) == touched(key, now, was),
{
}

/// Beyond the levels whose cells are numbers a tile has no cell: where a cell is too
/// large for a number its edges are infinite or no numbers, and where it is too small
/// they are zero.
pub proof fn a_level_out_of_range_has_no_cells(n: int, k: int)
    ensures
        k > 1023 ==> !ends(n, k).0.finite() && !ends(n, k).1.finite(),
        k > 1023 && n == 0 ==> ends(n, k).0.nan() && ends(n, k).1.nan(),
        k > 1023 && n > 0 ==> ends(n, k).0.bits == 0x7ff0_0000_0000_0000 && ends(n, k).1.bits
            == 0x7ff0_0000_0000_0000,
        k > 1023 && n < 0 ==> ends(n, k).0.bits == 0xfff0_0000_0000_0000,
        k < -1015 ==> ends(n, k).0.equals(Real { bits: 0 }) && ends(n, k).1.equals(
            Real { bits: 0 },
        ),
        k < -1015 && n < 0 ==> ends(n, k).0.bits == 0x8000_0000_0000_0000,
        k < -1015 && n >= 0 ==> ends(n, k).0.bits == 0,
{
}

/// A viewport gets the tiles of every column and row from the cell of its one
/// corner to the cell of the other, each once, and no more.
pub proof fn a_viewport_gets_the_tiles_it_runs_over<
    C: Fn(Real) -> Real,
    S: Fn(Real, Real) -> Real,
    P: Fn(Real, Real) -> Real,
    X: Fn(Real) -> i32,
>(
    cell: C,
    count: S,
    times: P,
    index: X,
    level: i16,
    doc: Rect,
    c: Cells,
    tiles: Seq<TileKey>,
    at: spec_fn(Real) -> int,
)
    requires
        cells_of(cell, count, times, doc, c),
        needs(index, level, c, tiles),
        c.drawable(),
        forall|v: Real, w: Real, i: i32| #[trigger]
            call_ensures(cell, (v,), w) && #[trigger] call_ensures(index, (w,), i) ==> i == at(v),
        at(doc.x0) <= at(doc.x1),
        at(doc.y0) <= at(doc.y1),
    ensures
        forall|k: TileKey|
            tiles.contains(k) <==> k.level == level && at(doc.x0) <= k.x <= at(doc.x1) && at(doc.y0)
                <= k.y <= at(doc.y1),
        tiles.no_duplicates(),
{
    let to = choose|to: (i32, i32, i32, i32)| #[trigger]
        indexed(index, c, to) && tiles == block(
            level,
            to.0 as int,
            to.1 as int,
            to.2 - to.0 + 1,
            to.3 - to.1 + 1,
        );
    assert(to.0 == at(doc.x0) && to.1 == at(doc.y0) && to.2 == at(doc.x1) && to.3 == at(doc.y1));
    a_block_holds_its_tiles(
        level,
        to.0 as int,
        to.1 as int,
        to.2 - to.0 + 1,
        to.3 - to.1 + 1,
    );
}

/// How many tiles a viewport needs is asked of its own columns and rows, and
/// their product decides.
pub proof fn a_viewport_counts_columns_and_rows<
    C: Fn(Real) -> Real,
    S: Fn(Real, Real) -> Real,
    P: Fn(Real, Real) -> Real,
>(
    cell: C,
    count: S,
    times: P,
    doc: Rect,
    c: Cells,
    col: spec_fn(Real) -> Real,
    from: spec_fn(Real, Real) -> Real,
    product: spec_fn(Real, Real) -> Real,
)
    requires
        cells_of(cell, count, times, doc, c),
        forall|v: Real, w: Real| #[trigger] call_ensures(cell, (v,), w) ==> w == col(v),
        forall|a: Real, b: Real, n: Real| #[trigger]
            call_ensures(count, (a, b), n) ==> n == from(a, b),
        forall|a: Real, b: Real, n: Real| #[trigger]
            call_ensures(times, (a, b), n) ==> n == product(a, b),
    ensures
        c.cols == from(col(doc.x0), col(doc.x1)),
        c.rows == from(col(doc.y0), col(doc.y1)),
        c.all == product(
            from(col(doc.x0), col(doc.x1)),
            from(col(doc.y0), col(doc.y1)),
        ),
{
}

} // verus!
