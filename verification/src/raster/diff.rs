//! Per-pixel comparison of two RGBA buffers, and the diff image that explains
//! the number.
//!
//! Buffers are premultiplied RGBA, row-major, four bytes per pixel.

use vstd::prelude::*;

verus! {

/// How far apart two bytes are.
pub open spec fn distance(x: u8, y: u8) -> nat {
    if x < y {
        (y - x) as nat
    } else {
        (x - y) as nat
    }
}

/// The largest distance between bytes at the same place, over the first `n`.
pub open spec fn largest(a: Seq<u8>, b: Seq<u8>, n: int) -> nat
    decreases n,
{
    if n <= 0 {
        0
    } else if distance(a[n - 1], b[n - 1]) > largest(a, b, n - 1) {
        distance(a[n - 1], b[n - 1])
    } else {
        largest(a, b, n - 1)
    }
}

/// The sum of the distances between bytes at the same place, over the first `n`.
pub open spec fn total(a: Seq<u8>, b: Seq<u8>, n: int) -> nat
    decreases n,
{
    if n <= 0 {
        0
    } else {
        total(a, b, n - 1) + distance(a[n - 1], b[n - 1])
    }
}

fn byte_distance(x: u8, y: u8) -> (d: u8)
    ensures
        d == distance(x, y),
{
    if x < y {
        y - x
    } else {
        x - y
    }
}

/// The largest and the summed absolute per-channel difference between two RGBA
/// buffers of the same length. The mean difference is the sum over the length.
///
/// The pair is deliberate. The largest catches one badly wrong pixel, which a
/// mean dilutes to nothing; the mean catches a small error smeared over every
/// pixel.
pub fn stats(a: &[u8], b: &[u8]) -> (r: (u8, u64))
    requires
        a@.len() == b@.len(),
        a@.len() * 255 <= u64::MAX,
    ensures
        r.0 == largest(a@, b@, a@.len() as int),
        r.1 == total(a@, b@, a@.len() as int),
        forall|i: int|
            0 <= i < a@.len() ==> (#[trigger] a@[i]) - b@[i] <= r.0 && b@[i] - a@[i] <= r.0,
        r.0 == 0 || exists|i: int|
            0 <= i < a@.len() && ((#[trigger] a@[i]) - b@[i] == r.0 || b@[i] - a@[i] == r.0),
{
    let n: usize = a.len();
    let mut max: u8 = 0;
    let mut sum: u64 = 0;
    let mut i: usize = 0;
    while i < n
        invariant
            i <= n == a@.len() == b@.len(),
            n * 255 <= u64::MAX,
            sum <= i * 255,
            max == largest(a@, b@, i as int),
            sum == total(a@, b@, i as int),
        decreases n - i,
    {
        let d: u8 = byte_distance(a[i], b[i]);
        if d > max {
            max = d;
        }
        sum += d as u64;
        i += 1;
    }
    proof {
        the_largest_difference_is_attained(a@, b@, a@.len() as int);
    }
    (max, sum)
}

/// The largest difference is zero exactly when the buffers are equal.
pub proof fn no_difference_means_equal(a: Seq<u8>, b: Seq<u8>, n: int)
    requires
        0 <= n <= a.len(),
        n <= b.len(),
    ensures
        largest(a, b, n) == 0 <==> a.take(n) == b.take(n),
        total(a, b, n) == 0 <==> a.take(n) == b.take(n),
        largest(a, b, n) <= total(a, b, n) <= 255 * n,
    decreases n,
{
    if n > 0 {
        no_difference_means_equal(a, b, n - 1);
        assert(a.take(n) =~= a.take(n - 1).push(a[n - 1]));
        assert(b.take(n) =~= b.take(n - 1).push(b[n - 1]));
        if a.take(n) == b.take(n) {
            assert(a.take(n - 1) =~= a.take(n).drop_last());
            assert(b.take(n - 1) =~= b.take(n).drop_last());
            assert(a[n - 1] == a.take(n)[n - 1]);
            assert(b[n - 1] == b.take(n)[n - 1]);
        }
    } else {
        assert(a.take(0) =~= b.take(0));
    }
}

/// The spacing of binary64 numbers around `x`, counted in units in which `x`
/// is an integer: the power of two that leaves 53 significant bits.
pub open spec fn spacing(x: nat) -> nat
    decreases x,
{
    if x < 0x20_0000_0000_0000 {
        1
    } else {
        2 * spacing(x / 2)
    }
}

/// The binary64 number nearest to `x`, ties to the even one.
pub open spec fn nearest(x: nat) -> nat {
    let s = spacing(x);
    let q = x / s;
    let r = x % s;
    if 2 * r > s || (2 * r == s && q % 2 == 1) {
        (q + 1) * s
    } else {
        q * s
    }
}

/// The red weight of Rec. 601 luma, 0.299 as a binary64 number, times 2^56.
pub const RED_WEIGHT: u64 = 21545220617340452;

/// The green weight, 0.587, times 2^56.
pub const GREEN_WEIGHT: u64 = 42297807700263696;

/// The blue weight, 0.114, times 2^56.
pub const BLUE_WEIGHT: u64 = 8214565720323785;

/// Rec. 601 luma, computed in binary64 arithmetic from left to right and cut
/// down to an integer. Everything is counted in units of 2^-56, in which the
/// weights are integers.
pub open spec fn luma(r: u8, g: u8, b: u8) -> nat {
    let red = nearest((RED_WEIGHT * r) as nat);
    let green = nearest((GREEN_WEIGHT * g) as nat);
    let blue = nearest((BLUE_WEIGHT * b) as nat);
    nearest(nearest(red + green) + blue) / 0x100_0000_0000_0000
}

proof fn lemma_spacing(x: nat)
    ensures
        spacing(x) >= 1,
        spacing(x) == 1 || spacing(x) * 0x10_0000_0000_0000 <= x,
    decreases x,
{
    if x >= 0x20_0000_0000_0000 {
        lemma_spacing(x / 2);
    }
}

/// Rounding moves a number by less than its spacing.
proof fn lemma_nearest(x: nat)
    requires
        x < 0x4_0000_0000_0000_0000,
    ensures
        spacing(x) <= 0x4000,
        nearest(x) <= x + 0x4000,
{
    let s = spacing(x);
    lemma_spacing(x);
    vstd::arithmetic::div_mod::lemma_fundamental_div_mod(x as int, s as int);
    assert((x / s + 1) * s == s * (x / s) + s) by (nonlinear_arith);
    assert(x / s * s == s * (x / s)) by (nonlinear_arith);
}

/// The binary64 number nearest to `x`, in the units of `x`.
fn round(x: u128) -> (r: u128)
    requires
        x < 0x4_0000_0000_0000_0000,
    ensures
        r == nearest(x as nat),
        r <= x + 0x4000,
{
    let mut s: u128 = 1;
    let mut y: u128 = x;
    proof {
        lemma_nearest(x as nat);
    }
    while y >= 0x20_0000_0000_0000
        invariant
            1 <= s,
            s * y <= x < 0x4_0000_0000_0000_0000,
            s * spacing(y as nat) == spacing(x as nat),
        decreases y,
    {
        assert(s * 2 * (y / 2) <= s * y) by (nonlinear_arith)
            requires
                s >= 1,
                2 * (y / 2) <= y,
        ;
        assert(s * (2 * spacing((y / 2) as nat)) == s * 2 * spacing((y / 2) as nat))
            by (nonlinear_arith);
        assert(s <= x) by (nonlinear_arith)
            requires
                s * y <= x,
                y >= 1,
        ;
        s = s * 2;
        y = y / 2;
    }
    assert(s == spacing(x as nat)) by {
        assert(s * 1 == s) by (nonlinear_arith);
    }
    let q: u128 = x / s;
    let r: u128 = x % s;
    proof {
        vstd::arithmetic::div_mod::lemma_fundamental_div_mod(x as int, s as int);
        assert((q + 1) * s == s * q + s) by (nonlinear_arith);
        assert(q * s == s * q) by (nonlinear_arith);
        assert(r < s) by {
            vstd::arithmetic::div_mod::lemma_mod_bound(x as int, s as int);
        }
    }
    if 2 * r > s || (2 * r == s && q % 2 == 1) {
        (q + 1) * s
    } else {
        q * s
    }
}

proof fn lemma_products(r: u8, g: u8, b: u8)
    ensures
        0 <= RED_WEIGHT * r <= 21545220617340452 * 255,
        0 <= GREEN_WEIGHT * g <= 42297807700263696 * 255,
        0 <= BLUE_WEIGHT * b <= 8214565720323785 * 255,
{
    assert(0 <= RED_WEIGHT * r <= 21545220617340452 * 255) by (nonlinear_arith)
        requires
            RED_WEIGHT == 21545220617340452,
            r <= 255,
    ;
    assert(0 <= GREEN_WEIGHT * g <= 42297807700263696 * 255) by (nonlinear_arith)
        requires
            GREEN_WEIGHT == 42297807700263696,
            g <= 255,
    ;
    assert(0 <= BLUE_WEIGHT * b <= 8214565720323785 * 255) by (nonlinear_arith)
        requires
            BLUE_WEIGHT == 8214565720323785,
            b <= 255,
    ;
}

fn luma_of(r: u8, g: u8, b: u8) -> (l: u32)
    ensures
        l == luma(r, g, b),
        l <= 255,
{
    proof {
        lemma_products(r, g, b);
    }
    let red: u128 = round(RED_WEIGHT as u128 * r as u128);
    let green: u128 = round(GREEN_WEIGHT as u128 * g as u128);
    let blue: u128 = round(BLUE_WEIGHT as u128 * b as u128);
    let sum: u128 = round(red + green);
    (round(sum + blue) / 0x100_0000_0000_0000) as u32
}

/// The largest distance between the bytes of two pixels.
pub open spec fn pixel_distance(g: Seq<u8>, a: Seq<u8>) -> nat {
    largest(g, a, 4)
}

/// What a diff image shows for one pixel: a dimmed opaque grey of the
/// reference where the two match, and otherwise yellow for a hair and red as
/// the difference grows, with an eightfold gain that saturates.
pub open spec fn diff_pixel(g: Seq<u8>, a: Seq<u8>) -> Seq<u8> {
    let d = pixel_distance(g, a);
    if d == 0 {
        let grey = (luma(g[0], g[1], g[2]) / 4 + 24) as u8;
        seq![grey, grey, grey, 255u8]
    } else if d * 8 > 255 {
        seq![255u8, 0u8, 0u8, 255u8]
    } else {
        seq![255u8, (255 - d * 8) as u8, 0u8, 255u8]
    }
}

/// The `p`-th pixel of a buffer.
pub open spec fn pixel(s: Seq<u8>, p: int) -> Seq<u8> {
    s.subrange(4 * p, 4 * p + 4)
}

/// The number of whole pixels in both buffers.
pub open spec fn pixels(reference: Seq<u8>, actual: Seq<u8>) -> int {
    if reference.len() < actual.len() {
        reference.len() as int / 4
    } else {
        actual.len() as int / 4
    }
}

/// Renders the difference between `reference` and `actual` as an opaque image.
///
/// Matching pixels keep a dimmed grey of the reference, so the shape stays
/// recognisable and a reader can see *where* on the shape the difference is.
pub fn image(reference: &[u8], actual: &[u8]) -> (out: Vec<u8>)
    ensures
        out@.len() == 4 * pixels(reference@, actual@),
        forall|p: int|
            0 <= p < pixels(reference@, actual@) ==> #[trigger] pixel(out@, p) == diff_pixel(
                pixel(reference@, p),
                pixel(actual@, p),
            ),
{
    let len: usize = if reference.len() < actual.len() {
        reference.len()
    } else {
        actual.len()
    };
    let n: usize = len / 4;
    let mut out: Vec<u8> = Vec::new();
    let mut i: usize = 0;
    let mut at: usize = 0;
    while i < n
        invariant
            i <= n,
            at == 4 * i,
            4 * n <= reference@.len(),
            4 * n <= actual@.len(),
            4 * n <= usize::MAX,
            out@.len() == at,
            forall|p: int|
                0 <= p < i ==> #[trigger] pixel(out@, p) == diff_pixel(
                    pixel(reference@, p),
                    pixel(actual@, p),
                ),
        decreases n - i,
    {
        let ghost before = out@;
        let ghost g = pixel(reference@, i as int);
        let ghost a = pixel(actual@, i as int);
        let mut d: u8 = 0;
        let mut k: usize = 0;
        while k < 4
            invariant
                k <= 4,
                at == 4 * i,
                at + 4 <= reference@.len(),
                at + 4 <= actual@.len(),
                at + 4 <= usize::MAX,
                g == pixel(reference@, i as int),
                a == pixel(actual@, i as int),
                d == largest(g, a, k as int),
            decreases 4 - k,
        {
            let e: u8 = byte_distance(reference[at + k], actual[at + k]);
            assert(g[k as int] == reference@[at + k] && a[k as int] == actual@[at + k]);
            if e > d {
                d = e;
            }
            k += 1;
        }
        assert(g[0] == reference@[at as int] && g[1] == reference@[at + 1] && g[2]
            == reference@[at + 2]);
        if d == 0 {
            let grey: u8 = (luma_of(reference[at], reference[at + 1], reference[at + 2]) / 4
                + 24) as u8;
            out.push(grey);
            out.push(grey);
            out.push(grey);
        } else {
            let gain: u32 = d as u32 * 8;
            out.push(255);
            out.push(if gain > 255 {
                0
            } else {
                (255 - gain) as u8
            });
            out.push(0);
        }
        out.push(255);
        assert(pixel(out@, i as int) =~= diff_pixel(g, a));
        assert forall|p: int| 0 <= p < i implies #[trigger] pixel(out@, p) == diff_pixel(
            pixel(reference@, p),
            pixel(actual@, p),
        ) by {
            assert(pixel(out@, p) =~= pixel(before, p));
        }
        i += 1;
        at += 4;
    }
    out
}

/// A diff image is opaque everywhere, and a pixel of it is grey exactly where
/// the two buffers match.
pub proof fn a_diff_pixel_is_grey_exactly_on_a_match(g: Seq<u8>, a: Seq<u8>)
    requires
        g.len() == 4,
        a.len() == 4,
    ensures
        diff_pixel(g, a)[3] == 255,
        g == a <==> (diff_pixel(g, a)[0] == diff_pixel(g, a)[1] && diff_pixel(g, a)[1]
            == diff_pixel(g, a)[2]),
        g == a ==> diff_pixel(g, a)[0] == luma(g[0], g[1], g[2]) / 4 + 24,
{
    no_difference_means_equal(g, a, 4);
    assert(g.take(4) =~= g && a.take(4) =~= a);
    lemma_luma_bound(g[0], g[1], g[2]);
}

proof fn lemma_luma_bound(r: u8, g: u8, b: u8)
    ensures
        luma(r, g, b) <= 255,
{
    lemma_products(r, g, b);
    lemma_nearest((RED_WEIGHT * r) as nat);
    lemma_nearest((GREEN_WEIGHT * g) as nat);
    lemma_nearest((BLUE_WEIGHT * b) as nat);
    let red = nearest((RED_WEIGHT * r) as nat);
    let green = nearest((GREEN_WEIGHT * g) as nat);
    let blue = nearest((BLUE_WEIGHT * b) as nat);
    lemma_nearest(red + green);
    lemma_nearest(nearest(red + green) + blue);
}

/// The distance of two bytes is how much one has to be raised to reach the other.
pub proof fn a_distance_bridges_two_bytes(x: u8, y: u8)
    ensures
        x + distance(x, y) == y || y + distance(x, y) == x,
        distance(x, y) == distance(y, x),
        distance(x, y) == 0 <==> x == y,
{
}

/// The largest difference is an upper bound that is attained: no two bytes at
/// the same place are further apart, and where any two differ, some two are
/// exactly that far apart.
pub proof fn the_largest_difference_is_attained(a: Seq<u8>, b: Seq<u8>, n: int)
    requires
        0 <= n <= a.len(),
        n <= b.len(),
    ensures
        forall|i: int|
            0 <= i < n ==> (#[trigger] a[i]) - b[i] <= largest(a, b, n) && b[i] - a[i] <= largest(
                a,
                b,
                n,
            ),
        largest(a, b, n) == 0 || exists|i: int|
            0 <= i < n && ((#[trigger] a[i]) - b[i] == largest(a, b, n) || b[i] - a[i] == largest(
                a,
                b,
                n,
            )),
    decreases n,
{
    if n > 0 {
        the_largest_difference_is_attained(a, b, n - 1);
        let before = largest(a, b, n - 1);
        let now = largest(a, b, n);
        assert(a[n - 1] - b[n - 1] <= now && b[n - 1] - a[n - 1] <= now);
        if now == before && before != 0 {
            let i = choose|i: int|
                0 <= i < n - 1 && ((#[trigger] a[i]) - b[i] == before || b[i] - a[i] == before);
            assert(a[i] - b[i] == now || b[i] - a[i] == now);
        } else if now != before {
            assert(a[n - 1] - b[n - 1] == now || b[n - 1] - a[n - 1] == now);
        }
    }
}

/// The sum of the differences is that over any first part of the buffers plus
/// that over the rest, and over one byte the distance itself.
pub proof fn differences_add_up(a: Seq<u8>, b: Seq<u8>, m: int, n: int)
    requires
        0 <= m <= n <= a.len(),
        n <= b.len(),
    ensures
        total(a, b, n) == total(a, b, m) + total(a.skip(m), b.skip(m), n - m),
        m < n ==> total(a, b, m + 1) - total(a, b, m) == (if a[m] > b[m] {
            a[m] - b[m]
        } else {
            b[m] - a[m]
        }),
    decreases n - m,
{
    if m < n {
        differences_add_up(a, b, m, n - 1);
        assert(a.skip(m)[n - 1 - m] == a[n - 1]);
        assert(b.skip(m)[n - 1 - m] == b[n - 1]);
        lemma_total_step(a, b, m);
    }
}

proof fn lemma_total_step(a: Seq<u8>, b: Seq<u8>, m: int)
    requires
        0 <= m < a.len(),
        m < b.len(),
    ensures
        total(a, b, m + 1) == total(a, b, m) + distance(a[m], b[m]),
{
}

/// Rounding gives a multiple of the spacing, no further away than half of it;
/// exactly in the middle it gives the even multiple.
pub proof fn rounding_goes_to_the_nearest(x: nat)
    ensures
        spacing(x) > 0,
        nearest(x) % spacing(x) == 0,
        2 * (nearest(x) - x) <= spacing(x),
        2 * (x - nearest(x)) <= spacing(x),
        2 * (x % spacing(x)) == spacing(x) ==> (nearest(x) / spacing(x)) % 2 == 0,
{
    let s = spacing(x);
    lemma_spacing(x);
    let q = x / s;
    let r = x % s;
    vstd::arithmetic::div_mod::lemma_fundamental_div_mod(x as int, s as int);
    vstd::arithmetic::div_mod::lemma_mod_bound(x as int, s as int);
    assert((q + 1) * s == s * q + s) by (nonlinear_arith);
    assert(q * s == s * q) by (nonlinear_arith);
    vstd::arithmetic::div_mod::lemma_mod_multiples_basic(q as int, s as int);
    vstd::arithmetic::div_mod::lemma_mod_multiples_basic((q + 1) as int, s as int);
    vstd::arithmetic::div_mod::lemma_div_multiples_vanish(q as int, s as int);
    vstd::arithmetic::div_mod::lemma_div_multiples_vanish((q + 1) as int, s as int);
    assert(s * q == q * s);
    assert(((q * s) as nat) / s == q) by {
        assert(s as int * q as int == q as int * s as int) by (nonlinear_arith);
    }
    assert((((q + 1) * s) as nat) / s == q + 1) by {
        assert(s as int * (q + 1) as int == (q + 1) as int * s as int) by (nonlinear_arith);
    }
}

/// Luma is the weighted mean of the channels, 0.299 red, 0.587 green and 0.114
/// blue, cut down to an integer: it is off by less than one and a thousandth.
pub proof fn luma_weighs_the_channels(r: u8, g: u8, b: u8)
    ensures
        -1 <= 299 * r + 587 * g + 114 * b - 1000 * luma(r, g, b) <= 1000,
{
    lemma_products(r, g, b);
    let x = (RED_WEIGHT * r) as nat;
    let y = (GREEN_WEIGHT * g) as nat;
    let z = (BLUE_WEIGHT * b) as nat;
    let (red, green, blue) = (nearest(x), nearest(y), nearest(z));
    lemma_nearest(x);
    lemma_nearest(y);
    lemma_nearest(z);
    rounding_goes_to_the_nearest(x);
    rounding_goes_to_the_nearest(y);
    rounding_goes_to_the_nearest(z);
    lemma_nearest(red + green);
    rounding_goes_to_the_nearest(red + green);
    let sum = nearest(red + green);
    lemma_nearest(sum + blue);
    rounding_goes_to_the_nearest(sum + blue);
}

/// A diff pixel is grey where two pixels match; otherwise it is red with green
/// that fades by eight for each step of the largest difference, down to none.
pub proof fn a_diff_pixel_shows_the_largest_difference(g: Seq<u8>, a: Seq<u8>, i: int)
    requires
        g.len() == 4,
        a.len() == 4,
        0 <= i < 4,
        g[i] != a[i],
        forall|j: int| 0 <= j < 4 ==> distance(#[trigger] g[j], a[j]) <= distance(g[i], a[i]),
    ensures
        diff_pixel(g, a).len() == 4,
        diff_pixel(g, a)[0] == 255 && diff_pixel(g, a)[2] == 0 && diff_pixel(g, a)[3] == 255,
        8 * distance(g[i], a[i]) <= 255 ==> diff_pixel(g, a)[1] == 255 - 8 * distance(g[i], a[i]),
        8 * distance(g[i], a[i]) > 255 ==> diff_pixel(g, a)[1] == 0,
{
    the_largest_difference_is_attained(g, a, 4);
    let d = largest(g, a, 4);
    assert(g[i] - a[i] <= d && a[i] - g[i] <= d);
    if d != 0 {
        let k = choose|k: int|
            0 <= k < 4 && ((#[trigger] g[k]) - a[k] == d || a[k] - g[k] == d);
        assert(distance(g[k], a[k]) <= distance(g[i], a[i]));
    }
    assert(d == distance(g[i], a[i]));
}

} // verus!
