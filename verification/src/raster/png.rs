//! A PNG encoder and decoder for golden images.
//!
//! Deflate has a *stored* block type that compresses nothing: a zlib stream is
//! then a two-byte header, length-prefixed copies of the input and an Adler-32.
//! What still has to be exactly right is the framing.
//!
//! Pixels are premultiplied and PNG is not; the bytes are written as they are,
//! because a golden has to round-trip bit-exactly.
//!
//! The decoder reads what this encoder writes, and no more: 8-bit RGBA, no
//! interlace, filter 0 on every row, stored deflate blocks. Anything else
//! returns `None` rather than being half-supported.

use vstd::prelude::*;

verus! {

/// The eight bytes every PNG starts with.
pub const SIGNATURE: [u8; 8] = [0x89, 0x50, 0x4e, 0x47, 0x0d, 0x0a, 0x1a, 0x0a];

/// The largest payload a single stored deflate block can hold.
pub const STORED_MAX: usize = 0xffff;

/// The low 32 bits of `v`, most significant byte first.
pub open spec fn be32(v: nat) -> Seq<u8> {
    seq![
        (v / 0x100_0000 % 256) as u8,
        (v / 0x1_0000 % 256) as u8,
        (v / 0x100 % 256) as u8,
        (v % 256) as u8,
    ]
}

/// The number four bytes write, most significant byte first.
pub open spec fn from_be32(s: Seq<u8>, i: int) -> nat {
    (s[i] * 0x100_0000 + s[i + 1] * 0x1_0000 + s[i + 2] * 0x100 + s[i + 3]) as nat
}

/// The low 16 bits of `v`, least significant byte first.
pub open spec fn le16(v: nat) -> Seq<u8> {
    seq![(v % 256) as u8, (v / 0x100 % 256) as u8]
}

/// The number two bytes write, least significant byte first.
pub open spec fn from_le16(s: Seq<u8>, i: int) -> nat {
    (s[i] + s[i + 1] * 0x100) as nat
}

pub proof fn lemma_be32(v: nat)
    requires
        v < 0x1_0000_0000,
    ensures
        from_be32(be32(v), 0) == v,
{
}

/// One step of the CRC register: a division by the reflected polynomial.
pub open spec fn crc_bit(c: u32) -> u32 {
    (c >> 1) ^ (if c & 1 == 1 {
        0xedb8_8320u32
    } else {
        0u32
    })
}

/// The register after `n` steps.
pub open spec fn crc_bits(c: u32, n: nat) -> u32
    decreases n,
{
    if n == 0 {
        c
    } else {
        crc_bit(crc_bits(c, (n - 1) as nat))
    }
}

/// The register after taking in `bytes`.
pub open spec fn crc_update(c: u32, bytes: Seq<u8>) -> u32
    decreases bytes.len(),
{
    if bytes.len() == 0 {
        c
    } else {
        crc_bits(crc_update(c, bytes.drop_last()) ^ (bytes.last() as u32), 8)
    }
}

/// CRC-32 as PNG defines it.
pub open spec fn crc_of(bytes: Seq<u8>) -> u32 {
    !crc_update(0xffff_ffff, bytes)
}

/// Taking in bytes in two parts is taking them in at once.
pub proof fn crc_of_parts(c: u32, a: Seq<u8>, b: Seq<u8>)
    ensures
        crc_update(crc_update(c, a), b) == crc_update(c, a + b),
    decreases b.len(),
{
    if b.len() == 0 {
        assert(a + b =~= a);
    } else {
        crc_of_parts(c, a, b.drop_last());
        assert((a + b).drop_last() =~= a + b.drop_last());
    }
}

/// One more than the sum of the bytes.
pub open spec fn adler_low(bytes: Seq<u8>) -> nat
    decreases bytes.len(),
{
    if bytes.len() == 0 {
        1
    } else {
        adler_low(bytes.drop_last()) + bytes.last() as nat
    }
}

/// The sum of the low sums of all non-empty prefixes.
pub open spec fn adler_high(bytes: Seq<u8>) -> nat
    decreases bytes.len(),
{
    if bytes.len() == 0 {
        0
    } else {
        adler_high(bytes.drop_last()) + adler_low(bytes)
    }
}

/// Adler-32, the zlib stream check value.
pub open spec fn adler_of(bytes: Seq<u8>) -> nat {
    adler_high(bytes) % 65521 * 0x1_0000 + adler_low(bytes) % 65521
}

/// The parts put one after the other.
pub open spec fn joined(parts: Seq<&[u8]>) -> Seq<u8>
    decreases parts.len(),
{
    if parts.len() == 0 {
        Seq::empty()
    } else {
        joined(parts.drop_last()) + parts.last()@
    }
}

/// The register after the bytes `from..to`, a bit at a time.
fn crc_run(start: u32, bytes: &[u8], from: usize, to: usize) -> (crc: u32)
    requires
        from <= to <= bytes@.len(),
    ensures
        crc == crc_update(start, bytes@.subrange(from as int, to as int)),
{
    let mut crc: u32 = start;
    let mut i: usize = from;
    while i < to
        invariant
            from <= i <= to <= bytes@.len(),
            crc == crc_update(start, bytes@.subrange(from as int, i as int)),
        decreases to - i,
    {
        let ghost before = bytes@.subrange(from as int, i as int);
        let first: u32 = crc ^ (bytes[i] as u32);
        crc = first;
        let mut n: u32 = 0;
        while n < 8
            invariant
                n <= 8,
                crc == crc_bits(first, n as nat),
            decreases 8 - n,
        {
            // The mask is 0 or all ones depending on the low bit.
            let low: u32 = crc & 1;
            let mask: u32 = (!low).wrapping_add(1);
            proof {
                assert(low == 0 || low == 1) by (bit_vector)
                    requires
                        low == crc & 1,
                ;
                assert(!0u32 == 0xffff_ffffu32 && !1u32 == 0xffff_fffeu32) by (bit_vector);
                assert(0xedb8_8320u32 & 0xffff_ffffu32 == 0xedb8_8320u32 && 0xedb8_8320u32 & 0u32
                    == 0u32) by (bit_vector);
            }
            crc = (crc >> 1) ^ (0xedb8_8320 & mask);
            n += 1;
        }
        i += 1;
        assert(bytes@.subrange(from as int, i as int) =~= before.push(bytes@[i - 1]));
        assert(before.push(bytes@[i - 1]).drop_last() =~= before);
    }
    crc
}

/// CRC-32 of the concatenation of `parts`, as PNG defines it.
pub fn crc32(parts: &[&[u8]]) -> (crc: u32)
    ensures
        crc == crc_of(joined(parts@)),
{
    let mut crc: u32 = 0xffff_ffff;
    let mut i: usize = 0;
    assert(joined(parts@.take(0)) =~= Seq::<u8>::empty());
    while i < parts.len()
        invariant
            i <= parts@.len(),
            crc == crc_update(0xffff_ffff, joined(parts@.take(i as int))),
        decreases parts@.len() - i,
    {
        let part = parts[i];
        crc = crc_run(crc, part, 0, part.len());
        proof {
            assert(part@.subrange(0, part@.len() as int) =~= part@);
            crc_of_parts(0xffff_ffff, joined(parts@.take(i as int)), part@);
            assert(parts@.take(i + 1).drop_last() =~= parts@.take(i as int));
        }
        i += 1;
    }
    assert(parts@.take(i as int) =~= parts@);
    !crc
}

/// How far the high sum can have grown `n` bytes after a reduction, doubled.
spec fn sum_fits(n: int, b: int) -> bool {
    2 * b <= 131040 * (n + 1) + 255 * (n * (n + 1))
}

proof fn lemma_sum_fits(n: int, a: int, b: int)
    requires
        0 <= n < 5552,
        a <= 65520 + (n + 1) * 255,
        sum_fits(n, b),
    ensures
        sum_fits(n + 1, b + a),
        b + a <= u32::MAX,
{
    assert((n + 1) * (n + 2) == n * (n + 1) + 2 * (n + 1)) by (nonlinear_arith);
    assert((n + 1) * (n + 2) <= 5552 * 5553) by (nonlinear_arith)
        requires
            0 <= n < 5552,
    ;
}

proof fn lemma_same_residue(x: nat, u: nat, y: nat, v: nat)
    requires
        x % 65521 == u % 65521,
        y % 65521 == v % 65521,
    ensures
        (x + y) % 65521 == (u + v) % 65521,
{
}

/// Adler-32 of `data`, the zlib stream check value.
pub fn adler32(data: &[u8]) -> (r: u32)
    ensures
        r == adler_of(data@),
{
    let mut a: u32 = 1;
    let mut b: u32 = 0;
    let mut i: usize = 0;
    // 5552 is the most bytes that can be summed before `b` could overflow.
    let mut left: u32 = 5552;
    while i < data.len()
        invariant
            i <= data@.len(),
            0 < left <= 5552,
            a <= 65520 + (5552 - left) * 255,
            sum_fits(5552 - left, b as int),
            a as nat % 65521 == adler_low(data@.take(i as int)) % 65521,
            b as nat % 65521 == adler_high(data@.take(i as int)) % 65521,
        decreases data@.len() - i,
    {
        assert(data@.take(i + 1).drop_last() =~= data@.take(i as int));
        proof {
            let d = data@[i as int] as nat;
            lemma_sum_fits(5552 - left, a + d, b as int);
            lemma_same_residue(a as nat, adler_low(data@.take(i as int)), d, d);
            lemma_same_residue(
                b as nat,
                adler_high(data@.take(i as int)),
                (a + d) as nat,
                adler_low(data@.take(i + 1)),
            );
        }
        a += data[i] as u32;
        b += a;
        left -= 1;
        if left == 0 {
            a = a % 65521;
            b = b % 65521;
            left = 5552;
        }
        i += 1;
    }
    assert(data@.take(i as int) =~= data@);
    a = a % 65521;
    b = b % 65521;
    assert((b << 16) | a == b * 0x1_0000 + a) by (bit_vector)
        requires
            a < 0x1_0000,
            b < 0x1_0000,
    ;
    (b << 16) | a
}

/// One stored deflate block.
pub open spec fn stored_block(last: bool, data: Seq<u8>) -> Seq<u8> {
    seq![
        if last {
            1u8
        } else {
            0u8
        },
    ] + le16(data.len()) + le16((0xffff - data.len()) as nat) + data
}

/// `data` as stored blocks, each as full as it can be.
pub open spec fn stored_blocks(data: Seq<u8>) -> Seq<u8>
    decreases data.len(),
{
    if data.len() <= STORED_MAX {
        stored_block(true, data)
    } else {
        stored_block(false, data.take(STORED_MAX as int)) + stored_blocks(
            data.skip(STORED_MAX as int),
        )
    }
}

/// `data` as a zlib stream.
pub open spec fn zlib_of(data: Seq<u8>) -> Seq<u8> {
    seq![0x78u8, 0x01u8] + stored_blocks(data) + be32(adler_of(data))
}

/// What the stored blocks from `i` on add to `done`, and where they end.
pub open spec fn unstored(z: Seq<u8>, i: int, done: Seq<u8>) -> Option<(Seq<u8>, int)>
    decreases z.len() - i,
{
    if i + 5 > z.len() || z[i] & 0x06 != 0 {
        None
    } else {
        let len = from_le16(z, i + 1);
        if from_le16(z, i + 3) != 0xffff - len || i + 5 + len > z.len() {
            None
        } else {
            let more = done + z.subrange(i + 5, i + 5 + len);
            if z[i] & 1 != 0 {
                Some((more, i + 5 + len))
            } else {
                unstored(z, i + 5 + len, more)
            }
        }
    }
}

/// The data of a zlib stream of stored blocks.
pub open spec fn inflated(z: Seq<u8>) -> Option<Seq<u8>> {
    if z.len() < 2 || z[0] != 0x78 || z[1] & 0x20 != 0 || (0x78 * 256 + z[1]) % 31 != 0 {
        None
    } else {
        match unstored(z, 2, Seq::empty()) {
            None => None,
            Some((data, i)) => if i + 4 > z.len() || from_be32(z, i) != adler_of(data) {
                None
            } else {
                Some(data)
            },
        }
    }
}

/// Appends `bytes[from..to]`.
fn push_all(out: &mut Vec<u8>, bytes: &[u8], from: usize, to: usize)
    requires
        from <= to <= bytes@.len(),
    ensures
        final(out)@ == old(out)@ + bytes@.subrange(from as int, to as int),
{
    let mut i: usize = from;
    while i < to
        invariant
            from <= i <= to <= bytes@.len(),
            out@ == old(out)@ + bytes@.subrange(from as int, i as int),
        decreases to - i,
    {
        out.push(bytes[i]);
        i += 1;
        assert(out@ =~= old(out)@ + bytes@.subrange(from as int, i as int));
    }
    assert(out@ =~= old(out)@ + bytes@.subrange(from as int, to as int));
}

fn push_be32(out: &mut Vec<u8>, v: u32)
    ensures
        final(out)@ == old(out)@ + be32(v as nat),
{
    out.push((v / 0x100_0000 % 256) as u8);
    out.push((v / 0x1_0000 % 256) as u8);
    out.push((v / 0x100 % 256) as u8);
    out.push((v % 256) as u8);
    assert(out@ =~= old(out)@ + be32(v as nat));
}

fn push_le16(out: &mut Vec<u8>, v: u16)
    ensures
        final(out)@ == old(out)@ + le16(v as nat),
{
    out.push((v % 256) as u8);
    out.push((v / 0x100 % 256) as u8);
    assert(out@ =~= old(out)@ + le16(v as nat));
}

fn read_be32(s: &[u8], i: usize) -> (v: u32)
    requires
        i + 4 <= s@.len(),
    ensures
        v == from_be32(s@, i as int),
{
    s[i] as u32 * 0x100_0000 + s[i + 1] as u32 * 0x1_0000 + s[i + 2] as u32 * 0x100 + s[i + 3] as u32
}

fn read_le16(s: &[u8], i: usize) -> (v: u16)
    requires
        i + 2 <= s@.len(),
    ensures
        v == from_le16(s@, i as int),
{
    s[i] as u16 + s[i + 1] as u16 * 0x100
}

/// Wraps `data` in a zlib stream of stored (uncompressed) deflate blocks.
pub fn zlib_stored(data: &[u8]) -> (out: Vec<u8>)
    ensures
        out@ == zlib_of(data@),
{
    // Deflate, 32 KB window; no preset dictionary, fastest level. The pair is
    // also the header check: it is divisible by 31.
    let mut out: Vec<u8> = Vec::new();
    out.push(0x78);
    out.push(0x01);
    let mut i: usize = 0;
    // An empty input still needs one final, empty block.
    assert(data@.skip(0) =~= data@);
    assert(out@ =~= seq![0x78u8, 0x01u8]);
    loop
        invariant_except_break
            i <= data@.len(),
            out@ + stored_blocks(data@.skip(i as int)) == seq![0x78u8, 0x01u8] + stored_blocks(
                data@,
            ),
        ensures
            out@ == seq![0x78u8, 0x01u8] + stored_blocks(data@),
        decreases data@.len() - i,
    {
        let left: usize = data.len() - i;
        let last = left <= STORED_MAX;
        let len: usize = if last {
            left
        } else {
            STORED_MAX
        };
        let ghost before = out@;
        let ghost rest = data@.skip(i as int);
        out.push(if last {
            1
        } else {
            0
        });
        push_le16(&mut out, len as u16);
        push_le16(&mut out, 0xffff - len as u16);
        push_all(&mut out, data, i, i + len);
        proof {
            assert(data@.subrange(i as int, i + len) =~= rest.take(len as int));
            assert(out@ =~= before + stored_block(last, rest.take(len as int)));
        }
        i += len;
        if last {
            assert(rest.take(len as int) =~= rest);
            break;
        }
        assert(data@.skip(i as int) =~= rest.skip(len as int));
        assert(out@ + stored_blocks(data@.skip(i as int)) =~= before + stored_blocks(rest));
    }
    push_be32(&mut out, adler32(data));
    out
}

/// Undoes [`zlib_stored`]. Returns `None` for any non-stored block.
pub fn inflate_stored(z: &[u8]) -> (r: Option<Vec<u8>>)
    ensures
        match inflated(z@) {
            Some(data) => r matches Some(d) && d@ == data,
            None => r is None,
        },
{
    // A preset dictionary would put four bytes in front of the data.
    if z.len() < 2 || z[0] != 0x78 || z[1] & 0x20 != 0 || (0x78 * 256 + z[1] as u32) % 31 != 0 {
        return None;
    }
    let mut out: Vec<u8> = Vec::new();
    let mut i: usize = 2;
    loop
        invariant
            2 <= i <= z@.len(),
            unstored(z@, 2, Seq::empty()) == unstored(z@, i as int, out@),
            z@[0] == 0x78,
            z@[1] & 0x20 == 0,
            (0x78 * 256 + z@[1]) % 31 == 0,
        decreases z@.len() - i,
    {
        if z.len() - i < 5 || z[i] & 0x06 != 0 {
            return None;
        }
        let len: u16 = read_le16(z, i + 1);
        let check: u16 = read_le16(z, i + 3);
        if check != 0xffff - len || z.len() - i - 5 < len as usize {
            return None;
        }
        let start: usize = i + 5;
        push_all(&mut out, z, start, start + len as usize);
        let last = z[i] & 1 != 0;
        i = start + len as usize;
        if last {
            if z.len() - i < 4 || read_be32(z, i) != adler32(out.as_slice()) {
                return None;
            }
            return Some(out);
        }
    }
}

/// A stored block reads back as what was stored, wherever it stands.
proof fn lemma_block_reads_back(z: Seq<u8>, i: int, last: bool, data: Seq<u8>, done: Seq<u8>)
    requires
        0 <= i,
        data.len() <= STORED_MAX,
        i + 5 + data.len() <= z.len(),
        z.subrange(i, i + 5 + data.len()) == stored_block(last, data),
    ensures
        unstored(z, i, done) == (if last {
            Some((done + data, i + 5 + data.len()))
        } else {
            unstored(z, i + 5 + data.len(), done + data)
        }),
{
    let b = z.subrange(i, i + 5 + data.len());
    let n = data.len();
    assert(z[i] == b[0] && z[i + 1] == b[1] && z[i + 2] == b[2] && z[i + 3] == b[3] && z[i + 4]
        == b[4]);
    assert(b[1] == le16(n)[0] && b[2] == le16(n)[1]);
    assert(b[3] == le16((0xffff - n) as nat)[0] && b[4] == le16((0xffff - n) as nat)[1]);
    assert(from_le16(z, i + 1) == n && from_le16(z, i + 3) == 0xffff - n);
    assert(1u8 & 0x06 == 0 && 0u8 & 0x06 == 0 && 1u8 & 1 == 1 && 0u8 & 1 == 0) by (bit_vector);
    assert(z.subrange(i + 5, i + 5 + n) =~= b.skip(5));
    assert(b.skip(5) =~= data);
}

/// Stored blocks read back as what was stored, wherever they stand.
proof fn lemma_blocks_read_back(z: Seq<u8>, i: int, data: Seq<u8>, done: Seq<u8>)
    requires
        0 <= i,
        i + stored_blocks(data).len() <= z.len(),
        z.subrange(i, i + stored_blocks(data).len()) == stored_blocks(data),
    ensures
        unstored(z, i, done) == Some((done + data, i + stored_blocks(data).len())),
    decreases data.len(),
{
    let all = stored_blocks(data);
    if data.len() <= STORED_MAX {
        lemma_block_reads_back(z, i, true, data, done);
    } else {
        let head = data.take(STORED_MAX as int);
        let tail = data.skip(STORED_MAX as int);
        let first = stored_block(false, head);
        assert(first.len() == 5 + STORED_MAX);
        assert(z.subrange(i, i + first.len()) =~= z.subrange(i, i + all.len()).take(
            first.len() as int,
        ));
        assert(all.take(first.len() as int) =~= first);
        lemma_block_reads_back(z, i, false, head, done);
        let j = i + first.len();
        assert(z.subrange(j, j + stored_blocks(tail).len()) =~= z.subrange(i, i + all.len()).skip(
            first.len() as int,
        ));
        assert(all.skip(first.len() as int) =~= stored_blocks(tail));
        lemma_blocks_read_back(z, j, tail, done + head);
        assert(done + head + tail =~= done + data);
    }
}

/// Inflating gives back exactly what was stored.
pub proof fn inflating_undoes_storing(data: Seq<u8>)
    ensures
        inflated(zlib_of(data)) == Some(data),
{
    let z = zlib_of(data);
    let blocks = stored_blocks(data);
    let end = 2 + blocks.len() as int;
    assert(z.subrange(2, end) =~= blocks);
    lemma_blocks_read_back(z, 2, data, Seq::empty());
    assert(Seq::<u8>::empty() + data =~= data);
    assert(1u8 & 0x20 == 0) by (bit_vector);
    lemma_be32(adler_of(data));
    let check = be32(adler_of(data));
    assert(z[end] == check[0] && z[end + 1] == check[1] && z[end + 2] == check[2] && z[end
        + 3] == check[3]);
}

/// The type of the chunk that holds the image header.
pub const IHDR: [u8; 4] = [73, 72, 68, 82];

/// The type of the chunks that hold the image data.
pub const IDAT: [u8; 4] = [73, 68, 65, 84];

/// The type of the chunk that ends the file.
pub const IEND: [u8; 4] = [73, 69, 78, 68];

/// The end of the header: bit depth 8, colour type 6 (RGBA), deflate, adaptive
/// filtering, no interlace.
pub const FORMAT: [u8; 5] = [8, 6, 0, 0, 0];

/// One chunk: length, type, payload and the CRC of type and payload.
pub open spec fn chunk_of(kind: Seq<u8>, data: Seq<u8>) -> Seq<u8> {
    be32(data.len()) + kind + data + be32(crc_of(kind + data) as nat)
}

/// `n` rows of `stride` bytes, each behind a filter byte that says unfiltered.
pub open spec fn filtered(data: Seq<u8>, stride: nat, n: nat) -> Seq<u8>
    decreases n,
{
    if n == 0 {
        Seq::empty()
    } else {
        seq![0u8] + data.take(stride as int) + filtered(
            data.skip(stride as int),
            stride,
            (n - 1) as nat,
        )
    }
}

/// `n` rows without their filter bytes, or nothing if a row is filtered.
pub open spec fn unfiltered(raw: Seq<u8>, stride: nat, n: nat) -> Option<Seq<u8>>
    decreases n,
{
    if n == 0 {
        Some(Seq::empty())
    } else if raw[0] != 0 {
        None
    } else {
        match unfiltered(raw.skip(stride as int + 1), stride, (n - 1) as nat) {
            Some(rest) => Some(raw.subrange(1, stride as int + 1) + rest),
            None => None,
        }
    }
}

/// The payload of the header chunk.
pub open spec fn header_of(width: u32, height: u32) -> Seq<u8> {
    be32(width as nat) + be32(height as nat) + FORMAT@
}

/// The file for `width` by `height` RGBA pixels.
pub open spec fn png_of(width: u32, height: u32, data: Seq<u8>) -> Seq<u8> {
    SIGNATURE@ + chunk_of(IHDR@, header_of(width, height)) + chunk_of(
        IDAT@,
        zlib_of(filtered(data, width as nat * 4, height as nat)),
    ) + chunk_of(IEND@, Seq::empty())
}

/// What the chunks of a file have said so far.
pub struct ChunksModel {
    /// Width and height, once a header was seen.
    pub size: Option<(nat, nat)>,
    /// The data chunks, put together.
    pub idat: Seq<u8>,
}

/// What a chunk adds, or nothing for a header this decoder does not read.
pub open spec fn with_chunk(m: ChunksModel, kind: Seq<u8>, data: Seq<u8>) -> Option<ChunksModel> {
    if kind == IHDR@ {
        if data.len() < 13 || data.subrange(8, 13) != FORMAT@ {
            None
        } else {
            Some(ChunksModel { size: Some((from_be32(data, 0), from_be32(data, 4))), ..m })
        }
    } else if kind == IDAT@ {
        Some(ChunksModel { idat: m.idat + data, ..m })
    } else {
        Some(m)
    }
}

/// What the chunks from `i` on add to `m`, up to the one that ends the file; a
/// file without one is truncated.
pub open spec fn chunks(s: Seq<u8>, i: int, m: ChunksModel) -> Option<ChunksModel>
    decreases s.len() - i,
{
    if i + 12 > s.len() || i + 12 + from_be32(s, i) > s.len() {
        None
    } else {
        let end = i + 8 + from_be32(s, i);
        let kind = s.subrange(i + 4, i + 8);
        let data = s.subrange(i + 8, end);
        if from_be32(s, end) != crc_of(kind + data) {
            None
        } else {
            match with_chunk(m, kind, data) {
                None => None,
                Some(next) => if kind == IEND@ {
                    Some(next)
                } else {
                    chunks(s, end + 4, next)
                },
            }
        }
    }
}

/// The picture in a file, as width, height and RGBA bytes.
pub open spec fn decoded(bytes: Seq<u8>) -> Option<(nat, nat, Seq<u8>)> {
    if bytes.len() < 8 || bytes.take(8) != SIGNATURE@ {
        None
    } else {
        match chunks(bytes, 8, ChunksModel { size: None, idat: Seq::empty() }) {
            None => None,
            Some(m) => match (m.size, inflated(m.idat)) {
                (Some((width, height)), Some(raw)) => if raw.len() != (width * 4 + 1) * height {
                    None
                } else {
                    match unfiltered(raw, width * 4, height) {
                        Some(data) => Some((width, height, data)),
                        None => None,
                    }
                },
                _ => None,
            },
        }
    }
}

proof fn lemma_be32_low(v: nat)
    ensures
        be32(v % 0x1_0000_0000) == be32(v),
{
    let q = v / 0x1_0000_0000;
    let r = v % 0x1_0000_0000;
    assert(v == q * 0x1_0000_0000 + r);
    assert(v / 0x100_0000 == q * 256 + r / 0x100_0000);
    assert(v / 0x1_0000 == q * 0x1_0000 + r / 0x1_0000);
    assert(v / 0x100 == q * 0x100_0000 + r / 0x100);
}

/// Appends one PNG chunk: big-endian length, four-byte type, payload, CRC.
pub fn chunk(out: &mut Vec<u8>, kind: &[u8; 4], data: &[u8])
    ensures
        final(out)@ == old(out)@ + chunk_of(kind@, data@),
{
    let len: usize = data.len();
    // The length field holds the low 32 bits.
    let low: u32 = (len as u64 % 0x1_0000_0000) as u32;
    push_be32(out, low);
    proof {
        lemma_be32_low(len as nat);
    }
    push_all(out, kind, 0, 4);
    push_all(out, data, 0, len);
    let crc: u32 = crc_run(crc_run(0xffff_ffff, kind, 0, 4), data, 0, len);
    proof {
        assert(kind@.subrange(0, 4) =~= kind@);
        assert(data@.subrange(0, len as int) =~= data@);
        crc_of_parts(0xffff_ffff, kind@, data@);
    }
    push_be32(out, !crc);
    assert(out@ =~= old(out)@ + chunk_of(kind@, data@));
}

/// Whether `bytes[from..]` starts with `p`.
fn holds(bytes: &[u8], from: usize, p: &[u8]) -> (r: bool)
    requires
        from + p@.len() <= bytes@.len(),
    ensures
        r == (bytes@.subrange(from as int, from + p@.len()) == p@),
{
    let total: usize = bytes.len();
    let mut i: usize = 0;
    while i < p.len()
        invariant
            i <= p@.len(),
            from + p@.len() <= bytes@.len() == total,
            forall|k: int| 0 <= k < i ==> bytes@[from + k] == p@[k],
        decreases p@.len() - i,
    {
        if bytes[from + i] != p[i] {
            assert(bytes@.subrange(from as int, from + p@.len())[i as int] != p@[i as int]);
            return false;
        }
        i += 1;
    }
    assert(bytes@.subrange(from as int, from + p@.len()) =~= p@);
    true
}

/// Encodes `width` by `height` RGBA bytes as an 8-bit truecolour-with-alpha PNG.
///
/// `data` is row-major from the top left, four bytes per pixel, and is written
/// unchanged.
pub fn encode(width: u32, height: u32, data: &[u8]) -> (out: Vec<u8>)
    requires
        data@.len() == width * 4 * height,
        (width * 4 + 1) * height <= usize::MAX,
        width * 4 <= usize::MAX,
    ensures
        out@ == png_of(width, height, data@),
{
    let stride: usize = width as usize * 4;
    let total: usize = data.len();
    // Filter byte 0 (None) ahead of every row. Filtering exists to help the
    // compressor, and this one does not compress.
    let mut raw: Vec<u8> = Vec::new();
    let mut y: u32 = 0;
    let mut at: usize = 0;
    assert(data@.skip(0) =~= data@);
    let ghost whole = filtered(data@, stride as nat, height as nat);
    assert(raw@ + whole =~= whole);
    while y < height
        invariant
            y <= height,
            stride == width * 4,
            data@.len() == stride * height == total,
            at == stride * y,
            whole == raw@ + filtered(data@.skip(at as int), stride as nat, (height - y) as nat),
        decreases height - y,
    {
        assert(stride * (y + 1) <= stride * height && stride * (y + 1) == stride * y + stride)
            by (nonlinear_arith)
            requires
                y < height,
        ;
        let ghost before = raw@;
        raw.push(0);
        push_all(&mut raw, data, at, at + stride);
        proof {
            let rest = data@.skip(at as int);
            assert(rest.take(stride as int) =~= data@.subrange(at as int, at + stride));
            assert(rest.skip(stride as int) =~= data@.skip(at + stride));
            let after = filtered(data@.skip(at + stride), stride as nat, (height - y - 1) as nat);
            assert(before + (seq![0u8] + rest.take(stride as int) + after) =~= raw@ + after);
        }
        at += stride;
        y += 1;
    }
    assert(raw@ =~= whole);
    let mut out: Vec<u8> = Vec::new();
    push_all(&mut out, &SIGNATURE, 0, 8);
    assert(out@ =~= SIGNATURE@);
    let mut ihdr: Vec<u8> = Vec::new();
    push_be32(&mut ihdr, width);
    push_be32(&mut ihdr, height);
    push_all(&mut ihdr, &FORMAT, 0, 5);
    assert(ihdr@ =~= header_of(width, height));
    chunk(&mut out, &IHDR, ihdr.as_slice());
    let z = zlib_stored(raw.as_slice());
    chunk(&mut out, &IDAT, z.as_slice());
    let nothing: Vec<u8> = Vec::new();
    chunk(&mut out, &IEND, nothing.as_slice());
    out
}

/// What the chunks of a file said.
struct Chunks {
    size: Option<(u32, u32)>,
    idat: Vec<u8>,
}

impl Chunks {
    spec fn model(self) -> ChunksModel {
        ChunksModel {
            size: match self.size {
                Some((w, h)) => Some((w as nat, h as nat)),
                None => None,
            },
            idat: self.idat@,
        }
    }

    /// Takes in the chunk whose type is at `at` and whose payload ends at `end`.
    /// False for a header this decoder does not read.
    fn take(&mut self, bytes: &[u8], at: usize, end: usize) -> (r: bool)
        requires
            at + 4 <= end <= bytes@.len(),
        ensures
            match with_chunk(
                old(self).model(),
                bytes@.subrange(at as int, at + 4),
                bytes@.subrange(at + 4, end as int),
            ) {
                Some(m) => r && final(self).model() == m,
                None => !r,
            },
    {
        let start: usize = at + 4;
        let ghost data = bytes@.subrange(at + 4, end as int);
        proof {
            assert(IHDR@ != IDAT@) by {
                assert(IHDR@[1] != IDAT@[1]);
            }
        }
        if holds(bytes, at, &IHDR) {
            if end - start < 13 {
                return false;
            }
            if !holds(bytes, start + 8, &FORMAT) {
                assert(data.subrange(8, 13) =~= bytes@.subrange(start + 8, start + 13));
                return false;
            }
            assert(data.subrange(8, 13) =~= bytes@.subrange(start + 8, start + 13));
            let width: u32 = read_be32(bytes, start);
            let height: u32 = read_be32(bytes, start + 4);
            self.size = Some((width, height));
            assert(self.model().size == Some((from_be32(data, 0), from_be32(data, 4))));
        } else if holds(bytes, at, &IDAT) {
            // The image data may be split across any number of chunks, and a
            // split can fall mid-block.
            push_all(&mut self.idat, bytes, start, end);
        }
        true
    }
}

/// Decodes a PNG written by [`encode`] into `(width, height, rgba)`.
///
/// Returns `None` for anything outside that subset, for a chunk whose CRC does
/// not match, and for a truncated file.
pub fn decode(bytes: &[u8]) -> (r: Option<(u32, u32, Vec<u8>)>)
    ensures
        match decoded(bytes@) {
            Some((width, height, data)) => r matches Some((w, h, d)) && w == width && h == height
                && d@ == data,
            None => r is None,
        },
{
    let total: usize = bytes.len();
    if total < 8 || !holds(bytes, 0, &SIGNATURE) {
        assert(total >= 8 ==> bytes@.subrange(0, 8) =~= bytes@.take(8));
        return None;
    }
    assert(bytes@.subrange(0, 8) =~= bytes@.take(8));
    let mut found = Chunks { size: None, idat: Vec::new() };
    let ghost whole = chunks(bytes@, 8, ChunksModel { size: None, idat: Seq::empty() });
    let mut i: usize = 8;
    assert(found.model() == (ChunksModel { size: None, idat: Seq::empty() }));
    loop
        invariant_except_break
            whole == chunks(bytes@, i as int, found.model()),
        invariant
            i <= total == bytes@.len(),
            total >= 8,
            bytes@.take(8) == SIGNATURE@,
            whole == chunks(bytes@, 8, ChunksModel { size: None, idat: Seq::empty() }),
        ensures
            whole == Some(found.model()),
        decreases total - i,
    {
        if total - i < 12 {
            return None;
        }
        let len: u32 = read_be32(bytes, i);
        if ((total - i - 12) as u64) < len as u64 {
            return None;
        }
        let end: usize = i + 8 + len as usize;
        // The CRC covers the type and the data but not the length field.
        let crc: u32 = crc_run(0xffff_ffff, bytes, i + 4, end);
        assert(bytes@.subrange(i + 4, end as int) =~= bytes@.subrange(i + 4, i + 8)
            + bytes@.subrange(i + 8, end as int));
        if read_be32(bytes, end) != !crc {
            return None;
        }
        if !found.take(bytes, i + 4, end) {
            return None;
        }
        let last = holds(bytes, i + 4, &IEND);
        i = end + 4;
        if last {
            break;
        }
    }
    let (width, height) = match found.size {
        Some(size) => size,
        None => {
            return None;
        },
    };
    let raw = match inflate_stored(found.idat.as_slice()) {
        Some(raw) => raw,
        None => {
            return None;
        },
    };
    let row: u64 = width as u64 * 4 + 1;
    assert(row * height <= 0x4_0000_0000 * 0x1_0000_0000) by (nonlinear_arith)
        requires
            row <= 0x4_0000_0000,
            height <= 0x1_0000_0000,
    ;
    if raw.len() as u128 != row as u128 * height as u128 {
        return None;
    }
    match strip_filters(&raw, width, height) {
        Some(out) => Some((width, height, out)),
        None => None,
    }
}

/// The rows without their filter bytes, or `None` if one is filtered.
fn strip_filters(raw: &Vec<u8>, width: u32, height: u32) -> (r: Option<Vec<u8>>)
    requires
        raw@.len() == (width * 4 + 1) * height,
    ensures
        match unfiltered(raw@, width as nat * 4, height as nat) {
            Some(data) => r matches Some(d) && d@ == data,
            None => r is None,
        },
{
    let total: usize = raw.len();
    let mut out: Vec<u8> = Vec::new();
    let ghost stride = width as nat * 4;
    let ghost whole = unfiltered(raw@, stride, height as nat);
    let mut y: u32 = 0;
    let mut at: usize = 0;
    assert(raw@.skip(0) =~= raw@);
    while y < height
        invariant
            y <= height,
            stride == width * 4,
            raw@.len() == (stride + 1) * height == total,
            at == (stride + 1) * y,
            whole == unfiltered(raw@, stride, height as nat),
            match unfiltered(raw@.skip(at as int), stride, (height - y) as nat) {
                Some(rest) => whole == Some(out@ + rest),
                None => whole is None,
            },
        decreases height - y,
    {
        assert((stride + 1) * (y + 1) <= (stride + 1) * height && (stride + 1) * (y + 1) == (stride
            + 1) * y + stride + 1) by (nonlinear_arith)
            requires
                y < height,
                stride >= 0,
        ;
        if raw[at] != 0 {
            return None;  // a filter this decoder does not undo
        }
        let ghost before = out@;
        let row: usize = width as usize * 4;
        push_all(&mut out, raw.as_slice(), at + 1, at + 1 + row);
        proof {
            let rest = raw@.skip(at as int);
            assert(rest.subrange(1, stride as int + 1) =~= raw@.subrange(at + 1, at + 1 + row));
            assert(rest.skip(stride as int + 1) =~= raw@.skip(at + stride + 1));
            if let Some(more) = unfiltered(
                raw@.skip(at + stride + 1),
                stride,
                (height - y - 1) as nat,
            ) {
                assert(before + (rest.subrange(1, stride as int + 1) + more) =~= out@ + more);
            }
        }
        at = at + 1 + row;
        y += 1;
    }
    assert(out@ + Seq::<u8>::empty() =~= out@);
    Some(out)
}

/// A chunk reads back as what was written, wherever it stands.
proof fn lemma_chunk_reads_back(s: Seq<u8>, i: int, kind: Seq<u8>, data: Seq<u8>, m: ChunksModel)
    requires
        0 <= i,
        kind.len() == 4,
        data.len() < 0x1_0000_0000,
        i + 12 + data.len() <= s.len(),
        s.subrange(i, i + 12 + data.len()) == chunk_of(kind, data),
    ensures
        chunks(s, i, m) == (match with_chunk(m, kind, data) {
            None => None,
            Some(next) => if kind == IEND@ {
                Some(next)
            } else {
                chunks(s, i + 12 + data.len(), next)
            },
        }),
{
    let c = s.subrange(i, i + 12 + data.len());
    let n = data.len() as int;
    let crc = crc_of(kind + data) as nat;
    lemma_be32(data.len());
    lemma_be32(crc);
    assert(forall|k: int| 0 <= k < 12 + n ==> s[i + k] == #[trigger] c[k]);
    assert(s[i] == c[0] && s[i + 1] == c[1] && s[i + 2] == c[2] && s[i + 3] == c[3]);
    let b = be32(data.len());
    assert(c[0] == b[0] && c[1] == b[1] && c[2] == b[2] && c[3] == b[3]);
    assert(from_be32(s, i) == n);
    assert(s.subrange(i + 4, i + 8) =~= c.subrange(4, 8));
    assert(c.subrange(4, 8) =~= kind);
    assert(s.subrange(i + 8, i + 8 + n) =~= c.subrange(8, 8 + n));
    assert(c.subrange(8, 8 + n) =~= data);
    let e = i + 8 + n;
    assert(s[e] == c[8 + n] && s[e + 1] == c[9 + n] && s[e + 2] == c[10 + n] && s[e + 3] == c[11
        + n]);
    assert(c[8 + n] == be32(crc)[0] && c[9 + n] == be32(crc)[1] && c[10 + n] == be32(crc)[2]
        && c[11 + n] == be32(crc)[3]);
    assert(from_be32(s, e) == crc);
}

/// Rows lose nothing to their filter bytes.
proof fn lemma_unfiltered(data: Seq<u8>, stride: nat, n: nat)
    requires
        data.len() == stride * n,
    ensures
        unfiltered(filtered(data, stride, n), stride, n) == Some(data),
        filtered(data, stride, n).len() == (stride + 1) * n,
    decreases n,
{
    if n == 0 {
        assert(data =~= Seq::<u8>::empty());
        assert((stride + 1) * 0 == 0);
    } else {
        let head = data.take(stride as int);
        let tail = data.skip(stride as int);
        assert(stride * n == stride + stride * (n - 1) && (stride + 1) * n == stride + 1 + (stride
            + 1) * (n - 1) && stride * (n - 1) >= 0) by (nonlinear_arith)
            requires
                n >= 1,
                stride >= 0,
        ;
        lemma_unfiltered(tail, stride, (n - 1) as nat);
        let raw = filtered(data, stride, n);
        assert(raw.subrange(1, stride as int + 1) =~= head);
        assert(raw.skip(stride as int + 1) =~= filtered(tail, stride, (n - 1) as nat));
        assert(head + tail =~= data);
    }
}

/// Where the three chunks of a file stand.
proof fn lemma_layout(width: u32, height: u32, data: Seq<u8>)
    ensures
        ({
            let s = png_of(width, height, data);
            let z = zlib_of(filtered(data, width as nat * 4, height as nat));
            let i2 = 45int + z.len();
            &&& s.len() == i2 + 12
            &&& s.take(8) == SIGNATURE@
            &&& s.subrange(8, 33) == chunk_of(IHDR@, header_of(width, height))
            &&& s.subrange(33, i2) == chunk_of(IDAT@, z)
            &&& s.subrange(i2, i2 + 12) == chunk_of(IEND@, Seq::empty())
        }),
{
    let s = png_of(width, height, data);
    let z = zlib_of(filtered(data, width as nat * 4, height as nat));
    let i2 = 45int + z.len();
    let a = chunk_of(IHDR@, header_of(width, height));
    let b = chunk_of(IDAT@, z);
    let c = chunk_of(IEND@, Seq::empty());
    assert(a.len() == 25 && b.len() == 12 + z.len() && c.len() == 12);
    assert(s == SIGNATURE@ + a + b + c);
    assert(s.take(8) =~= SIGNATURE@);
    assert(s.subrange(8, 33) =~= a);
    assert(s.subrange(33, i2) =~= b);
    assert(s.subrange(i2, i2 + 12) =~= c);
}

/// The header chunk gives the size.
proof fn lemma_header(width: u32, height: u32)
    ensures
        with_chunk(
            ChunksModel { size: None, idat: Seq::empty() },
            IHDR@,
            header_of(width, height),
        ) == Some(
            ChunksModel { size: Some((width as nat, height as nat)), idat: Seq::empty() },
        ),
{
    let header = header_of(width, height);
    lemma_be32(width as nat);
    lemma_be32(height as nat);
    assert(header.subrange(8, 13) =~= FORMAT@);
    assert(from_be32(header, 0) == from_be32(be32(width as nat), 0));
    assert(from_be32(header, 4) == from_be32(be32(height as nat), 0));
}

proof fn lemma_kinds_differ()
    ensures
        IHDR@ != IDAT@ && IHDR@ != IEND@ && IDAT@ != IEND@,
{
    assert(IHDR@[1] == 72 && IDAT@[1] == 68 && IEND@[1] == 69);
}

/// A header, one data chunk and the end read back as a size and the data.
proof fn lemma_three_chunks(s: Seq<u8>, width: u32, height: u32, z: Seq<u8>)
    requires
        z.len() < 0x1_0000_0000,
        s.len() == 57 + z.len(),
        s.subrange(8, 33) == chunk_of(IHDR@, header_of(width, height)),
        s.subrange(33, 45int + z.len()) == chunk_of(IDAT@, z),
        s.subrange(45int + z.len(), 57int + z.len()) == chunk_of(IEND@, Seq::empty()),
    ensures
        chunks(s, 8, ChunksModel { size: None, idat: Seq::empty() }) == Some(
            ChunksModel { size: Some((width as nat, height as nat)), idat: z },
        ),
{
    let header = header_of(width, height);
    let m0 = ChunksModel { size: None, idat: Seq::empty() };
    let m1 = ChunksModel { size: Some((width as nat, height as nat)), idat: Seq::empty() };
    let m2 = ChunksModel { idat: z, ..m1 };
    let i2 = 45int + z.len();
    lemma_kinds_differ();
    assert(chunks(s, 8, m0) == chunks(s, 33, m1)) by {
        lemma_chunk_reads_back(s, 8, IHDR@, header, m0);
        lemma_header(width, height);
    }
    assert(chunks(s, 33, m1) == chunks(s, i2, m2)) by {
        lemma_chunk_reads_back(s, 33, IDAT@, z, m1);
        assert(m1.idat + z =~= z);
    }
    assert(chunks(s, i2, m2) == Some(m2)) by {
        lemma_chunk_reads_back(s, i2, IEND@, Seq::empty(), m2);
    }
}

/// A picture survives the file: decoding what was encoded gives back its size
/// and every byte of it. A data chunk cannot be longer than its length field
/// can say.
pub proof fn decoding_undoes_encoding(width: u32, height: u32, data: Seq<u8>)
    requires
        data.len() == width * 4 * height,
        zlib_of(filtered(data, width as nat * 4, height as nat)).len() < 0x1_0000_0000,
    ensures
        decoded(png_of(width, height, data)) == Some((width as nat, height as nat, data)),
{
    let stride = width as nat * 4;
    let raw = filtered(data, stride, height as nat);
    let s = png_of(width, height, data);
    lemma_layout(width, height, data);
    lemma_three_chunks(s, width, height, zlib_of(raw));
    inflating_undoes_storing(raw);
    assert(data.len() == stride * height);
    lemma_unfiltered(data, stride, height as nat);
}

/// The register takes another value for another value before.
proof fn lemma_crc_bit(a: u32, b: u32)
    requires
        a != b,
    ensures
        crc_bit(a) != crc_bit(b),
{
    let x = crc_bit(a);
    let y = crc_bit(b);
    let p = if a & 1 == 1 {
        0xedb8_8320u32
    } else {
        0u32
    };
    let q = if b & 1 == 1 {
        0xedb8_8320u32
    } else {
        0u32
    };
    assert((a >> 1) ^ p != (b >> 1) ^ q) by (bit_vector)
        requires
            a != b,
            p == (if a & 1 == 1 { 0xedb8_8320u32 } else { 0u32 }),
            q == (if b & 1 == 1 { 0xedb8_8320u32 } else { 0u32 }),
    ;
}

proof fn lemma_crc_bits(a: u32, b: u32, n: nat)
    requires
        a != b,
    ensures
        crc_bits(a, n) != crc_bits(b, n),
    decreases n,
{
    if n > 0 {
        lemma_crc_bits(a, b, (n - 1) as nat);
        lemma_crc_bit(crc_bits(a, (n - 1) as nat), crc_bits(b, (n - 1) as nat));
    }
}

/// Whether two sequences differ in exactly one place.
pub open spec fn differ_at(a: Seq<u8>, b: Seq<u8>, k: int) -> bool {
    &&& a.len() == b.len()
    &&& 0 <= k < a.len()
    &&& a[k] != b[k]
    &&& forall|i: int| 0 <= i < a.len() && i != k ==> a[i] == b[i]
}

/// The CRC tells apart any two inputs that differ in exactly one byte.
pub proof fn the_crc_sees_a_changed_byte(a: Seq<u8>, b: Seq<u8>, k: int)
    requires
        differ_at(a, b, k),
    ensures
        crc_of(a) != crc_of(b),
{
    lemma_crc_update(a, b, k);
    let x = crc_update(0xffff_ffff, a);
    let y = crc_update(0xffff_ffff, b);
    assert(!x != !y) by (bit_vector)
        requires
            x != y,
    ;
}

proof fn lemma_crc_update(a: Seq<u8>, b: Seq<u8>, k: int)
    requires
        differ_at(a, b, k),
    ensures
        crc_update(0xffff_ffff, a) != crc_update(0xffff_ffff, b),
    decreases a.len(),
{
    let x = crc_update(0xffff_ffff, a.drop_last());
    let y = crc_update(0xffff_ffff, b.drop_last());
    let u = a.last() as u32;
    let v = b.last() as u32;
    if k == a.len() - 1 {
        assert(a.drop_last() =~= b.drop_last());
        assert(x ^ u != x ^ v) by (bit_vector)
            requires
                u != v,
        ;
        lemma_crc_bits(x ^ u, x ^ v, 8);
    } else {
        assert(differ_at(a.drop_last(), b.drop_last(), k));
        lemma_crc_update(a.drop_last(), b.drop_last(), k);
        assert(u == v);
        assert(x ^ u != y ^ u) by (bit_vector)
            requires
                x != y,
        ;
        lemma_crc_bits(x ^ u, y ^ u, 8);
    }
}

/// A chunk with one byte changed behind its length field is rejected.
proof fn lemma_changed_chunk(
    s: Seq<u8>,
    t: Seq<u8>,
    i: int,
    k: int,
    kind: Seq<u8>,
    data: Seq<u8>,
    m: ChunksModel,
)
    requires
        0 <= i,
        kind.len() == 4,
        data.len() < 0x1_0000_0000,
        i + 12 + data.len() <= s.len(),
        s.subrange(i, i + 12 + data.len()) == chunk_of(kind, data),
        differ_at(s, t, k),
        i + 4 <= k < i + 12 + data.len(),
    ensures
        chunks(t, i, m) is None,
{
    let c = chunk_of(kind, data);
    let n = data.len() as int;
    let crc = crc_of(kind + data) as nat;
    lemma_be32(data.len());
    lemma_be32(crc);
    assert(forall|j: int| 0 <= j < 12 + n ==> s[i + j] == #[trigger] c[j]) by {
        assert(forall|j: int|
            0 <= j < 12 + n ==> s[i + j] == #[trigger] s.subrange(i, i + 12 + n)[j]);
    }
    let b = be32(data.len());
    assert(c[0] == b[0] && c[1] == b[1] && c[2] == b[2] && c[3] == b[3]);
    assert(t[i] == s[i] && t[i + 1] == s[i + 1] && t[i + 2] == s[i + 2] && t[i + 3] == s[i + 3]);
    assert(s[i] == c[0] && s[i + 1] == c[1] && s[i + 2] == c[2] && s[i + 3] == c[3]);
    assert(from_be32(t, i) == n);
    let e = i + 8 + n;
    let read = t.subrange(i + 4, i + 8) + t.subrange(i + 8, e);
    assert(kind + data =~= s.subrange(i + 4, e)) by {
        assert forall|j: int| 0 <= j < 4 + n implies (kind + data)[j] == s.subrange(i + 4, e)[j] by {
            assert(c[4 + j] == (kind + data)[j]);
            assert(s[i + (4 + j)] == c[4 + j]);
        }
    }
    assert(read =~= t.subrange(i + 4, e));
    assert(s[e] == c[8 + n] && s[e + 1] == c[9 + n] && s[e + 2] == c[10 + n] && s[e + 3] == c[11
        + n]) by {
        assert(s[i + (8 + n)] == c[8 + n] && s[i + (9 + n)] == c[9 + n] && s[i + (10 + n)] == c[10
            + n] && s[i + (11 + n)] == c[11 + n]);
    }
    assert(c[8 + n] == be32(crc)[0] && c[9 + n] == be32(crc)[1] && c[10 + n] == be32(crc)[2]
        && c[11 + n] == be32(crc)[3]);
    assert(from_be32(s, e) == crc);
    if k < e {
        assert(differ_at(kind + data, read, k - i - 4)) by {
            assert(s.subrange(i + 4, e)[k - i - 4] == s[k]);
            assert(t.subrange(i + 4, e)[k - i - 4] == t[k]);
        }
        the_crc_sees_a_changed_byte(kind + data, read, k - i - 4);
        assert(from_be32(t, e) == from_be32(s, e));
    } else {
        assert(read =~= kind + data);
        assert(from_be32(t, e) != from_be32(s, e));
    }
}

/// A file with one byte changed is not read through.
proof fn lemma_changed_file(
    s: Seq<u8>,
    bad: Seq<u8>,
    k: int,
    width: u32,
    height: u32,
    z: Seq<u8>,
)
    requires
        z.len() < 0x1_0000_0000,
        s.len() == 57 + z.len(),
        s.subrange(8, 33) == chunk_of(IHDR@, header_of(width, height)),
        s.subrange(33, 45int + z.len()) == chunk_of(IDAT@, z),
        s.subrange(45int + z.len(), 57int + z.len()) == chunk_of(IEND@, Seq::empty()),
        differ_at(s, bad, k),
        12 <= k,
        !(33 <= k < 37) && !(45 + z.len() <= k < 49 + z.len()),
    ensures
        chunks(bad, 8, ChunksModel { size: None, idat: Seq::empty() }) is None,
{
    let header = header_of(width, height);
    let m0 = ChunksModel { size: None, idat: Seq::empty() };
    let m1 = ChunksModel { size: Some((width as nat, height as nat)), idat: Seq::empty() };
    let m2 = ChunksModel { idat: z, ..m1 };
    let i2 = 45int + z.len();
    lemma_kinds_differ();
    if k < 33 {
        lemma_changed_chunk(s, bad, 8, k, IHDR@, header, m0);
    } else {
        assert(chunks(bad, 8, m0) == chunks(bad, 33, m1)) by {
            assert(bad.subrange(8, 33) =~= s.subrange(8, 33));
            lemma_chunk_reads_back(bad, 8, IHDR@, header, m0);
            lemma_header(width, height);
        }
        if k < i2 {
            lemma_changed_chunk(s, bad, 33, k, IDAT@, z, m1);
        } else {
            assert(chunks(bad, 33, m1) == chunks(bad, i2, m2)) by {
                assert(bad.subrange(33, i2) =~= s.subrange(33, i2));
                lemma_chunk_reads_back(bad, 33, IDAT@, z, m1);
                assert(m1.idat + z =~= z);
            }
            lemma_changed_chunk(s, bad, i2, k, IEND@, Seq::empty(), m2);
        }
    }
}

/// A file with any one byte changed, outside the fields that say how long its
/// chunks are, is rejected.
pub proof fn a_changed_byte_is_rejected(
    width: u32,
    height: u32,
    data: Seq<u8>,
    bad: Seq<u8>,
    k: int,
)
    requires
        data.len() == width * 4 * height,
        zlib_of(filtered(data, width as nat * 4, height as nat)).len() < 0x1_0000_0000,
        differ_at(png_of(width, height, data), bad, k),
        !(8 <= k < 12) && !(33 <= k < 37) && !(bad.len() - 12 <= k < bad.len() - 8),
    ensures
        decoded(bad) is None,
{
    let s = png_of(width, height, data);
    let z = zlib_of(filtered(data, width as nat * 4, height as nat));
    lemma_layout(width, height, data);
    if k < 8 {
        assert(s.take(8)[k] == s[k] && bad.take(8)[k] == bad[k]);
    } else {
        lemma_changed_file(s, bad, k, width, height, z);
    }
}

/// Data chunks with these payloads, one after the other.
pub open spec fn data_chunks(parts: Seq<Seq<u8>>) -> Seq<u8>
    decreases parts.len(),
{
    if parts.len() == 0 {
        Seq::empty()
    } else {
        chunk_of(IDAT@, parts[0]) + data_chunks(parts.skip(1))
    }
}

/// The payloads put together.
pub open spec fn payload(parts: Seq<Seq<u8>>) -> Seq<u8>
    decreases parts.len(),
{
    if parts.len() == 0 {
        Seq::empty()
    } else {
        parts[0] + payload(parts.skip(1))
    }
}

/// A file whose data is split over chunks with these payloads.
pub open spec fn split_png(width: u32, height: u32, parts: Seq<Seq<u8>>) -> Seq<u8> {
    SIGNATURE@ + chunk_of(IHDR@, header_of(width, height)) + data_chunks(parts) + chunk_of(
        IEND@,
        Seq::empty(),
    )
}

/// Data chunks put their payloads together.
proof fn lemma_data_chunks(s: Seq<u8>, i: int, parts: Seq<Seq<u8>>, m: ChunksModel)
    requires
        0 <= i,
        i + data_chunks(parts).len() <= s.len(),
        s.subrange(i, i + data_chunks(parts).len()) == data_chunks(parts),
        forall|k: int| 0 <= k < parts.len() ==> (#[trigger] parts[k]).len() < 0x1_0000_0000,
    ensures
        chunks(s, i, m) == chunks(
            s,
            i + data_chunks(parts).len(),
            ChunksModel { idat: m.idat + payload(parts), ..m },
        ),
    decreases parts.len(),
{
    lemma_kinds_differ();
    if parts.len() == 0 {
        assert(m.idat + payload(parts) =~= m.idat);
    } else {
        let all = data_chunks(parts);
        let first = chunk_of(IDAT@, parts[0]);
        let rest = parts.skip(1);
        let j = i + first.len();
        assert(first.len() == 12 + parts[0].len());
        assert(s.subrange(i, j) =~= first) by {
            assert(s.subrange(i, i + all.len()).take(first.len() as int) =~= s.subrange(i, j));
            assert(all.take(first.len() as int) =~= first);
        }
        lemma_chunk_reads_back(s, i, IDAT@, parts[0], m);
        let next = ChunksModel { idat: m.idat + parts[0], ..m };
        assert(s.subrange(j, j + data_chunks(rest).len()) =~= data_chunks(rest)) by {
            assert(s.subrange(i, i + all.len()).skip(first.len() as int) =~= s.subrange(
                j,
                i + all.len(),
            ));
            assert(all.skip(first.len() as int) =~= data_chunks(rest));
        }
        assert forall|k: int| 0 <= k < rest.len() implies (#[trigger] rest[k]).len()
            < 0x1_0000_0000 by {
            assert(rest[k] == parts[k + 1]);
        }
        lemma_data_chunks(s, j, rest, next);
        assert(next.idat + payload(rest) =~= m.idat + payload(parts));
    }
}

/// A header, data chunks and the end read back as a size and the data.
proof fn lemma_split_chunks(t: Seq<u8>, width: u32, height: u32, parts: Seq<Seq<u8>>)
    requires
        t.len() == 45 + data_chunks(parts).len(),
        t.subrange(8, 33) == chunk_of(IHDR@, header_of(width, height)),
        t.subrange(33, 33int + data_chunks(parts).len()) == data_chunks(parts),
        t.subrange(33int + data_chunks(parts).len(), t.len() as int) == chunk_of(
            IEND@,
            Seq::empty(),
        ),
        forall|k: int| 0 <= k < parts.len() ==> (#[trigger] parts[k]).len() < 0x1_0000_0000,
    ensures
        chunks(t, 8, ChunksModel { size: None, idat: Seq::empty() }) == Some(
            ChunksModel { size: Some((width as nat, height as nat)), idat: payload(parts) },
        ),
{
    let m0 = ChunksModel { size: None, idat: Seq::empty() };
    let m1 = ChunksModel { size: Some((width as nat, height as nat)), idat: Seq::empty() };
    let m2 = ChunksModel { idat: payload(parts), ..m1 };
    let j = 33int + data_chunks(parts).len();
    lemma_kinds_differ();
    assert(chunks(t, 8, m0) == chunks(t, 33, m1)) by {
        lemma_chunk_reads_back(t, 8, IHDR@, header_of(width, height), m0);
        lemma_header(width, height);
    }
    assert(chunks(t, 33, m1) == chunks(t, j, m2)) by {
        lemma_data_chunks(t, 33, parts, m1);
        assert(m1.idat + payload(parts) =~= payload(parts));
    }
    assert(chunks(t, j, m2) == Some(m2)) by {
        lemma_chunk_reads_back(t, j, IEND@, Seq::empty(), m2);
    }
}

/// Where the chunks of a split file stand.
proof fn lemma_split_layout(width: u32, height: u32, parts: Seq<Seq<u8>>)
    ensures
        ({
            let t = split_png(width, height, parts);
            let j = 33int + data_chunks(parts).len();
            &&& t.len() == j + 12
            &&& t.take(8) == SIGNATURE@
            &&& t.subrange(8, 33) == chunk_of(IHDR@, header_of(width, height))
            &&& t.subrange(33, j) == data_chunks(parts)
            &&& t.subrange(j, j + 12) == chunk_of(IEND@, Seq::empty())
        }),
{
    let t = split_png(width, height, parts);
    let a = chunk_of(IHDR@, header_of(width, height));
    let b = data_chunks(parts);
    let c = chunk_of(IEND@, Seq::empty());
    let j = 33int + b.len();
    assert(a.len() == 25 && c.len() == 12);
    assert(t == SIGNATURE@ + a + b + c);
    assert(t.take(8) =~= SIGNATURE@);
    assert(t.subrange(8, 33) =~= a);
    assert(t.subrange(33, j) =~= b);
    assert(t.subrange(j, j + 12) =~= c);
}

/// Splitting the data over any number of chunks changes nothing, wherever the
/// splits fall.
pub proof fn splitting_the_data_changes_nothing(
    width: u32,
    height: u32,
    data: Seq<u8>,
    parts: Seq<Seq<u8>>,
)
    requires
        data.len() == width * 4 * height,
        zlib_of(filtered(data, width as nat * 4, height as nat)).len() < 0x1_0000_0000,
        payload(parts) == zlib_of(filtered(data, width as nat * 4, height as nat)),
        forall|k: int| 0 <= k < parts.len() ==> (#[trigger] parts[k]).len() < 0x1_0000_0000,
    ensures
        decoded(split_png(width, height, parts)) == decoded(png_of(width, height, data)),
{
    let z = zlib_of(filtered(data, width as nat * 4, height as nat));
    let s = png_of(width, height, data);
    let t = split_png(width, height, parts);
    let m0 = ChunksModel { size: None, idat: Seq::empty() };
    assert(chunks(s, 8, m0) == chunks(t, 8, m0)) by {
        lemma_layout(width, height, data);
        lemma_three_chunks(s, width, height, z);
        lemma_split_layout(width, height, parts);
        lemma_split_chunks(t, width, height, parts);
    }
    assert(s.len() >= 8 && s.take(8) == SIGNATURE@) by {
        lemma_layout(width, height, data);
    }
    assert(t.len() >= 8 && t.take(8) == SIGNATURE@) by {
        lemma_split_layout(width, height, parts);
    }
}

/// Every file begins with the bytes that PNG prescribes: the signature, and a
/// header of thirteen bytes with the size, most significant byte first, and eight
/// bits each of red, green, blue and alpha, neither filtered nor interlaced.
pub proof fn a_file_begins_as_png_prescribes(width: u32, height: u32, data: Seq<u8>)
    ensures
        png_of(width, height, data).len() > 37,
        png_of(width, height, data).take(16) == seq![
            137u8,
            80,
            78,
            71,
            13,
            10,
            26,
            10,
            0,
            0,
            0,
            13,
            73,
            72,
            68,
            82,
        ],
        ({
            let b = png_of(width, height, data);
            &&& b[16] * 0x100_0000 + b[17] * 0x1_0000 + b[18] * 0x100 + b[19] == width
            &&& b[20] * 0x100_0000 + b[21] * 0x1_0000 + b[22] * 0x100 + b[23] == height
        }),
        png_of(width, height, data).subrange(24, 29) == seq![8u8, 6, 0, 0, 0],
        png_of(width, height, data).subrange(37, 41) == seq![73u8, 68, 65, 84],
{
    let b = png_of(width, height, data);
    lemma_be32(width as nat);
    lemma_be32(height as nat);
    assert(b.take(16) =~= seq![
        137u8,
        80,
        78,
        71,
        13,
        10,
        26,
        10,
        0,
        0,
        0,
        13,
        73,
        72,
        68,
        82,
    ]);
    assert(b.subrange(24, 29) =~= seq![8u8, 6, 0, 0, 0]);
    assert(b.subrange(37, 41) =~= seq![73u8, 68, 65, 84]);
}

/// Every file ends with the same twelve bytes: an empty end chunk and its checksum.
pub proof fn a_file_ends_as_png_prescribes(width: u32, height: u32, data: Seq<u8>)
    ensures
        png_of(width, height, data).len() >= 12,
        png_of(width, height, data).skip(png_of(width, height, data).len() - 12) == seq![
            0u8,
            0,
            0,
            0,
            73,
            69,
            78,
            68,
            174,
            66,
            96,
            130,
        ],
{
    let b = png_of(width, height, data);
    let none = Seq::<u8>::empty();
    lemma_end_crc();
    assert(IEND@ + none =~= IEND@);
    assert(be32(0xae42_6082) =~= seq![174u8, 66, 96, 130]);
    assert(chunk_of(IEND@, none) =~= seq![0u8, 0, 0, 0, 73, 69, 78, 68, 174, 66, 96, 130]);
    assert(b.skip(b.len() - 12) =~= chunk_of(IEND@, none));
}

proof fn lemma_end_crc()
    ensures
        crc_of(IEND@) == 0xae42_6082,
{
    reveal_with_fuel(crc_bits, 9);
    let a = IEND@;
    let one = seq![73u8];
    let two = seq![73u8, 69];
    let three = seq![73u8, 69, 78];
    assert(one.drop_last() =~= Seq::<u8>::empty());
    assert(two.drop_last() =~= one);
    assert(three.drop_last() =~= two);
    assert(a.drop_last() =~= three);
    assert(crc_bit(crc_bit(crc_bit(crc_bit(crc_bit(crc_bit(crc_bit(crc_bit(0xffff_ffffu32 ^ (73u8 as u32)))))))))
        == 0x22fd_e946u32) by (bit_vector);
    assert(crc_bit(crc_bit(crc_bit(crc_bit(crc_bit(crc_bit(crc_bit(crc_bit(0x22fd_e946u32 ^ (69u8 as u32)))))))))
        == 0x992b_ac53u32) by (bit_vector);
    assert(crc_bit(crc_bit(crc_bit(crc_bit(crc_bit(crc_bit(crc_bit(crc_bit(0x992b_ac53u32 ^ (78u8 as u32)))))))))
        == 0x639f_4775u32) by (bit_vector);
    assert(crc_bit(crc_bit(crc_bit(crc_bit(crc_bit(crc_bit(crc_bit(crc_bit(0x639f_4775u32 ^ (68u8 as u32)))))))))
        == 0x51bd_9f7du32) by (bit_vector);
    assert(crc_update(0xffff_ffff, Seq::<u8>::empty()) == 0xffff_ffff);
    assert(crc_update(0xffff_ffff, one) == 0x22fd_e946u32);
    assert(crc_update(0xffff_ffff, two) == 0x992b_ac53u32);
    assert(crc_update(0xffff_ffff, three) == 0x639f_4775u32);
    assert(crc_update(0xffff_ffff, a) == 0x51bd_9f7du32);
    assert(!0x51bd_9f7du32 == 0xae42_6082u32) by (bit_vector);
}

/// A chunk is its length, its kind, its data and the checksum of kind and data.
pub proof fn a_chunk_is_length_kind_data_and_checksum(kind: Seq<u8>, data: Seq<u8>)
    requires
        kind.len() == 4,
        data.len() < 0x1_0000_0000,
    ensures
        ({
            let c = chunk_of(kind, data);
            let n = data.len() as int;
            &&& c.len() == n + 12
            &&& c[0] * 0x100_0000 + c[1] * 0x1_0000 + c[2] * 0x100 + c[3] == n
            &&& c.subrange(4, 8) == kind
            &&& c.subrange(8, 8 + n) == data
            &&& c[8 + n] * 0x100_0000 + c[9 + n] * 0x1_0000 + c[10 + n] * 0x100 + c[11 + n]
                == crc_of(kind + data)
        }),
{
    let c = chunk_of(kind, data);
    let n = data.len() as int;
    lemma_be32(data.len());
    lemma_be32(crc_of(kind + data) as nat);
    assert(c.subrange(4, 8) =~= kind);
    assert(c.subrange(8, 8 + n) =~= data);
}

/// The two halves of the checksum of a stream: the low one is one more than the sum
/// of the bytes, the high one the sum of all low ones on the way, each cut to what
/// is left over 65521.
pub proof fn the_stream_checksum_sums_twice(bytes: Seq<u8>, b: u8)
    ensures
        adler_of(Seq::empty()) == 1,
        adler_low(bytes.push(b)) == adler_low(bytes) + b,
        adler_high(bytes.push(b)) == adler_high(bytes) + adler_low(bytes) + b,
        adler_of(bytes) % 0x1_0000 == adler_low(bytes) % 65521,
        adler_of(bytes) / 0x1_0000 == adler_high(bytes) % 65521,
{
    assert(bytes.push(b).drop_last() =~= bytes);
    let high = adler_high(bytes) % 65521;
    let low = adler_low(bytes) % 65521;
    assert((high * 0x1_0000 + low) % 0x1_0000 == low);
    assert((high * 0x1_0000 + low) / 0x1_0000 == high);
}

/// A stream begins with the two bytes of an uncompressed zlib stream; data that fit
/// one block are one last block, with their length and its complement in front,
/// least significant byte first.
pub proof fn a_small_stream_is_one_block(data: Seq<u8>)
    requires
        data.len() <= 65535,
    ensures
        ({
            let z = zlib_of(data);
            let n = data.len() as int;
            &&& z.len() == n + 11
            &&& z[0] == 0x78 && z[1] == 0x01 && z[2] == 1
            &&& z[3] + 0x100 * z[4] == n
            &&& z[5] + 0x100 * z[6] == 65535 - n
            &&& z.subrange(7, 7 + n) == data
            &&& z[7 + n] * 0x100_0000 + z[8 + n] * 0x1_0000 + z[9 + n] * 0x100 + z[10 + n]
                == adler_of(data)
        }),
{
    let z = zlib_of(data);
    let n = data.len() as int;
    let check = be32(adler_of(data));
    lemma_adler_fits(data);
    lemma_be32(adler_of(data));
    let block = stored_block(true, data);
    lemma_stored_block(data);
    assert(stored_blocks(data) == block);
    assert(z == seq![0x78u8, 0x01u8] + block + check);
    assert(forall|k: int| 0 <= k < block.len() ==> z[k + 2] == #[trigger] block[k]);
    assert(z[2] == block[0] && z[3] == block[1] && z[4] == block[2] && z[5] == block[3] && z[6]
        == block[4]);
    assert(z.subrange(7, 7 + n) =~= block.subrange(5, 5 + n));
    assert(z[7 + n] == check[0] && z[8 + n] == check[1] && z[9 + n] == check[2] && z[10 + n]
        == check[3]);
}

proof fn lemma_adler_fits(data: Seq<u8>)
    ensures
        adler_of(data) < 0x1_0000_0000,
{
}

proof fn lemma_stored_block(data: Seq<u8>)
    requires
        data.len() <= 65535,
    ensures
        ({
            let b = stored_block(true, data);
            let n = data.len() as int;
            &&& b.len() == n + 5
            &&& b[0] == 1
            &&& b[1] + 0x100 * b[2] == n
            &&& b[3] + 0x100 * b[4] == 65535 - n
            &&& b.subrange(5, 5 + n) == data
        }),
{
    let b = stored_block(true, data);
    let n = data.len() as int;
    let low = le16(data.len());
    let high = le16((0xffff - data.len()) as nat);
    assert(low[0] + 0x100 * low[1] == n);
    assert(high[0] + 0x100 * high[1] == 65535 - n);
    assert(b[1] == low[0] && b[2] == low[1] && b[3] == high[0] && b[4] == high[1]);
    assert(b.subrange(5, 5 + n) =~= data);
}

/// Larger data are cut into full blocks of 65535 bytes before the last one.
pub proof fn a_large_stream_is_cut_into_full_blocks(data: Seq<u8>)
    requires
        data.len() > 65535,
    ensures
        ({
            let s = stored_blocks(data);
            &&& s[0] == 0 && s[1] == 255 && s[2] == 255 && s[3] == 0 && s[4] == 0
            &&& s.subrange(5, 65540) == data.take(65535)
            &&& s.skip(65540) == stored_blocks(data.skip(65535))
        }),
{
    let s = stored_blocks(data);
    assert(s.subrange(5, 65540) =~= data.take(65535));
    assert(s.skip(65540) =~= stored_blocks(data.skip(65535)));
}

/// Every row of pixels is led by the byte that says that it is not filtered.
pub proof fn rows_are_written_as_they_are(data: Seq<u8>, stride: nat, n: nat, y: nat, x: nat)
    requires
        data.len() == stride * n,
        y < n,
        x < stride,
    ensures
        filtered(data, stride, n).len() == (stride + 1) * n,
        filtered(data, stride, n)[((stride + 1) * y) as int] == 0,
        filtered(data, stride, n)[((stride + 1) * y + 1 + x) as int] == data[(stride * y
            + x) as int],
    decreases n,
{
    let rest = data.skip(stride as int);
    let m = (n - 1) as nat;
    assert(stride * n == stride * m + stride) by (nonlinear_arith)
        requires
            n == m + 1,
    ;
    assert((stride + 1) * n == (stride + 1) * m + stride + 1) by (nonlinear_arith)
        requires
            n == m + 1,
    ;
    let f = filtered(data, stride, n);
    let g = filtered(rest, stride, m);
    assert(f == seq![0u8] + data.take(stride as int) + g);
    if m > 0 {
        if y > 0 {
            let k = (y - 1) as nat;
            rows_are_written_as_they_are(rest, stride, m, k, x);
            assert((stride + 1) * y == (stride + 1) * k + stride + 1) by (nonlinear_arith)
                requires
                    y == k + 1,
            ;
            assert(stride * y == stride * k + stride) by (nonlinear_arith)
                requires
                    y == k + 1,
            ;
            assert(stride * k + x < stride * m) by (nonlinear_arith)
                requires
                    k + 1 <= m,
                    x < stride,
            ;
            assert((stride + 1) * k + 1 + x < (stride + 1) * m) by (nonlinear_arith)
                requires
                    k + 1 <= m,
                    x < stride,
            ;
            assert(0 <= (stride + 1) * k) by (nonlinear_arith);
            assert(0 <= stride * k) by (nonlinear_arith);
            assert(f[((stride + 1) * y) as int] == g[((stride + 1) * k) as int]);
            assert(f[((stride + 1) * y + 1 + x) as int] == g[((stride + 1) * k + 1 + x) as int]);
        } else {
            rows_are_written_as_they_are(rest, stride, m, 0, x);
        }
    } else {
        assert(y == 0);
        assert(g =~= Seq::<u8>::empty());
        assert((stride + 1) * m == 0) by (nonlinear_arith)
            requires
                m == 0,
        ;
    }
    if y == 0 {
        assert((stride + 1) * y == 0) by (nonlinear_arith)
            requires
                y == 0,
        ;
        assert(stride * y == 0) by (nonlinear_arith)
            requires
                y == 0,
        ;
    }
}

/// A chunk of another kind is read over.
pub proof fn an_unknown_chunk_is_read_over(m: ChunksModel, kind: Seq<u8>, data: Seq<u8>)
    requires
        kind != seq![73u8, 72, 68, 82],
        kind != seq![73u8, 68, 65, 84],
    ensures
        with_chunk(m, kind, data) == Some(m),
{
    assert(IHDR@ =~= seq![73u8, 72, 68, 82]);
    assert(IDAT@ =~= seq![73u8, 68, 65, 84]);
}

} // verus!
