//! The PNG writer and reader.

use hane::raster::fill::Pixmap;
use hane::raster::png::{
    STORED_MAX, SIGNATURE, adler32, chunk, crc32, decode, encode, inflate_stored, zlib_stored,
};

/// A picture with something in it: a triangle of solid and half-covered pixels.
fn sample(w: u32, h: u32) -> Pixmap {
    let mut pm = Pixmap::new(w, h);
    for y in 0..h {
        for x in 0..w {
            if x * h + y * w < w * h {
                let a = if (x + y) % 3 == 0 { 128 } else { 255 };
                pm.set_pixel(x, y, [200, 40, 90, a]);
            }
        }
    }
    pm
}

fn roundtrip(pm: &Pixmap) {
    let png = encode(pm.width(), pm.height(), pm.data());
    let (w, h, data) = decode(&png).expect("decodes");
    assert_eq!((w, h), (pm.width(), pm.height()));
    assert_eq!(data, pm.data());
}

#[test]
fn round_trips() {
    roundtrip(&sample(9, 5));
}

/// More bytes than one stored block holds, so the multi-block path and its
/// final-block flag are exercised.
#[test]
fn round_trips_across_stored_blocks() {
    let pm = sample(200, 200);
    assert!(
        encode(pm.width(), pm.height(), pm.data()).len() > STORED_MAX,
        "should span several stored blocks"
    );
    roundtrip(&pm);
}

#[test]
fn round_trips_when_empty() {
    roundtrip(&Pixmap::new(0, 0));
}

#[test]
fn header_and_chunk_order() {
    let pm = sample(9, 5);
    let png = encode(pm.width(), pm.height(), pm.data());
    assert_eq!(png[..8], SIGNATURE);
    assert_eq!(&png[12..16], b"IHDR");
    assert_eq!(u32::from_be_bytes(png[16..20].try_into().unwrap()), 9);
    assert_eq!(u32::from_be_bytes(png[20..24].try_into().unwrap()), 5);
    assert_eq!(&png[png.len() - 8..png.len() - 4], b"IEND");
}

/// Known-good values from the CRC-32, Adler-32 and PNG specifications.
#[test]
fn checksums_match_the_specs() {
    assert_eq!(crc32(&[b"123456789"]), 0xcbf4_3926); // the standard CRC-32 check value
    assert_eq!(crc32(&[b"IEND"]), 0xae42_6082); // constant in every PNG ever written
    assert_eq!(crc32(&[b"1234", b"56789"]), crc32(&[b"123456789"]));
    assert_eq!(adler32(b"abc"), 0x024d_0127);
    assert_eq!(adler32(b""), 1);
}

#[test]
fn rejects_corruption() {
    let pm = sample(9, 5);
    let png = encode(pm.width(), pm.height(), pm.data());
    assert!(decode(&png[..png.len() - 4]).is_none(), "truncated");
    assert!(decode(&png[1..]).is_none(), "no signature");
    let mut flipped = png.clone();
    let last = flipped.len() - 10; // a pixel byte, inside IDAT
    flipped[last] ^= 0xff;
    assert!(decode(&flipped).is_none(), "flipped payload byte");
}

#[test]
fn stored_blocks_inflate_to_what_was_stored() {
    for n in [0, 1, STORED_MAX - 1, STORED_MAX, STORED_MAX + 1, 2 * STORED_MAX + 7] {
        let data: Vec<u8> = (0..n).map(|i| (i * 7 % 251) as u8).collect();
        assert_eq!(inflate_stored(&zlib_stored(&data)), Some(data), "{n} bytes");
    }
    // A compressed block, a preset dictionary and a header that fails its check.
    let z = zlib_stored(b"abc");
    let mut compressed = z.clone();
    compressed[2] |= 2;
    assert_eq!(inflate_stored(&compressed), None);
    assert_eq!(inflate_stored(&z[..1]), None);
    let mut header = z.clone();
    header[1] = 0x02;
    assert_eq!(inflate_stored(&header), None);
    let mut sum = z;
    let last = sum.len() - 1;
    sum[last] ^= 1;
    assert_eq!(inflate_stored(&sum), None);
}

#[test]
fn a_chunk_is_its_length_kind_data_and_checksum() {
    let mut out = vec![9u8];
    chunk(&mut out, b"IEND", &[]);
    assert_eq!(out, [9, 0, 0, 0, 0, b'I', b'E', b'N', b'D', 0xae, 0x42, 0x60, 0x82]);
}

#[test]
fn a_file_cut_off_before_its_end_is_rejected() {
    let png = encode(0, 0, &[]);
    assert_eq!(png.len(), 68);
    assert!(decode(&png).is_some());
    for n in 0..png.len() {
        assert_eq!(decode(&png[..n]), None, "{n} bytes");
    }
    let pm = sample(3, 2);
    let png = encode(3, 2, pm.data());
    for n in 0..png.len() {
        assert_eq!(decode(&png[..n]), None, "{n} bytes");
    }
}

#[test]
fn any_changed_byte_is_rejected() {
    let pm = sample(3, 2);
    let png = encode(3, 2, pm.data());
    let end = png.len() - 12;
    for k in (0..png.len()).filter(|k| !(8..12).contains(k) && !(33..37).contains(k)) {
        if (end..end + 4).contains(&k) {
            continue;
        }
        for bit in 0..8 {
            let mut bad = png.clone();
            bad[k] ^= 1 << bit;
            assert_eq!(decode(&bad), None, "byte {k}, bit {bit}");
        }
    }
}

#[test]
fn splitting_the_image_data_changes_nothing() {
    let pm = sample(5, 4);
    let png = encode(5, 4, pm.data());
    let payload = &png[41..png.len() - 16];
    for cuts in [vec![1], vec![3, 7], vec![0, 2, 2, 50]] {
        let mut split = png[..33].to_vec();
        let mut from = 0;
        for cut in cuts {
            chunk(&mut split, b"IDAT", &payload[from..cut]);
            from = cut;
        }
        chunk(&mut split, b"IDAT", &payload[from..]);
        split.extend_from_slice(&png[png.len() - 12..]);
        assert_eq!(decode(&split), decode(&png));
    }
}
