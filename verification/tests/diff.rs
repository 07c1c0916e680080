//! Comparing two pictures.

use hane::raster::diff::{image, stats};

/// The largest difference and the mean one, as a caller reports them.
fn summary(a: &[u8], b: &[u8]) -> (u8, f64) {
    let (max, sum) = stats(a, b);
    let mean = if a.is_empty() {
        0.0
    } else {
        sum as f64 / a.len() as f64
    };
    (max, mean)
}

#[test]
fn identical_buffers_are_zero() {
    let a = [12u8, 34, 56, 255, 0, 0, 0, 0];
    assert_eq!(summary(&a, &a), (0, 0.0));
}

/// One channel out by 4 over eight channels: max is the 4, mean is 0.5.
#[test]
fn max_and_mean_measure_different_things() {
    let a = [0u8; 8];
    let mut b = a;
    b[3] = 4;
    assert_eq!(summary(&a, &b), (4, 0.5));
    assert_eq!(stats(&a, &b), (4, 4));
}

#[test]
fn empty_buffers_do_not_divide_by_zero() {
    assert_eq!(summary(&[], &[]), (0, 0.0));
}

/// Matching pixels go grey and opaque; differing ones go red-to-yellow with
/// the red channel pinned, which is what makes a diff image scannable.
#[test]
fn diff_image_marks_only_the_differing_pixel() {
    let a = [255u8, 255, 255, 255, 255, 255, 255, 255];
    let b = [255u8, 255, 255, 255, 255, 255, 250, 255];
    let img = image(&a, &b);
    assert_eq!(img.len(), a.len());
    assert_eq!(img[0], img[1], "a matching pixel is grey");
    assert_eq!(img[3], 255, "the diff image is opaque");
    assert_eq!(&img[4..8], &[255, 255 - 40, 0, 255], "5 * 8 gain");
}

/// The gain saturates rather than wrapping, so a large difference stays red
/// instead of coming back round to yellow.
#[test]
fn diff_image_gain_saturates() {
    let img = image(&[0, 0, 0, 255], &[200, 0, 0, 255]);
    assert_eq!(&img[..4], &[255, 0, 0, 255]);
}

/// The grey of a matching pixel, against the same sum in floating point.
#[test]
fn a_matching_pixel_has_the_luma_of_its_colour() {
    for r in (0..=255u8).step_by(5) {
        for g in (0..=255u8).step_by(3) {
            for b in (0..=255u8).step_by(7) {
                let luma = 0.299 * f64::from(r) + 0.587 * f64::from(g) + 0.114 * f64::from(b);
                let want = (luma as u32 / 4 + 24) as u8;
                let img = image(&[r, g, b, 9], &[r, g, b, 9]);
                assert_eq!(img, [want, want, want, 255], "{r} {g} {b}");
            }
        }
    }
}
