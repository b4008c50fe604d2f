use libheifer::geometry::{CleanAperture, Fraction};

fn clap(words: &[i64]) -> Vec<u8> {
    let mut out = Vec::new();
    for w in words {
        out.extend_from_slice(&(*w as u32).to_be_bytes());
    }
    out
}

fn fraction(f: &Fraction) -> (i64, i64) {
    (f.n, f.d)
}

#[test]
fn centred_aperture_crops_the_middle() {
    let c = CleanAperture::parse(&clap(&[100, 1, 50, 1, 0, 1, 0, 1])).unwrap();
    assert_eq!(c.dimensions(), (100, 50));
    assert_eq!(c.unclamped_crop(200, 100).unwrap(), (50, 149, 25, 74));
    assert_eq!(c.crop(200, 100).unwrap(), (50, 149, 25, 74));
}

#[test]
fn signed_offsets_move_the_aperture() {
    let c = CleanAperture::parse(&clap(&[100, 1, 50, 1, -20, 1, 10, 1])).unwrap();
    assert_eq!(fraction(&c.horizontal), (-20, 1));
    assert_eq!(c.crop(200, 100).unwrap(), (30, 129, 35, 84));
}

#[test]
fn fractional_sizes_round() {
    let c = CleanAperture::parse(&clap(&[101, 2, 51, 2, 0, 1, 0, 1])).unwrap();
    assert_eq!(c.dimensions(), (51, 26));
    assert_eq!(c.crop(200, 100).unwrap(), (74, 124, 37, 62));
}

#[test]
fn oversized_aperture_is_clamped_to_the_image() {
    let c = CleanAperture::parse(&clap(&[300, 1, 300, 1, 0, 1, 0, 1])).unwrap();
    assert_eq!(c.unclamped_crop(200, 100).unwrap(), (-50, 249, -99, 200));
    assert_eq!(c.crop(200, 100).unwrap(), (0, 199, 0, 99));
}

#[test]
fn aperture_outside_the_image_is_refused() {
    let c = CleanAperture::parse(&clap(&[100, 1, 50, 1, 1000, 1, 0, 1])).unwrap();
    assert_eq!(c.unclamped_crop(200, 100).unwrap(), (1050, 1149, 25, 74));
    let e = c.crop(200, 100).unwrap_err();
    assert_eq!((e.code, e.subcode), (2, 120));
    assert_eq!(e.message, "Invalid input: Invalid clean-aperture specification");
}

#[test]
fn zero_and_huge_images_are_refused() {
    let c = CleanAperture::parse(&clap(&[100, 1, 50, 1, 0, 1, 0, 1])).unwrap();
    let e = c.crop(0, 100).unwrap_err();
    assert_eq!(e.subcode, 120);
    assert!(e.message.ends_with("image with zero size"));
    let e = c.unclamped_crop(0x8000_0002, 100).unwrap_err();
    assert_eq!(e.subcode, 120);
    assert!(e.message.ends_with("larger than 2^31 pixels in any direction"));
}

#[test]
fn large_fractions_lose_precision_by_halving() {
    let c = CleanAperture::parse(&clap(&[3_000_000, 200_000, 50, 1, 0, 1, 0, 1])).unwrap();
    assert_eq!(fraction(&c.width), (46875, 3125));
    assert_eq!(c.dimensions(), (15, 50));
    assert_eq!(c.crop(200, 100).unwrap(), (92, 106, 25, 74));
}

#[test]
fn bad_fractions_are_refused() {
    let e = CleanAperture::parse(&clap(&[1, 0])).err().unwrap();
    assert_eq!((e.code, e.subcode), (2, 128));
    assert!(e.message.ends_with("Fraction with zero denominator"));
    let e = CleanAperture::parse(&clap(&[0x8000_0000, 1])).err().unwrap();
    assert!(e.message.ends_with("Fraction value exceeds the supported range"));
    let e = CleanAperture::parse(&[0, 0, 0, 5]).err().unwrap();
    assert_eq!(e.subcode, 128);
}

#[test]
fn fraction_arithmetic_halves_away_from_zero() {
    let big = Fraction::arithmetic(0x1_0000_0001, 3);
    assert_eq!(fraction(&big), (0x4000_0001, 1));
    let a = Fraction { n: 1, d: 2 };
    let b = Fraction { n: 1, d: 3 };
    assert_eq!(fraction(&a.add(b)), (5, 6));
    assert_eq!(fraction(&a.sub(b)), (1, 6));
    assert_eq!(fraction(&a.integer(2)), (5, 2));
    assert_eq!(fraction(&a.half()), (1, 4));
    assert_eq!(Fraction { n: -7, d: 2 }.trunc(), -3);
    assert_eq!(Fraction { n: 7, d: 2 }.round(), 4);
}
