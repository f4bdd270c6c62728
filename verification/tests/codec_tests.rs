use litsea::chartype::classify;
use litsea::decimal::{format_half, format_units, parse13, parse_label};
use litsea::numeric::{exp_fixed, half_ln_ratio, SCALE};

#[test]
fn test_classify() {
    assert_eq!(classify('あ'), "I"); // Hiragana
    assert_eq!(classify('漢'), "H"); // Kanji
    assert_eq!(classify('A'), "A"); // Latin
    assert_eq!(classify('1'), "N"); // Digit
    assert_eq!(classify('@'), "O"); // Other
    assert_eq!(classify('三'), "M"); // Kanji numeral
    assert_eq!(classify('ア'), "K"); // Katakana
}

#[test]
fn test_version() {
    assert_eq!(litsea::get_version(), "0.1.0");
}

#[test]
fn test_parse13() {
    // Values are in units of one ten-trillionth.
    assert_eq!(parse13("1"), Some(10_000_000_000_000));
    assert_eq!(parse13("-0.1262"), Some(-1_262_000_000_000));
    assert_eq!(parse13("100.0"), Some(1_000_000_000_000_000));
    assert_eq!(parse13("0.5"), Some(5_000_000_000_000));
    assert_eq!(parse13(".5"), Some(5_000_000_000_000));
    assert_eq!(parse13("5."), Some(50_000_000_000_000));
    assert_eq!(parse13(""), None);
    assert_eq!(parse13("."), None);
    assert_eq!(parse13("1.2.3"), None);
    assert_eq!(parse13("12a"), None);
    assert_eq!(parse13("900000000000000000"), None); // integer part over the cap
}

#[test]
fn test_format_and_parse_round_trip() {
    for v in [
        0i64,
        1,
        -1,
        SCALE,
        -SCALE,
        SCALE / 2,
        -1262 * (SCALE / 10_000),
        123_456_789_012_345,
    ] {
        let s = format_units(v);
        assert_eq!(parse13(&s), Some(10 * v as i128));
    }
}

#[test]
fn test_format_half() {
    // format_half prints half of its argument: an odd number of units
    // still round-trips exactly through the extra digit.
    assert_eq!(format_half(SCALE as i128), "0.5000000000000");
    let s = format_half(3);
    assert_eq!(parse13(&s), Some(15)); // 5 * 3 units at the finer scale
    let s2 = format_half(-(SCALE as i128) * 400);
    assert_eq!(parse13(&s2), Some(-(SCALE as i128) * 2000));
}

#[test]
fn test_parse_label() {
    assert_eq!(parse_label("1"), Some(1));
    assert_eq!(parse_label("-1"), Some(-1));
    assert_eq!(parse_label("+1"), Some(1));
    assert_eq!(parse_label("0"), Some(0));
    assert_eq!(parse_label("127"), Some(127));
    assert_eq!(parse_label("-128"), Some(-128));
    assert_eq!(parse_label("128"), None);
    assert_eq!(parse_label(""), None);
    assert_eq!(parse_label("1.0"), None);
    assert_eq!(parse_label("x"), None);
}

#[test]
fn test_numeric_identities() {
    // e^0 is one, and the log of an even split is zero.
    assert_eq!(exp_fixed(0), SCALE);
    assert_eq!(half_ln_ratio(SCALE / 2, SCALE / 2), 0);
    // 0.5 ln((3/4)/(1/4)) = 0.5 ln 3, about 0.5493.
    let a = half_ln_ratio(3 * (SCALE / 4), SCALE / 4);
    assert!(a > 549_000_000_000 && a < 550_000_000_000);
    // exp(1) is about 2.71828.
    let e = exp_fixed(SCALE as i128);
    assert!(e > 2_718_200_000_000 && e < 2_718_300_000_000);
    // Saturation keeps results within the documented band.
    assert!(exp_fixed(-1_000_000_000_000_000_000) >= 1);
}
