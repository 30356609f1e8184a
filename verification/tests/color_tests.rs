use lighthouse::color::hex_to_hsl;
use lighthouse::color::hex_to_rgb;
use lighthouse::color::rgb_to_hsl;

#[test]
fn hex_decodes_bytes() {
    assert_eq!(hex_to_rgb("ff0000").unwrap(), vec![255, 0, 0]);
    assert_eq!(hex_to_rgb("00FF7f").unwrap(), vec![0, 255, 127]);
    assert_eq!(hex_to_rgb("").unwrap(), Vec::<u8>::new());
    // a lone trailing digit is its own value
    assert_eq!(hex_to_rgb("abc").unwrap(), vec![0xab, 0x0c]);
}

#[test]
fn hex_rejects_non_digits() {
    assert!(hex_to_rgb("zz0000").is_err());
    assert!(hex_to_rgb("ff 000").is_err());
}

#[test]
fn hsl_of_primaries() {
    // red: hue at the start of the circle, full saturation, half lightness
    assert_eq!(rgb_to_hsl(255, 0, 0), (0, 254, 127));
    // green: a third around the circle
    assert_eq!(rgb_to_hsl(0, 255, 0), (21845, 254, 127));
    // blue: two thirds around
    assert_eq!(rgb_to_hsl(0, 0, 255), (43690, 254, 127));
    // white and black: no chroma
    assert_eq!(rgb_to_hsl(255, 255, 255), (0, 0, 254));
    assert_eq!(rgb_to_hsl(0, 0, 0), (0, 0, 0));
    // a grey: lightness only
    assert_eq!(rgb_to_hsl(128, 128, 128), (0, 0, 127));
}

#[test]
fn hex_to_hsl_reads_first_three_bytes() {
    assert_eq!(hex_to_hsl("ff0000").unwrap(), (0, 254, 127));
    assert_eq!(hex_to_hsl("0000ff").unwrap(), (43690, 254, 127));
}

#[test]
fn hex_to_hsl_needs_three_bytes() {
    assert!(hex_to_hsl("ff00").is_err());
    assert!(hex_to_hsl("nothex").is_err());
}
