use dirkill::color::{hex_3_to_6, parse_hex, validate_chars, validate_hex_len, ColorError, Rgb};

#[test]
fn test_parse_hex() {
    assert_eq!(parse_hex("#fff"), Ok(Rgb { r: 255, g: 255, b: 255 }));
    assert_eq!(parse_hex("#000"), Ok(Rgb { r: 0, g: 0, b: 0 }));
    assert_eq!(parse_hex("#c19c00"), Ok(Rgb { r: 193, g: 156, b: 0 }));
}

#[test]
fn test_parse_hex_without_hash() {
    assert_eq!(parse_hex("c19c00"), Ok(Rgb { r: 193, g: 156, b: 0 }));
    assert_eq!(parse_hex("ffffff"), Ok(Rgb { r: 255, g: 255, b: 255 }));
}

#[test]
fn test_parse_hex_invalid_digit() {
    assert_eq!(parse_hex("xyz"), Err(ColorError::InvalidHex));
    assert_eq!(parse_hex("#12g"), Err(ColorError::InvalidHex));
}

#[test]
fn test_parse_hex_alpha_rejected() {
    assert_eq!(parse_hex("#abcd"), Err(ColorError::IncludesAlpha));
    assert_eq!(parse_hex("#aabbccdd"), Err(ColorError::IncludesAlpha));
}

#[test]
fn test_parse_hex_bad_length() {
    assert_eq!(parse_hex("#ab"), Err(ColorError::InvalidHexLength));
    assert_eq!(parse_hex("#abcde"), Err(ColorError::InvalidHexLength));
    assert_eq!(parse_hex(""), Err(ColorError::InvalidHexLength));
}

#[test]
fn test_validate_chars() {
    assert!(validate_chars("0123456789abcdefABCDEF").is_ok());
    assert_eq!(validate_chars("12 34"), Err(ColorError::InvalidHex));
}

#[test]
fn test_validate_hex_len() {
    assert!(validate_hex_len(3).is_ok());
    assert!(validate_hex_len(6).is_ok());
    assert_eq!(validate_hex_len(4), Err(ColorError::IncludesAlpha));
    assert_eq!(validate_hex_len(8), Err(ColorError::IncludesAlpha));
    assert_eq!(validate_hex_len(5), Err(ColorError::InvalidHexLength));
    assert_eq!(validate_hex_len(0), Err(ColorError::InvalidHexLength));
}

#[test]
fn test_hex_3_to_6() {
    assert_eq!(hex_3_to_6("abc"), "aabbcc".to_string());
    assert_eq!(hex_3_to_6(""), "".to_string());
}

#[test]
fn test_error_messages() {
    assert_eq!(ColorError::InvalidHex.message(), "Invalid hex provided");
    assert_eq!(
        ColorError::IncludesAlpha.message(),
        "Hex value includes alpha channel"
    );
    assert_eq!(
        ColorError::InvalidHexLength.message(),
        "Hex value must be 3 or 6 characters"
    );
    assert_eq!(ColorError::ParseError.message(), "Failed to parse hex value");
}
