use utils_rust::ascii::{decode, encode, parse_unicode, Error};

#[test]
fn test_decode() {
    let a = "测试".to_string();
    let b = "&#27979;&#35797;";
    let c = decode(b);
    assert_eq!(a, c)
}

#[test]
fn test_encode() {
    let a = "测试";
    let b = "&#27979;&#35797;".to_string();
    let c = encode(a);
    assert_eq!(b, c)
}

#[test]
fn test_parse_unicode() {
    assert_eq!(parse_unicode("128077"), Ok('👍'));
}

#[test]
fn round_trip_ascii() {
    let t = "Hello, world!";
    assert_eq!(decode(&encode(t)), t);
}

#[test]
fn round_trip_mixed_unicode() {
    let t = "naïve 测试 👍 ;&#";
    assert_eq!(decode(&encode(t)), t);
}

#[test]
fn encode_empty() {
    assert_eq!(encode(""), "");
}

#[test]
fn encode_single_ascii() {
    assert_eq!(encode("A"), "&#65;");
}

#[test]
fn encode_tokens_in_order() {
    assert_eq!(encode("AB"), "&#65;&#66;");
}

#[test]
fn decode_malformed_token_is_empty() {
    assert_eq!(decode("&#notanumber;"), "");
}

#[test]
fn decode_out_of_range_value_is_empty() {
    assert_eq!(decode("&#4294967295;"), "");
}

#[test]
fn decode_overflowing_value_is_empty() {
    assert_eq!(decode("&#4294967296;"), "");
}

#[test]
fn decode_surrogate_is_empty() {
    assert_eq!(decode("&#55296;"), "");
}

#[test]
fn decode_empty() {
    assert_eq!(decode(""), "");
}

#[test]
fn decode_lone_delimiter() {
    assert_eq!(decode(";"), "");
}

#[test]
fn decode_trailing_delimiter() {
    assert_eq!(decode("&#65;"), "A");
    assert_eq!(decode("&#65;;"), "A");
}

#[test]
fn decode_keeps_good_tokens_among_bad() {
    assert_eq!(decode("&#65;&#bad;&#66;"), "AB");
}

#[test]
fn decode_strips_marker_anywhere_in_token() {
    assert_eq!(decode("6&#5;"), "A");
    assert_eq!(decode("&#6&#5;"), "A");
    assert_eq!(decode("65;"), "A");
}

#[test]
fn decode_accepts_leading_zeros() {
    assert_eq!(decode("&#065;"), "A");
}

#[test]
fn encode_twice_is_not_identity() {
    let once = encode("A");
    let twice = encode(&once);
    assert_ne!(twice, "A");
    assert_eq!(twice, "&#38;&#35;&#54;&#53;&#59;");
    assert_eq!(decode(&twice), once);
}

#[test]
fn parse_unicode_rejects_non_digits() {
    assert_eq!(parse_unicode("notanumber"), Err(Error::Int));
    assert_eq!(parse_unicode(""), Err(Error::Int));
    assert_eq!(parse_unicode("+65"), Err(Error::Int));
}

#[test]
fn parse_unicode_rejects_overflow() {
    assert_eq!(parse_unicode("4294967296"), Err(Error::Int));
}

#[test]
fn parse_unicode_rejects_non_scalar_values() {
    assert_eq!(parse_unicode("4294967295"), Err(Error::Unicode(4294967295)));
    assert_eq!(parse_unicode("55296"), Err(Error::Unicode(55296)));
}

#[test]
fn parse_unicode_accepts_max_scalar() {
    assert_eq!(parse_unicode("1114111"), Ok('\u{10FFFF}'));
    assert_eq!(parse_unicode("1114112"), Err(Error::Unicode(1114112)));
}
