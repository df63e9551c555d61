use tikv_dst::number::{decode_u16_le, decode_u32_le, encode_i64_le, try_decode_var_u64};
use tikv_dst::text::{
    append_decimal, append_signed_decimal, chars_compare, chars_of, field_at, parse_i32_at,
    rfind_at, string_of,
};

fn parse(s: &str) -> Option<i32> {
    let chars = chars_of(s);
    parse_i32_at(&chars, 0, chars.len())
}

#[test]
fn numbers_are_written_and_read_in_decimal() {
    for n in [0, 7, 10, -1, 2_147_483_647, -2_147_483_648] {
        let mut out = String::from("<");
        append_signed_decimal(&mut out, n);
        assert_eq!(out, format!("<{}", n));
        assert_eq!(parse(&out[1..]), Some(n));
    }
    let mut out = String::new();
    append_decimal(&mut out, u64::MAX);
    assert_eq!(out, "18446744073709551615");
    assert_eq!(parse("+12"), Some(12));
    assert_eq!(parse("-0"), Some(0));
    assert_eq!(parse("0012"), Some(12));
    for bad in ["", "-", "+", "1-", "--1", "1 ", " 1", "2147483648", "-2147483649", "99999999999999999999", "1a"] {
        assert_eq!(parse(bad), None, "{:?}", bad);
        assert_eq!(bad.parse::<i32>().ok(), None, "{:?}", bad);
    }
}

#[test]
fn fields_lie_between_separators() {
    let chars = chars_of("ab:c::d");
    let field = |n| field_at(&chars, 0, ':', n).map(|(a, b)| string_of(&chars, a, b));
    assert_eq!(field(0).as_deref(), Some("ab"));
    assert_eq!(field(1).as_deref(), Some("c"));
    assert_eq!(field(2).as_deref(), Some(""));
    assert_eq!(field(3).as_deref(), Some("d"));
    assert_eq!(field(4), None);
    assert_eq!(rfind_at(&chars, ':', 0, 7), Some(5));
    assert_eq!(rfind_at(&chars, ':', 3, 4), None);
}

#[test]
fn texts_are_ordered_by_their_characters() {
    let cases = ["", "a", "ab", "b", "\u{e9}", "\u{1f600}"];
    for (i, a) in cases.iter().enumerate() {
        for (j, b) in cases.iter().enumerate() {
            assert_eq!(chars_compare(&chars_of(a), &chars_of(b)), (i < j, i == j));
            assert_eq!(a < b, i < j);
        }
    }
}

#[test]
fn integers_are_little_endian() {
    assert_eq!(decode_u16_le(&[0x34, 0x12, 9]), 0x1234);
    assert_eq!(decode_u32_le(&[0x78, 0x56, 0x34, 0x12]), 0x1234_5678);
    for x in [0, 1, -1, i64::MIN, i64::MAX, 0x0123_4567_89ab_cdef] {
        assert_eq!(encode_i64_le(x), x.to_le_bytes());
    }
}

#[test]
fn variable_length_integers_are_decoded() {
    assert_eq!(try_decode_var_u64(&[5, 9]), Some((5, 1)));
    assert_eq!(try_decode_var_u64(&[0xac, 0x02]), Some((300, 2)));
    assert_eq!(try_decode_var_u64(&[0x80]), None);
    assert_eq!(try_decode_var_u64(&[]), None);
    let max = [0xff, 0xff, 0xff, 0xff, 0xff, 0xff, 0xff, 0xff, 0xff, 0x01];
    assert_eq!(try_decode_var_u64(&max), Some((u64::MAX, 10)));
}
