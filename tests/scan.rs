use float_scan::decimal::{FixedDecimal, CLIP_EXPONENT, FIXED_DECIMAL_DIGITS};
use float_scan::reader::Reader;
use float_scan::scale::split_scale;
use float_scan::special::{read_inf_or_nan, Special};
use float_scan::token::{read_token, Token};

fn scan(text: &str) -> Option<(Token, usize)> {
    read_token(Reader::from_str(text))
}

fn decimal_of(text: &str) -> (FixedDecimal, usize) {
    match scan(text) {
        Some((Token::Decimal(d), end)) => (d, end),
        Some((Token::Special(v), _)) => panic!("special value {:?} for {}", v, text),
        None => panic!("no token in {}", text),
    }
}

fn special_of(text: &str) -> (Special, usize) {
    match scan(text) {
        Some((Token::Special(v), end)) => (v, end),
        _ => panic!("no special value in {}", text),
    }
}

fn stored(d: &FixedDecimal) -> Vec<u8> {
    d.digits[..d.count].to_vec()
}

#[test]
fn pi() {
    let (d, end) = decimal_of("3.14159265");
    assert_eq!(stored(&d), vec![3, 1, 4, 1, 5, 9, 2, 6, 5]);
    assert_eq!(d.exponent, 0);
    assert!(!d.is_negative);
    assert_eq!(end, 10);
    assert_eq!(d.scale_exponent(), -8);
}

#[test]
fn exponent() {
    let (d, end) = decimal_of("-1234e10");
    assert_eq!(stored(&d), vec![1, 2, 3, 4]);
    assert_eq!(d.exponent, 13);
    assert!(d.is_negative);
    assert_eq!(end, 8);
    assert_eq!(d.scale_exponent(), 10);
}

#[test]
fn nan() {
    assert_eq!(special_of("nan"), (Special::NaN { is_negative: false }, 3));
}

#[test]
fn minus_nan() {
    assert_eq!(special_of("-nan"), (Special::NaN { is_negative: true }, 4));
}

#[test]
fn minus_nan_uppercase() {
    assert_eq!(special_of("-NaN"), (Special::NaN { is_negative: true }, 4));
}

#[test]
fn integer_to_terminator() {
    let text = b"1984\0";
    match read_token(Reader::from_raw_ptr(text)) {
        Some((Token::Decimal(d), end)) => {
            assert_eq!(stored(&d), vec![1, 9, 8, 4]);
            assert_eq!(d.exponent, 3);
            assert_eq!(d.scale_exponent(), 0);
            assert_eq!(end, 4);
            assert_eq!(text[end], 0);
        }
        _ => panic!("1984 not read"),
    }
}

#[test]
fn signed_fraction_with_exponent_stops_at_space() {
    let (d, end) = decimal_of("+123.45e-22 abc");
    assert_eq!(stored(&d), vec![1, 2, 3, 4, 5]);
    assert_eq!(d.exponent, 2 - 22);
    assert!(!d.is_negative);
    assert_eq!(end, 11);
    assert_eq!(d.scale_exponent(), -24);
}

#[test]
fn word_is_no_token() {
    assert!(scan("aboba").is_none());
    assert!(read_token(Reader::from_raw_ptr(b"aboba\0")).is_none());
}

#[test]
fn leading_point_in_the_middle_of_a_buffer() {
    let text = "AAA.99";
    assert!(scan(text).is_none());
    let (d, end) = decimal_of(&text[3..]);
    assert_eq!(stored(&d), vec![9, 9]);
    assert_eq!(d.exponent, -1);
    assert_eq!(end, 3);
    assert_eq!(d.scale_exponent(), -2);
}

#[test]
fn exponent_marker_without_digits_is_left() {
    let (d, end) = decimal_of("500e");
    assert_eq!(stored(&d), vec![5, 0, 0]);
    assert_eq!(d.exponent, 2);
    assert_eq!(end, 3);
    let (d, end) = decimal_of("500e+");
    assert_eq!(d.exponent, 2);
    assert_eq!(end, 3);
    let (d, end) = decimal_of("5E-3x");
    assert_eq!(d.exponent, -3);
    assert_eq!(end, 4);
}

#[test]
fn nan_in_any_case_and_sign() {
    assert_eq!(special_of("NAN"), (Special::NaN { is_negative: false }, 3));
    assert_eq!(special_of("+nAn!"), (Special::NaN { is_negative: false }, 4));
    assert!(scan("na").is_none());
}

#[test]
fn infinity_words() {
    assert_eq!(special_of("inf"), (Special::Infinity { is_negative: false }, 3));
    assert_eq!(special_of("-INF "), (Special::Infinity { is_negative: true }, 4));
    assert_eq!(special_of("Infinity"), (Special::Infinity { is_negative: false }, 8));
    assert_eq!(special_of("+infinityx"), (Special::Infinity { is_negative: false }, 9));
    assert!(scan("infi").is_none());
    assert!(scan("infinit").is_none());
    assert!(read_inf_or_nan(Reader::from_str("12")).is_none());
}

#[test]
fn digits_beyond_capacity_are_dropped() {
    let nines = "9".repeat(40);
    let (d, end) = decimal_of(&nines);
    assert_eq!(d.count, FIXED_DECIMAL_DIGITS);
    assert_eq!(stored(&d), vec![9; 34]);
    assert_eq!(d.exponent, 39);
    assert_eq!(end, 40);
    let fraction = format!("0.{}", "12345".repeat(8));
    let (d, end) = decimal_of(&fraction);
    assert_eq!(d.count, 34);
    assert_eq!(stored(&d)[30..], [1, 2, 3, 4]);
    assert_eq!(d.exponent, -1);
    assert_eq!(end, 42);
}

#[test]
fn large_exponents_are_clamped() {
    let (d, _) = decimal_of("1e400000");
    assert_eq!(d.exponent, 400000);
    let (d, _) = decimal_of("1e-400000");
    assert_eq!(d.exponent, -400000);
    let (d, end) = decimal_of("1e123456789012345678901234567890");
    assert_eq!(d.exponent, CLIP_EXPONENT);
    assert_eq!(end, 32);
    let (d, _) = decimal_of("12e-99999999");
    assert_eq!(d.exponent, 1 - CLIP_EXPONENT);
}

#[test]
fn leading_zeros_are_not_stored() {
    let (d, end) = decimal_of("00.0012");
    assert_eq!(stored(&d), vec![1, 2]);
    assert_eq!(d.exponent, -3);
    assert_eq!(end, 7);
    let (d, _) = decimal_of("0012.50");
    assert_eq!(stored(&d), vec![1, 2, 5, 0]);
    assert_eq!(d.exponent, 1);
    let (d, end) = decimal_of("-0.000");
    assert_eq!(d.count, 0);
    assert_eq!(d.exponent, -4);
    assert!(d.is_negative);
    assert_eq!(end, 6);
    let (d, _) = decimal_of("0");
    assert_eq!(d.count, 0);
    assert_eq!(d.exponent, -1);
}

#[test]
fn second_point_ends_the_numeral() {
    let (d, end) = decimal_of("1.2.3");
    assert_eq!(stored(&d), vec![1, 2]);
    assert_eq!(end, 3);
    let (d, end) = decimal_of("7.");
    assert_eq!(stored(&d), vec![7]);
    assert_eq!(end, 2);
    assert!(scan("..").is_none());
    assert!(scan(".").is_none());
    assert!(scan("-.e5").is_none());
    assert!(scan("+").is_none());
    assert!(scan("").is_none());
}

#[test]
fn rescan_starts_past_the_token() {
    let text = "12.5e3x1.2.3";
    let (_, end) = decimal_of(text);
    assert_eq!(end, 6);
    assert!(scan(&text[end..]).is_none());
    let (_, first) = decimal_of(&text[7..]);
    assert_eq!(first, 3);
    let (d, second) = decimal_of(&text[7 + first..]);
    assert_eq!(stored(&d), vec![3]);
    assert_eq!(d.exponent, -1);
    assert_eq!(second, 2);
}

#[test]
fn terminator_inside_the_buffer_ends_the_text() {
    match read_token(Reader::from_raw_ptr(b"12\x0034")) {
        Some((Token::Decimal(d), end)) => {
            assert_eq!(stored(&d), vec![1, 2]);
            assert_eq!(end, 2);
        }
        _ => panic!("12 not read"),
    }
}

#[test]
fn scale_splits_into_full_chunks_and_a_rest() {
    assert_eq!(split_scale(0), (0, 0));
    assert_eq!(split_scale(1), (0, 1));
    assert_eq!(split_scale(22), (0, 22));
    assert_eq!(split_scale(23), (1, 1));
    assert_eq!(split_scale(-44), (1, 22));
    assert_eq!(split_scale(-45), (2, 1));
    assert_eq!(split_scale(400000), (18181, 18));
    assert_eq!(split_scale(isize::MIN), ((isize::MAX as usize) / 22, (isize::MAX as usize) % 22 + 1));
}
