use p2p_rtc::munch_u64;
use p2p_rtc::text::{parse_u64_str, push_decimal, split_first_word, str_eq, trim};

#[test]
fn munch_reads_leading_number_and_trims_rest() {
    assert_eq!(munch_u64("42 rest  "), Ok((42, "rest")));
    assert_eq!(munch_u64("12"), Ok((12, "")));
    assert_eq!(munch_u64("7    spaced   out "), Ok((7, "spaced   out")));
}

#[test]
fn munch_accepts_plus_sign() {
    assert_eq!(munch_u64("+7 x"), Ok((7, "x")));
}

#[test]
fn munch_rejects_non_numbers() {
    assert_eq!(munch_u64("abc def"), Err(()));
    assert_eq!(munch_u64(""), Err(()));
    assert_eq!(munch_u64("+"), Err(()));
    assert_eq!(munch_u64("-1 x"), Err(()));
    assert_eq!(munch_u64(" 12 x"), Err(()));
    assert_eq!(munch_u64("5\t6"), Err(()));
    assert_eq!(munch_u64("1é 2"), Err(()));
}

#[test]
fn munch_u64_limits() {
    assert_eq!(munch_u64("18446744073709551615"), Ok((u64::MAX, "")));
    assert_eq!(munch_u64("18446744073709551616 x"), Err(()));
    assert_eq!(munch_u64("000123 a"), Ok((123, "a")));
}

#[test]
fn munch_keeps_unicode_rest() {
    assert_eq!(munch_u64("3 héllo wörld\u{3000}"), Ok((3, "héllo wörld")));
}

#[test]
fn parse_matches_std() {
    for s in ["0", "+0", "10", "99999", "+", "", "1 ", "x1", "18446744073709551615", "18446744073709551616", "١"] {
        assert_eq!(parse_u64_str(s), u64::from_str_radix(s, 10).ok(), "{}", s);
    }
}

#[test]
fn decimal_formatting() {
    for n in [0u64, 7, 10, 1234567890, u64::MAX] {
        let mut out = String::from("n=");
        push_decimal(&mut out, n);
        assert_eq!(out, format!("n={}", n));
    }
}

#[test]
fn decimal_round_trip() {
    for n in [0u64, 9, 10, 4242, u64::MAX] {
        let text = format!("{} tail", n);
        assert_eq!(munch_u64(&text), Ok((n, "tail")));
    }
}

#[test]
fn split_and_trim() {
    assert_eq!(split_first_word("#ID  5 "), ("#ID", "5"));
    assert_eq!(split_first_word("word"), ("word", ""));
    assert_eq!(split_first_word(""), ("", ""));
    assert_eq!(trim("\u{a0} x \n"), "x");
}

#[test]
fn string_equality() {
    assert!(str_eq("#OFFER", "#OFFER"));
    assert!(!str_eq("#OFFER", "#OFFE"));
    assert!(!str_eq("é", "e"));
}
