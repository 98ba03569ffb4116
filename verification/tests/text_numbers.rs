use estimate_tree::text::i32_to_string;
use estimate_tree::text::parse_estimate;
use estimate_tree::text::parse_i32;
use estimate_tree::text::push_decimal;
use estimate_tree::text::push_signed_decimal;
use estimate_tree::text::str_eq;

#[test]
fn str_eq_compares_characters() {
    assert!(str_eq("", ""));
    assert!(str_eq("task-1", "task-1"));
    assert!(!str_eq("task-1", "task-2"));
    assert!(!str_eq("task-1", "task-10"));
    assert!(!str_eq("task-10", "task-1"));
    assert!(!str_eq("", "a"));
    assert!(str_eq("aufgabe-\u{e4}", "aufgabe-\u{e4}"));
    assert!(!str_eq("aufgabe-\u{e4}", "aufgabe-\u{f6}"));
}

#[test]
fn decimal_of_unsigned_numbers() {
    for n in [0u128, 1, 9, 10, 11, 99, 100, 101, 12345, u64::MAX as u128, u128::MAX] {
        let mut out = String::new();
        push_decimal(&mut out, n);
        assert_eq!(out, n.to_string());
    }
}

#[test]
fn decimal_is_appended_behind_what_is_there() {
    let mut out = "n=".to_string();
    push_decimal(&mut out, 407);
    assert_eq!(out, "n=407");
    push_signed_decimal(&mut out, -8);
    assert_eq!(out, "n=407-8");
}

#[test]
fn decimal_of_signed_numbers() {
    for v in [0, 1, -1, 7, -7, 10, -10, 16, 2147483647, -2147483647, i32::MIN, i32::MAX] {
        assert_eq!(i32_to_string(v), v.to_string());
    }
    assert_eq!(i32_to_string(i32::MIN), "-2147483648");
}

#[test]
fn parse_reads_plain_numerals() {
    assert_eq!(parse_i32("0"), Some(0));
    assert_eq!(parse_i32("7"), Some(7));
    assert_eq!(parse_i32("42"), Some(42));
    assert_eq!(parse_i32("2147483647"), Some(i32::MAX));
}

#[test]
fn parse_reads_signs() {
    assert_eq!(parse_i32("-1"), Some(-1));
    assert_eq!(parse_i32("+1"), Some(1));
    assert_eq!(parse_i32("-0"), Some(0));
    assert_eq!(parse_i32("+0"), Some(0));
    assert_eq!(parse_i32("-2147483648"), Some(i32::MIN));
    assert_eq!(parse_i32("+2147483647"), Some(i32::MAX));
}

#[test]
fn parse_accepts_leading_zeros() {
    assert_eq!(parse_i32("007"), Some(7));
    assert_eq!(parse_i32("-007"), Some(-7));
    assert_eq!(parse_i32("0000000000000000000000000000012"), Some(12));
}

#[test]
fn parse_rejects_values_out_of_range() {
    assert_eq!(parse_i32("2147483648"), None);
    assert_eq!(parse_i32("-2147483649"), None);
    assert_eq!(parse_i32("99999999999999999999999999"), None);
    assert_eq!(parse_i32("-99999999999999999999999999"), None);
}

#[test]
fn parse_rejects_what_is_no_numeral() {
    for text in ["", "+", "-", "--1", "+-1", "1-", "1 ", " 1", "1.5", "1e3", "0x10", "1_000", "abc", "\u{663}", "4\u{e9}", "-\u{e9}"] {
        assert_eq!(parse_i32(text), None);
    }
}

#[test]
fn parse_agrees_with_the_standard_parser() {
    let texts = [
        "", "0", "-0", "+0", "1", "-1", "+1", "12", "0012", "+0012", "-0012", "2147483647", "2147483648",
        "-2147483648", "-2147483649", "4294967296", "+", "-", "1+", "++1", " 5", "5 ", "five", "5five", "1.0",
        "١٢", "１２", "-", "9223372036854775808", "00000000000000000000002147483647",
    ];
    for text in texts {
        assert_eq!(parse_i32(text), text.parse::<i32>().ok());
        assert_eq!(parse_estimate(text), text.parse::<i32>().unwrap_or(0));
    }
}

#[test]
fn estimate_of_text_that_is_no_number_is_zero() {
    assert_eq!(parse_estimate("13"), 13);
    assert_eq!(parse_estimate("-13"), -13);
    assert_eq!(parse_estimate(""), 0);
    assert_eq!(parse_estimate("thirteen"), 0);
    assert_eq!(parse_estimate("13 days"), 0);
    assert_eq!(parse_estimate("3000000000"), 0);
}

#[test]
fn numerals_read_back() {
    for v in [0, 5, -5, 100, -100, 65536, i32::MAX, i32::MIN] {
        assert_eq!(parse_i32(i32_to_string(v).as_str()), Some(v));
    }
}

/// A small generator of pseudo-random numbers, the same on every run.
fn next_random(state: &mut u64) -> u64 {
    *state = state.wrapping_mul(6364136223846793005).wrapping_add(1442695040888963407);
    *state >> 33
}

#[test]
fn parse_agrees_with_the_standard_parser_on_many_texts() {
    let alphabet: Vec<char> = "+-0123456789 a".chars().collect();
    let mut state: u64 = 2024;
    for _ in 0..20000 {
        let len = (next_random(&mut state) % 13) as usize;
        let text: String = (0..len)
            .map(|_| alphabet[(next_random(&mut state) % alphabet.len() as u64) as usize])
            .collect();
        assert_eq!(parse_i32(text.as_str()), text.parse::<i32>().ok());
    }
}

#[test]
fn parse_agrees_with_the_standard_parser_near_the_limits() {
    for v in -2147483660i64..-2147483630 {
        let text = v.to_string();
        assert_eq!(parse_i32(text.as_str()), text.parse::<i32>().ok());
    }
    for v in 2147483630i64..2147483660 {
        let text = v.to_string();
        assert_eq!(parse_i32(text.as_str()), text.parse::<i32>().ok());
        let signed = format!("+{}", v);
        assert_eq!(parse_i32(signed.as_str()), signed.parse::<i32>().ok());
    }
}

#[test]
fn numerals_agree_with_the_standard_formatter_on_many_numbers() {
    let mut state: u64 = 7;
    for _ in 0..20000 {
        let v = ((next_random(&mut state) << 16) ^ next_random(&mut state)) as u32 as i32;
        assert_eq!(i32_to_string(v), v.to_string());
        assert_eq!(parse_i32(i32_to_string(v).as_str()), Some(v));
        let n = ((next_random(&mut state) as u128) << 64) | (next_random(&mut state) as u128);
        let mut out = String::new();
        push_decimal(&mut out, n);
        assert_eq!(out, n.to_string());
    }
}
