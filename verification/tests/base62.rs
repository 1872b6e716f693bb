use zubolite::base62::dec_base62;

fn dec(s: &str) -> u32 {
    dec_base62(&s.to_string())
}

#[test]
fn dec_base62_single_digits() {
    assert_eq!(dec(""), 0);
    assert_eq!(dec("A"), 0);
    assert_eq!(dec("B"), 1);
    assert_eq!(dec("Z"), 25);
    assert_eq!(dec("a"), 26);
    assert_eq!(dec("z"), 51);
    assert_eq!(dec("0"), 52);
    assert_eq!(dec("9"), 61);
}

#[test]
fn dec_base62_least_significant_digit_first() {
    assert_eq!(dec("BA"), 1);
    assert_eq!(dec("AB"), 62);
    assert_eq!(dec("AAB"), 3844);
    assert_eq!(dec("AAAB"), 238328);
    assert_eq!(dec("9999"), 14776335);
    assert_eq!(dec("zzzz"), 51 * (1 + 62 + 3844 + 238328));
}

#[test]
fn dec_base62_other_bytes_count_as_zero() {
    assert_eq!(dec("?B"), 62);
    assert_eq!(dec("-"), 0);
    // one char of three UTF-8 bytes
    assert_eq!(dec("\u{3042}"), 0);
}

#[test]
fn dec_base62_long_input_is_zero() {
    assert_eq!(dec("BBBBB"), 0);
    assert_eq!(dec("99999"), 0);
    assert_eq!(dec("\u{3042}\u{3042}"), 0);
}

#[test]
fn dec_base62_injective_on_four_digits() {
    let digits = ["A", "B", "z", "0", "9"];
    let mut seen = std::collections::HashSet::new();
    for a in digits.iter() {
        for b in digits.iter() {
            for c in digits.iter() {
                for d in digits.iter() {
                    let s = format!("{}{}{}{}", a, b, c, d);
                    assert!(seen.insert(dec(&s)), "{}", s);
                    assert!(dec(&s) < 14776336);
                }
            }
        }
    }
}

#[test]
fn trailing_zero_digit_changes_nothing() {
    assert_eq!(dec("BC"), dec("BCA"));
    assert_eq!(dec("9z9"), dec("9z9A"));
}

fn enc4(mut n: u32) -> String {
    let alphabet = b"ABCDEFGHIJKLMNOPQRSTUVWXYZabcdefghijklmnopqrstuvwxyz0123456789";
    let mut s = String::new();
    for _ in 0..4 {
        s.push(alphabet[(n % 62) as usize] as char);
        n /= 62;
    }
    s
}

#[test]
fn decode_of_four_digit_encoding_gives_number_back() {
    for n in [0u32, 1, 61, 62, 3843, 3844, 238327, 238328, 1234567, 14776335] {
        assert_eq!(dec(&enc4(n)), n);
    }
}
