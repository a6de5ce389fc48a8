//! Literals, numerals and the numbers that a free text names.

use agent_bench::extract::{extract_last_number, extract_number_before_minutes};
use agent_bench::literal::{float_literal, lower_char};
use agent_bench::text::{blank, decimal_text, digit, from_chars, same_text, to_chars, white_space};

fn literal(text: &str) -> bool {
    float_literal(&to_chars(text))
}

#[test]
fn literals_are_what_the_standard_library_reads() {
    let pieces = ["", "+", "-", ".", "0", "7", "12", "e", "E", "inf", "INFINITY", "NaN", " ", "x"];
    for a in pieces {
        for b in pieces {
            for c in pieces {
                for d in pieces {
                    let text = format!("{a}{b}{c}{d}");
                    assert_eq!(literal(&text), text.parse::<f64>().is_ok(), "{text:?}");
                }
            }
        }
    }
}

#[test]
fn literals_of_five_symbols() {
    let symbols = ['1', '.', 'e', '-', '+'];
    let n = symbols.len();
    for code in 0..n.pow(6) {
        let mut rest = code;
        let mut text = String::new();
        for _ in 0..6 {
            text.push(symbols[rest % n]);
            rest /= n;
        }
        assert_eq!(literal(&text), text.parse::<f64>().is_ok(), "{text:?}");
    }
}

#[test]
fn lower_case_of_ascii_letters() {
    for code in 0..=0x10ffffu32 {
        if let Some(c) = char::from_u32(code) {
            assert_eq!(lower_char(c), c.to_ascii_lowercase());
        }
    }
}

#[test]
fn white_space_is_that_of_unicode() {
    for code in 0..=0x10ffffu32 {
        if let Some(c) = char::from_u32(code) {
            assert_eq!(white_space(c), c.is_whitespace(), "{code:x}");
            assert_eq!(digit(c), c.is_ascii_digit(), "{code:x}");
        }
    }
}

#[test]
fn blank_texts() {
    assert!(blank(""));
    assert!(blank(" \t\r\n\u{2003}"));
    assert!(!blank(" . "));
}

#[test]
fn numerals_of_integers() {
    for n in [0u64, 1, 9, 10, 99, 100, 101, 65_536, u64::MAX - 1, u64::MAX] {
        assert_eq!(decimal_text(n), n.to_string());
    }
}

#[test]
fn characters_and_back() {
    let chars = to_chars("añ2\u{1f600}b");
    assert_eq!(chars, vec!['a', 'ñ', '2', '\u{1f600}', 'b']);
    assert_eq!(from_chars(&chars, 1, 4), "ñ2\u{1f600}");
    assert_eq!(from_chars(&chars, 2, 2), "");
    assert!(same_text("ab", "ab"));
    assert!(!same_text("ab", "abc"));
}

fn last(text: &str) -> Option<String> {
    extract_last_number(text)
}

#[test]
fn last_number_of_a_text() {
    assert_eq!(last(""), None);
    assert_eq!(last("no digits"), None);
    assert_eq!(last("12 and 13.5"), Some("13.5".to_string()));
    assert_eq!(last("from -3 to -4.25."), Some("-3".to_string()));
    assert_eq!(last("about 7."), Some("7.".to_string()));
    assert_eq!(last("1.2.3"), None);
    assert_eq!(last("5 then 1.2.3"), Some("5".to_string()));
    assert_eq!(last(".5"), Some("5".to_string()));
    assert_eq!(last("--8"), Some("-8".to_string()));
    assert_eq!(last("3-4"), Some("-4".to_string()));
    assert_eq!(last("1e5"), Some("5".to_string()));
    assert_eq!(last("-"), None);
    assert_eq!(last("9 -"), Some("9".to_string()));
    assert_eq!(last("ü12ü"), Some("12".to_string()));
}

#[test]
fn number_before_the_word_minutes() {
    let before = |text: &str| extract_number_before_minutes(text);
    assert_eq!(before("12.5 minutes"), Some("12.5".to_string()));
    assert_eq!(before("It took 12.5 long MinuTes, 3 times"), Some("12.5".to_string()));
    assert_eq!(before("1 minutes or 2 minutes"), Some("2".to_string()));
    assert_eq!(before("12.5"), None);
    assert_eq!(before("minutes: 12.5"), None);
    assert_eq!(before("many minutes"), None);
    assert_eq!(before("3-4 minutes"), None);
    assert_eq!(before("-4 minutes"), Some("-4".to_string()));
    assert_eq!(before("4. minutes"), Some("4.".to_string()));
    assert_eq!(before("... minutes"), None);
    assert_eq!(before("minute"), None);
    assert_eq!(before("über 17,5 minutes"), Some("5".to_string()));
}

/// What a run of digits and points, found byte by byte, reads as.
fn scanned(text: &str) -> Option<f64> {
    let bytes = text.as_bytes();
    let mut at = 0;
    let mut found = None;
    while at < bytes.len() {
        if !(bytes[at].is_ascii_digit() || bytes[at] == b'-') {
            at += 1;
            continue;
        }
        let from = at;
        at += 1;
        while at < bytes.len() && (bytes[at].is_ascii_digit() || bytes[at] == b'.') {
            at += 1;
        }
        if let Ok(value) = text[from..at].parse::<f64>() {
            found = Some(value);
        }
    }
    found
}

#[test]
fn last_number_of_all_short_texts() {
    let symbols = ['1', '0', '.', '-', 'x'];
    let n = symbols.len();
    for length in 0..7u32 {
        for code in 0..n.pow(length) {
            let mut rest = code;
            let mut text = String::new();
            for _ in 0..length {
                text.push(symbols[rest % n]);
                rest /= n;
            }
            let found = last(&text).map(|number| number.parse::<f64>().unwrap());
            assert_eq!(found, scanned(&text), "{text:?}");
        }
    }
}
