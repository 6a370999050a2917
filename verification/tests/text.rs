use pool::order::stable_order;
use pool::text::{chars_of, decimal_text, first_line, is_blank, joined, lines_of, same_text, text_of, trim_range};

#[test]
fn lines_split_like_std() {
    assert_eq!(lines_of("a\r\nb\n\nc"), vec!["a", "b", "", "c"]);
    assert_eq!(lines_of("a\n"), vec!["a"]);
    assert_eq!(lines_of(""), Vec::<String>::new());
    assert_eq!(first_line("x\ny"), "x");
    assert_eq!(first_line(""), "");
}

#[test]
fn trimming_and_blanks() {
    let v = chars_of("  ab c \t");
    let (lo, hi) = trim_range(&v, 0, v.len());
    assert_eq!(text_of(&v, lo, hi), "ab c");
    assert!(is_blank(" \u{3000}\t"));
    assert!(!is_blank(" x "));
}

#[test]
fn decimals_and_joins() {
    assert_eq!(decimal_text(0), "0");
    assert_eq!(decimal_text(u64::MAX), "18446744073709551615");
    assert_eq!(joined("ab", "cd"), "abcd");
    assert!(same_text("日本", "日本") && !same_text("a", "ab"));
}

#[test]
fn stable_order_keeps_ties_in_place() {
    assert_eq!(stable_order(&vec![3, 1, 3, 0, 1]), vec![3, 1, 4, 0, 2]);
    assert_eq!(stable_order(&vec![]), Vec::<usize>::new());
}
