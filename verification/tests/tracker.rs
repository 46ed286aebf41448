use padd::tracker::{formatted_at, needs_formatting, parse_u64};

fn chars(s: &str) -> Vec<char> {
    s.chars().collect()
}

#[test]
fn needs_formatting_when_untracked() {
    assert!(needs_formatting(None, Some(10)));
    assert!(needs_formatting(Some(10), None));
    assert!(needs_formatting(None, None));
}

#[test]
fn needs_formatting_when_modified_after_formatting() {
    assert!(needs_formatting(Some(10), Some(11)));
    assert!(!needs_formatting(Some(10), Some(10)));
    assert!(!needs_formatting(Some(10), Some(9)));
}

#[test]
fn parse_u64_values() {
    assert_eq!(parse_u64(&chars("0")), Some(0));
    assert_eq!(parse_u64(&chars("1234567")), Some(1234567));
    assert_eq!(parse_u64(&chars("+42")), Some(42));
    assert_eq!(parse_u64(&chars("18446744073709551615")), Some(u64::MAX));
}

#[test]
fn parse_u64_rejects() {
    assert_eq!(parse_u64(&chars("")), None);
    assert_eq!(parse_u64(&chars("+")), None);
    assert_eq!(parse_u64(&chars("12a")), None);
    assert_eq!(parse_u64(&chars("-1")), None);
    assert_eq!(parse_u64(&chars("18446744073709551616")), None);
    assert_eq!(parse_u64(&chars("99999999999999999999999")), None);
}

#[test]
fn formatted_at_matching_spec() {
    let record = chars("abc123\n1500\n");
    assert_eq!(formatted_at(&record, &chars("abc123")), Some(1500));
}

#[test]
fn formatted_at_other_spec() {
    let record = chars("abc123\n1500\n");
    assert_eq!(formatted_at(&record, &chars("abc124")), None);
}

#[test]
fn formatted_at_malformed() {
    assert_eq!(formatted_at(&chars("abc123\nxyz\n"), &chars("abc123")), None);
    assert_eq!(formatted_at(&chars("abc123"), &chars("abc123")), None);
    assert_eq!(formatted_at(&chars("abc123\n77"), &chars("abc123")), Some(77));
}
