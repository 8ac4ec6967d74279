use proply_rs::text::{chars_of, digit, is_ascii_alphabetic, is_whitespace, str_eq, to_lower};

#[test]
fn character_classes() {
    assert!(is_whitespace(' ') && is_whitespace('\u{3000}') && is_whitespace('\n'));
    assert!(!is_whitespace('x'));
    assert!(is_ascii_alphabetic('Q') && !is_ascii_alphabetic('é'));
    assert_eq!(to_lower('M'), 'm');
    assert_eq!(to_lower('é'), 'é');
    assert_eq!(digit(7), '7');
}

#[test]
fn string_helpers() {
    assert!(str_eq("abc", "abc"));
    assert!(!str_eq("abc", "abd"));
    assert_eq!(chars_of("hé"), vec!['h', 'é']);
}
