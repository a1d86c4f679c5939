use modbus_translator::text::{chars_of, text_equals};

#[test]
fn chars_of_gives_every_character() {
    assert_eq!(vec!['a', 'é', '1'], chars_of("aé1"));
    assert!(chars_of("").is_empty());
}

#[test]
fn text_equals_compares_characters() {
    assert!(text_equals("abc", "abc"));
    assert!(!text_equals("abc", "abd"));
    assert!(!text_equals("abc", "ab"));
    assert!(text_equals("", ""));
}

