use string_wizard::{Joiner, JoinerOptions, MagicString};

#[test]
fn joiner_should_append_content() {
    let mut j = Joiner::default();
    j.append(MagicString::new("*"));
    j.append_raw("123");
    j.append_raw("456");
    assert_eq!(j.join(), "*123456");
}

#[test]
fn joiner_of_two_raw_strings_without_separator() {
    let mut j = Joiner::new();
    j.append_raw("a");
    j.append_raw("b");
    assert_eq!(j.join(), "ab");
    assert_eq!(j.len(), 2);
}

#[test]
fn joiner_separator_only_between_elements() {
    let mut j = Joiner::with_options(JoinerOptions {
        separator: Some(", ".to_string()),
    });
    assert_eq!(j.join(), "");
    j.append_raw("a");
    assert_eq!(j.join(), "a");
    j.append_raw("b");
    j.append_raw("c");
    assert_eq!(j.join(), "a, b, c");
    assert_eq!(j.len(), 7);
}

#[test]
fn joiner_joins_edited_documents() {
    let mut s = MagicString::new("hello");
    s.update(0, 1, "J").unwrap();
    s.append("!");
    let mut j = Joiner::with_options(JoinerOptions {
        separator: Some("\n".to_string()),
    });
    j.append(s);
    j.append_raw("world");
    assert_eq!(j.join(), "Jello!\nworld");
}
