use string_wizard::{MagicString, MagicStringError, MagicStringOptions, UpdateOptions};

trait MagicStringExt {
    fn overwrite(&mut self, start: usize, end: usize, content: &str) -> Result<(), MagicStringError>;
}

impl MagicStringExt for MagicString {
    fn overwrite(&mut self, start: usize, end: usize, content: &str) -> Result<(), MagicStringError> {
        self.update_with(
            start,
            end,
            content,
            UpdateOptions {
                overwrite: true,
                ..Default::default()
            },
        )
    }
}

#[test]
fn stores_source_file_information() {
    let s = MagicString::with_options(
        "abc",
        MagicStringOptions {
            filename: Some("foo.js".to_string()),
        },
    );
    assert_eq!(s.filename, Some("foo.js".to_string()))
}

#[test]
fn magic_string_should_append_content() {
    let mut s = MagicString::new("abcdefghijkl");
    s.append("xyz");
    assert_eq!(s.to_string(), "abcdefghijklxyz");
    s.append("xyz");
    assert_eq!(s.to_string(), "abcdefghijklxyzxyz");
}

#[test]
fn preserves_intended_order() {
    let mut s = MagicString::new("0123456789");
    s.append_left(5, "A").unwrap();
    assert_eq!(s.to_string(), "01234A56789");
    s.prepend_right(5, "a").unwrap();
    s.prepend_right(5, "b").unwrap();
    s.append_left(5, "B").unwrap();
    s.append_left(5, "C").unwrap();
    s.prepend_right(5, "c").unwrap();

    assert_eq!(s.to_string(), "01234ABCcba56789");

    s.prepend_left(5, "<").unwrap();
    s.prepend_left(5, "{").unwrap();
    assert_eq!(s.to_string(), "01234{<ABCcba56789");

    s.append_right(5, ">").unwrap();
    s.append_right(5, "}").unwrap();
    assert_eq!(s.to_string(), "01234{<ABCcba>}56789");

    s.append_left(5, "(").unwrap();
    s.append_left(5, "[").unwrap();
    assert_eq!(s.to_string(), "01234{<ABC([cba>}56789");

    s.prepend_right(5, ")").unwrap();
    s.prepend_right(5, "]").unwrap();
    assert_eq!(s.to_string(), "01234{<ABC([])cba>}56789");
}

#[test]
fn preserves_intended_order_at_beginning_of_string() {
    let mut s = MagicString::new("x");
    s.append_left(0, "1").unwrap();
    s.prepend_left(0, "2").unwrap();
    s.append_left(0, "3").unwrap();
    s.prepend_left(0, "4").unwrap();

    assert_eq!(s.to_string(), "4213x");
}

#[test]
fn preserves_intended_order_at_end_of_string() {
    let mut s = MagicString::new("x");
    s.append_right(1, "1").unwrap();
    s.prepend_right(1, "2").unwrap();
    s.append_right(1, "3").unwrap();
    s.prepend_right(1, "4").unwrap();

    assert_eq!(s.to_string(), "x4213");
}

#[test]
fn should_clone_a_magic_string() {
    let mut s = MagicString::new("abcdefghijkl");
    s.overwrite(3, 9, "XYZ").unwrap();
    let c = s.clone();

    assert_eq!(c.to_string(), "abcXYZjkl")
}

#[test]
fn should_replace_characters() {
    let mut s = MagicString::new("abcdefghijkl");
    s.overwrite(5, 8, "FGH").unwrap();
    assert_eq!(s.to_string(), "abcdeFGHijkl");
}

#[test]
fn moves_content_from_the_start() {
    let mut s = MagicString::new("abcdefghijkl");
    s.relocate(0, 3, 6).unwrap();
    assert_eq!(s.to_string(), "defabcghijkl");
}

#[test]
fn moves_content_to_the_start() {
    let mut s = MagicString::new("abcdefghijkl");
    s.relocate(3, 6, 0).unwrap();
    assert_eq!(s.to_string(), "defabcghijkl");
}

#[test]
fn moves_content_from_the_end() {
    let mut s = MagicString::new("abcdefghijkl");
    s.relocate(9, 12, 6).unwrap();
    assert_eq!(s.to_string(), "abcdefjklghi");
}

#[test]
fn moves_content_to_the_end() {
    let mut s = MagicString::new("abcdefghijkl");
    s.relocate(6, 9, 12).unwrap();
    assert_eq!(s.to_string(), "abcdefjklghi");
}

#[test]
fn ignores_redundant_move() {
    let mut s = MagicString::new("abcdefghijkl");
    s.prepend_right(9, "X").unwrap();
    s.relocate(9, 12, 6).unwrap();
    s.append_left(12, "Y").unwrap();
    // [6,9] already comes after [9,12]
    s.relocate(6, 9, 12).unwrap();

    assert_eq!(s.to_string(), "abcdefXjklYghi");
}

#[test]
fn moves_content_to_the_middle() {
    let mut s = MagicString::new("abcdefghijkl");
    s.relocate(3, 6, 9).unwrap();
    assert_eq!(s.to_string(), "abcghidefjkl");
}

#[test]
fn handles_multiple_moves_of_the_same_snippet() {
    let mut s = MagicString::new("abcdefghijkl");

    s.relocate(0, 3, 6).unwrap();
    assert_eq!(s.to_string(), "defabcghijkl");

    s.relocate(0, 3, 9).unwrap();
    assert_eq!(s.to_string(), "defghiabcjkl");
}

#[test]
fn handles_moves_of_adjacent_snippets() {
    let mut s = MagicString::new("abcdefghijkl");

    s.relocate(0, 2, 6).unwrap();
    assert_eq!(s.to_string(), "cdefabghijkl");
    s.relocate(2, 4, 6).unwrap();
    assert_eq!(s.to_string(), "efabcdghijkl");
}

#[test]
fn handles_moves_to_same_index() {
    let mut s = MagicString::new("abcdefghijkl");
    s.relocate(0, 2, 6).unwrap();
    s.relocate(3, 5, 6).unwrap();
    assert_eq!(s.to_string(), "cfabdeghijkl");
}

#[test]
#[should_panic]
fn refuses_to_move_a_selection_to_inside_itself() {
    let mut s = MagicString::new("abcdefghijkl");
    s.relocate(3, 6, 3).unwrap();
}

#[test]
#[should_panic]
fn refuses_to_move_a_selection_to_inside_itself2() {
    let mut s = MagicString::new("abcdefghijkl");
    s.relocate(3, 6, 4).unwrap();
}

#[test]
#[should_panic]
fn refuses_to_move_a_selection_to_inside_itself3() {
    let mut s = MagicString::new("abcdefghijkl");
    s.relocate(3, 6, 6).unwrap();
}

#[test]
fn allows_edits_of_moved_content() {
    let mut s1 = MagicString::new("abcdefghijkl");
    s1.relocate(3, 6, 9).unwrap();
    s1.overwrite(3, 6, "DEF").unwrap();
    assert_eq!(s1.to_string(), "abcghiDEFjkl");
    let mut s2 = MagicString::new("abcdefghijkl");
    s2.relocate(3, 6, 9).unwrap();
    s2.overwrite(4, 5, "E").unwrap();
    assert_eq!(s2.to_string(), "abcghidEfjkl");
}

#[test]
fn moves_content_inserted_at_end_of_range() {
    let mut s = MagicString::new("abcdefghijkl");
    s.append_left(6, "X").unwrap();
    s.relocate(3, 6, 9).unwrap();
    assert_eq!(s.to_string(), "abcghidefXjkl");
}

#[test]
fn magic_string_should_prepend_content() {
    let mut s = MagicString::new("abcdefghijkl");
    s.prepend("xyz");
    assert_eq!(s.to_string(), "xyzabcdefghijkl");
    s.prepend("xyz");
    assert_eq!(s.to_string(), "xyzxyzabcdefghijkl");
}

#[test]
fn remove() {
    let mut s = MagicString::new("0123456");
    s.remove(0, 3).unwrap();
    assert_eq!(s.to_string(), "3456");
    s.remove(3, 7).unwrap();
    assert_eq!(s.to_string(), "");
}
