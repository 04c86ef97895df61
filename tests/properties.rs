use string_wizard::source_map::mappings::{encode_vlq, Mappings};
use string_wizard::{Locator, Location, MagicString, MagicStringError};

#[test]
fn fresh_document_renders_its_source() {
    for src in ["", "a", "hello\nworld", "é😀\r\n", "0123456789"] {
        let s = MagicString::new(src);
        assert_eq!(s.to_string(), src);
        assert_eq!(s.len(), src.len());
    }
}

#[test]
fn append_left_twice_at_one_offset() {
    let mut s = MagicString::new("01234");
    s.append_left(2, "A").unwrap();
    s.append_left(2, "B").unwrap();
    assert_eq!(s.to_string(), "01AB234");
}

#[test]
fn inserting_twice_at_one_boundary_keeps_one_partition() {
    let mut s = MagicString::new("abcdef");
    s.append_left(3, "X").unwrap();
    s.append_right(3, "Y").unwrap();
    s.prepend_left(3, "<").unwrap();
    s.prepend_right(3, ">").unwrap();
    assert_eq!(s.to_string(), "abc<X>Ydef");
    // removing [0, 3) drops what was inserted on its right side too
    s.remove(0, 3).unwrap();
    assert_eq!(s.to_string(), ">Ydef");
}

#[test]
fn remove_then_remove_all() {
    let mut s = MagicString::new("0123456");
    s.remove(0, 3).unwrap();
    assert_eq!(s.to_string(), "3456");
    s.remove(3, 7).unwrap();
    assert_eq!(s.to_string(), "");
}

#[test]
fn remove_of_an_empty_range_changes_nothing() {
    let mut s = MagicString::new("abc");
    assert_eq!(s.remove(1, 1), Ok(()));
    assert_eq!(s.to_string(), "abc");
    assert_eq!(s.remove(2, 1), Err(MagicStringError::InvalidRange));
}

#[test]
fn relocate_into_itself_is_refused_on_any_source() {
    for src in ["", "ab", "abcdefghijkl"] {
        let mut s = MagicString::new(src);
        assert_eq!(s.relocate(3, 6, 4), Err(MagicStringError::RelocateIntoSelf));
        assert_eq!(s.to_string(), src);
    }
}

#[test]
fn relocate_basic_move() {
    let mut s = MagicString::new("abcdefghijkl");
    s.relocate(3, 6, 9).unwrap();
    assert_eq!(s.to_string(), "abcghidefjkl");
}

#[test]
fn relocate_of_a_run_that_is_out_of_order_is_refused() {
    let mut s = MagicString::new("abcdefghi");
    s.relocate(0, 2, 6).unwrap();
    assert_eq!(s.to_string(), "cdefabghi");
    // [0, 6) is no longer one run in order
    assert_eq!(s.relocate(0, 6, 8), Err(MagicStringError::InvalidRange));
    assert_eq!(s.to_string(), "cdefabghi");
}

#[test]
fn relocate_to_a_place_inside_the_moved_run_is_refused() {
    let mut s = MagicString::new("abcdefghi");
    s.relocate(6, 9, 2).unwrap();
    assert_eq!(s.to_string(), "abghicdef");
    // the run from 0 to 6 now holds [6, 9), which holds 7
    assert_eq!(s.relocate(0, 6, 7), Err(MagicStringError::RelocateIntoSelf));
    assert_eq!(s.to_string(), "abghicdef");
}

#[test]
fn overwrite_scenario() {
    let mut s = MagicString::new("abcdefghijkl");
    s.update_with(
        5,
        8,
        "FGH",
        string_wizard::UpdateOptions {
            overwrite: true,
            keep_original: false,
        },
    )
    .unwrap();
    assert_eq!(s.to_string(), "abcdeFGHijkl");
}

#[test]
fn update_across_earlier_splits_replaces_the_whole_range() {
    let mut s = MagicString::new("abcdefgh");
    s.append_left(4, "X").unwrap();
    s.update(2, 6, "-").unwrap();
    assert_eq!(s.to_string(), "ab-Xgh");
    let mut t = MagicString::new("abcdefgh");
    t.append_left(4, "X").unwrap();
    t.update_with(
        2,
        6,
        "-",
        string_wizard::UpdateOptions {
            overwrite: true,
            keep_original: false,
        },
    )
    .unwrap();
    assert_eq!(t.to_string(), "ab-gh");
}

#[test]
fn offset_errors() {
    let mut s = MagicString::new("aé");
    assert_eq!(s.append_left(9, "x"), Err(MagicStringError::OffsetOutOfBounds));
    assert_eq!(s.append_left(-1, "x"), Err(MagicStringError::OffsetOutOfBounds));
    assert_eq!(s.append_right(2, "x"), Err(MagicStringError::NonCharBoundary));
    assert_eq!(s.update(1, 1, "x"), Err(MagicStringError::InvalidRange));
    assert_eq!(s.update(2, 1, "x"), Err(MagicStringError::NonCharBoundary));
    assert_eq!(s.to_string(), "aé");
    s.append_right(1, "x").unwrap();
    assert_eq!(s.to_string(), "axé");
}

#[test]
fn try_new_accepts_ordinary_sources() {
    let s = MagicString::try_new("abc").unwrap();
    assert_eq!(s.to_string(), "abc");
}

#[test]
fn vlq_values() {
    let cases: [(i64, &str); 8] = [(0, "A"), (1, "C"), (-1, "D"), (2, "E"), (-4, "J"), (16, "gB"), (1000, "w+B"), (-1000, "x+B")];
    for (n, expected) in cases {
        let mut out = String::new();
        encode_vlq(n, &mut out);
        assert_eq!(out, expected);
    }
}

#[test]
fn mappings_advance_over_lines() {
    let mut m = Mappings::new();
    assert_eq!(m.encoded(), "");
    m.advance("ab\ncd\n");
    assert_eq!(m.encoded(), ";;");
}

#[test]
fn locator_basic() {
    let source = "string\nwizard";
    let locator = Locator::new(source);
    assert_eq!(locator.locate(0), Location { line: 0, column: 0 });
    assert_eq!(locator.locate(7), Location { line: 1, column: 0 });
    assert_eq!(locator.locate(2), Location { line: 0, column: 2 });
    assert_eq!(locator.locate(8), Location { line: 1, column: 1 });
    assert_eq!(locator.locate(13), Location { line: 1, column: 6 });
}

#[test]
fn locator_counts_utf16_units() {
    let locator = Locator::new("😀é\nx");
    assert_eq!(locator.locate(4), Location { line: 0, column: 2 });
    assert_eq!(locator.locate(6), Location { line: 0, column: 3 });
    assert_eq!(locator.locate(7), Location { line: 1, column: 0 });
}

#[test]
fn location_bump_line() {
    let mut l = Location { line: 3, column: 9 };
    l.bump_line();
    assert_eq!(l, Location { line: 4, column: 0 });
}
