use string_wizard::chunk::Chunk;
use string_wizard::magic_string::indent::guess_indentor;
use string_wizard::magic_string::token::Token;
use string_wizard::source_map::decoded_map::DecodedMap;
use string_wizard::source_map::json_from_quoted;
use string_wizard::source_map::mappings::{Mappings, Segment};
use string_wizard::{Locator, MagicString, SourceMapOptions, Span, UpdateOptions};

#[test]
fn json_framing_of_quoted_parts() {
    let out = json_from_quoted(
        3,
        &vec!["\"a.js\"".to_string()],
        &vec![],
        &vec!["\"x\"".to_string(), "\"y\"".to_string()],
        "\"AAAA\"",
    );
    assert_eq!(
        out,
        "{\"version\":3,\"sources\":[\"a.js\"],\"sourcesContent\":[],\"names\":[\"x\",\"y\"],\"mappings\":\"AAAA\"}"
    );
    let wide = json_from_quoted(123, &vec![], &vec![], &vec![], "\"\"");
    assert!(wide.starts_with("{\"version\":123,"));
}

#[test]
fn source_map_json_escapes_strings() {
    let s = MagicString::with_options(
        "a\"b",
        string_wizard::MagicStringOptions {
            filename: Some("q\"\\.js".to_string()),
        },
    );
    let sm = s.source_map(SourceMapOptions {
        include_content: true,
    });
    assert_eq!(
        sm.to_string(),
        "{\"version\":3,\"sources\":[\"q\\\"\\\\.js\"],\"sourcesContent\":[\"a\\\"b\"],\"names\":[],\"mappings\":\"AAAA\"}"
    );
}

#[test]
fn guesses_indentation() {
    assert_eq!(guess_indentor(""), None);
    assert_eq!(guess_indentor("a\nb\n"), None);
    assert_eq!(guess_indentor("a\n\tb\n  c"), Some("\t".to_string()));
    assert_eq!(guess_indentor("a\n    b\n  c\n      d"), Some("  ".to_string()));
    assert_eq!(guess_indentor("x\n   y\n    z\n\tw"), Some("   ".to_string()));
}

#[test]
fn own_source_map_has_tokens() {
    let input = "ab\ncd";
    let mut s = MagicString::new(input);
    s.update_with(
        3,
        4,
        "C",
        UpdateOptions {
            keep_original: true,
            overwrite: false,
        },
    )
    .unwrap();
    let sm = s.create_own_sourcemap(SourceMapOptions {
        include_content: true,
    });
    assert_eq!(sm.get_names(), &vec!["c".to_string()]);
    assert_eq!(sm.get_sources(), &vec!["".to_string()]);
    assert_eq!(sm.get_file(), None);
    assert_eq!(sm.get_source_root(), None);
    assert_eq!(sm.get_source_contents(), Some(&vec!["ab\ncd".to_string()]));
    assert_eq!(
        sm.get_tokens(),
        &vec![
            Token::new(0, 0, 0, 0, Some(0), None),
            Token::new(1, 0, 1, 0, Some(0), Some(0)),
            Token::new(1, 1, 1, 1, Some(0), None),
        ]
    );
}

#[test]
fn span_and_chunk_basics() {
    let span = Span(1, 3);
    assert_eq!(span.start(), 1);
    assert_eq!(span.end(), 3);
    assert_eq!(span.text("abcd"), "bc");

    let mut c = Chunk::new(Span(2, 6));
    assert!(c.contains(3));
    assert!(!c.contains(2));
    assert!(!c.contains(6));
    c.append_intro("i".to_string());
    c.prepend_intro("I".to_string());
    c.append_outro("o".to_string());
    c.prepend_outro("O".to_string());
    assert_eq!(c.fragments("abcdefgh"), vec!["I", "i", "cdef", "O", "o"]);
    let right = c.split(4);
    assert_eq!(c.fragments("abcdefgh"), vec!["I", "i", "cd"]);
    assert_eq!(right.fragments("abcdefgh"), vec!["ef", "O", "o"]);
    assert_eq!((right.start(), right.end()), (4, 6));
    assert!(!right.is_edited());
    c.edit("X".to_string(), true, true);
    assert!(c.is_edited());
    assert!(c.store_name);
    assert_eq!(c.fragments("abcdefgh"), vec!["X"]);
    let mut d = c.split(3);
    assert_eq!(c.fragments("abcdefgh"), vec!["X"]);
    assert_eq!(d.fragments("abcdefgh"), vec![""]);
    d.edit("Y".to_string(), false, false);
    assert_eq!(d.fragments("abcdefgh"), vec!["Y"]);
}

#[test]
fn segment_getters_and_decoded_map() {
    let seg = Segment::new(4, 0, 2, 7, Some(1));
    assert_eq!(seg.dst_column(), 4);
    assert_eq!(seg.source_index(), 0);
    assert_eq!(seg.src_line(), 2);
    assert_eq!(seg.src_column(), 7);
    assert_eq!(seg.name_index(), Some(1));

    let mut m = Mappings::new();
    let locator = Locator::new("hello");
    let chunk = Chunk::new(Span(0, 5));
    m.add_chunk(&chunk, &locator, 0, "hello", None);
    let decoded = DecodedMap {
        version: 3,
        sources: vec!["h.js".to_string()],
        sources_content: vec![],
        mappings: m,
        names: vec![],
    };
    let sm = decoded.into_source_map();
    assert_eq!(sm.mappings, "AAAA");
    assert_eq!(sm.sources, vec!["h.js".to_string()]);
}

#[test]
fn advance_counts_utf16_columns() {
    let mut m = Mappings::new();
    m.advance("😀é");
    let locator = Locator::new("x");
    let chunk = Chunk::new(Span(0, 1));
    m.add_chunk(&chunk, &locator, 0, "x", None);
    // three UTF-16 units before the segment
    assert_eq!(m.encoded(), "GAAA");
}

#[test]
fn document_guesses_its_indentation() {
    assert_eq!(MagicString::new("a\n  b\n    c").guessed_indentor(), "  ");
    assert_eq!(MagicString::new("a\n\tb").guessed_indentor(), "\t");
    assert_eq!(MagicString::new("abc").guessed_indentor(), "\t");
}
