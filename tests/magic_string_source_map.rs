use string_wizard::{MagicString, SourceMapOptions, UpdateOptions};

#[test]
fn magic_string_source_map_basic() {
    let input = "<div>\n  hello, world\n</div>";
    let mut s = MagicString::new(input);
    let update_options = UpdateOptions {
        keep_original: true,
        ..Default::default()
    };
    s.update_with(1, 2, "v", update_options.clone()).unwrap();
    s.update_with(3, 4, "d", update_options.clone()).unwrap();
    s.update_with(input.len() - 4, input.len() - 1, "h1", update_options.clone())
        .unwrap();

    let sm = s.source_map(SourceMapOptions {
        include_content: true,
        ..Default::default()
    });

    assert_eq!(
        sm.to_string(),
        "{\"version\":3,\"sources\":[\"\"],\"sourcesContent\":[\"<div>\\n  hello, world\\n</div>\"],\"names\":[\"d\",\"v\",\"div\"],\"mappings\":\"AAAA,CAACA,CAAC,CAACC,CAAC;AACJ;AACA,EAAEC,EAAG\"}"
    );

    s.prepend("import React from 'react';\n");
    let sm = s.source_map(SourceMapOptions {
        include_content: true,
        ..Default::default()
    });
    assert_eq!(
        sm.to_string(),
        "{\"version\":3,\"sources\":[\"\"],\"sourcesContent\":[\"<div>\\n  hello, world\\n</div>\"],\"names\":[\"d\",\"v\",\"div\"],\"mappings\":\";AAAA,CAACA,CAAC,CAACC,CAAC;AACJ;AACA,EAAEC,EAAG\"}"
    );
}

#[test]
fn source_map_is_the_same_on_every_run() {
    let input = "<div>\n  hello, world\n</div>";
    let build = || {
        let mut s = MagicString::new(input);
        let opts = UpdateOptions {
            keep_original: true,
            ..Default::default()
        };
        s.update_with(1, 2, "v", opts).unwrap();
        s.update_with(3, 4, "d", opts).unwrap();
        s.update_with(input.len() - 4, input.len() - 1, "h1", opts).unwrap();
        s.source_map(SourceMapOptions::default()).mappings
    };
    let first = build();
    assert_eq!(first, "AAAA,CAACA,CAAC,CAACC,CAAC;AACJ;AACA,EAAEC,EAAG");
    assert_eq!(build(), first);
}

#[test]
fn source_map_without_content_and_with_file_name() {
    let mut s = MagicString::with_options(
        "ab",
        string_wizard::MagicStringOptions {
            filename: Some("x.js".to_string()),
        },
    );
    s.update(0, 1, "A").unwrap();
    let sm = s.source_map(SourceMapOptions::default());
    assert_eq!(sm.version, 3);
    assert_eq!(sm.sources, vec!["x.js".to_string()]);
    assert!(sm.sources_content.is_empty());
    assert!(sm.names.is_empty());
    assert_eq!(sm.mappings, "AAAA,CAAC");
    assert_eq!(
        sm.to_string(),
        "{\"version\":3,\"sources\":[\"x.js\"],\"sourcesContent\":[],\"names\":[],\"mappings\":\"AAAA,CAAC\"}"
    );
}

#[test]
fn source_map_columns_count_utf16_units() {
    // "é" is one UTF-16 unit in two bytes; "😀" is two units in four bytes
    let input = "é😀x\ny";
    let s = MagicString::new(input);
    let sm = s.source_map(SourceMapOptions::default());
    // one segment per line, at its first character
    assert_eq!(sm.mappings, "AAAA;AACA");
    let mut t = MagicString::new(input);
    t.update(6, 7, "X").unwrap();
    let sm = t.source_map(SourceMapOptions::default());
    // the edit of "x" maps from generated column 3 to original column 3
    assert_eq!(sm.mappings, "AAAA,GAAG;AACH");
}
