use string_wizard::{Joiner, MagicString, MagicStringOptions, SourceMapOptions, UpdateOptions};

#[test]
fn joiner_source_map_should_append_content() {
    let mut j = Joiner::default();

    let input = "<div>\n  hello, world\n</div>";
    let mut s1 = MagicString::with_options(
        input,
        MagicStringOptions {
            filename: Some("bar.js".to_string()),
        },
    );
    let update_options = UpdateOptions {
        keep_original: true,
        ..Default::default()
    };
    s1.update_with(1, 2, "v", update_options.clone()).unwrap();
    s1.update_with(3, 4, "d", update_options.clone()).unwrap();
    s1.update_with(input.len() - 4, input.len() - 1, "h1", update_options.clone())
        .unwrap();

    let s2 = MagicString::with_options(
        "import React from 'react';\n",
        MagicStringOptions {
            filename: Some("bar.js".to_string()),
        },
    );

    j.append(s1);
    j.append(s2);

    let sm = j.source_map(SourceMapOptions {
        include_content: true,
    });

    assert_eq!(sm.mappings, "AAAA,CAACA,CAAC,CAACC,CAAC;AACJ;AACA,EAAEC,EAAG;AAFL;");
}

#[test]
fn joiner_source_map_lists_each_source_once() {
    let mut j = Joiner::default();
    j.append(MagicString::with_options(
        "a\n",
        MagicStringOptions {
            filename: Some("a.js".to_string()),
        },
    ));
    j.append(MagicString::with_options(
        "b",
        MagicStringOptions {
            filename: Some("b.js".to_string()),
        },
    ));
    j.append(MagicString::with_options(
        "c",
        MagicStringOptions {
            filename: Some("a.js".to_string()),
        },
    ));
    let sm = j.source_map(SourceMapOptions {
        include_content: true,
    });
    assert_eq!(sm.sources, vec!["a.js".to_string(), "b.js".to_string()]);
    assert_eq!(sm.sources_content, vec!["a\n".to_string(), "b".to_string()]);
    // "a" maps on line 0; the first source ends with a newline and the
    // separator adds another, so "b" (source 1) maps on line 2 and, after one
    // more separator, "c" (source 0 again) on line 3.
    assert_eq!(sm.mappings, "AAAA;;ACAA;ADAA");
    assert!(sm.names.is_empty());
}
