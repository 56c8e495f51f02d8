use rfc::markdown::{find_section, get_section, header_level, replace_or_append_section,
    replace_section};

fn doc(bytes: &[u8]) -> Vec<u8> {
    bytes.to_vec()
}

#[test]
fn test_markdown_replace() {
    let md = doc(
        b"abc\n\n```\n  123\n```\n\n#### Blarg\nblergins\n- [85](lakjlkja)\n\n###### Florm\n\n###### Florm 2\n\n# Blaag\nFlerbin Storpl\n---\n\nJaxr\n===\n\n\nJaaaz\n\n\n",
    );

    assert_eq!(header_level(&md, &doc(b"Blarg")), Some(4));
    assert_eq!(header_level(&md, &doc(b"Flerbin Storpl")), Some(2));
    assert_eq!(header_level(&md, &doc(b"Jaxr")), Some(1));
    assert_eq!(header_level(&md, &doc(b"Jaaaz")), None);

    assert_eq!(
        get_section(&md, &doc(b"Jaxr")),
        Some(doc(b"Jaxr\n===\n\n\nJaaaz\n\n\n"))
    );
    assert_eq!(
        get_section(&md, &doc(b"Flerbin Storpl")),
        Some(doc(b"Flerbin Storpl\n---\n\n"))
    );
    assert_eq!(
        get_section(&md, &doc(b"Blaag")),
        Some(doc(b"# Blaag\nFlerbin Storpl\n---\n\n"))
    );
    assert_eq!(get_section(&md, &doc(b"Not Real")), None);

    assert_eq!(
        replace_or_append_section(&md, &doc(b"Blarg"), &doc(b"abc\n123\n")),
        doc(
            b"abc\n\n```\n  123\n```\n\n#### Blarg\nabc\n123\n# Blaag\nFlerbin Storpl\n---\n\nJaxr\n===\n\n\nJaaaz\n\n\n",
        )
    );
}

#[test]
fn test_atx_level_two() {
    assert_eq!(header_level(&doc(b"## Foo\n"), &doc(b"Foo")), Some(2));
}

#[test]
fn test_setext_dash_level_two() {
    assert_eq!(header_level(&doc(b"Foo\n---\n"), &doc(b"Foo")), Some(2));
}

#[test]
fn test_setext_equals_level_one() {
    assert_eq!(header_level(&doc(b"Foo\n===\n"), &doc(b"Foo")), Some(1));
}

#[test]
fn test_atx_levels_one_to_six() {
    for level in 1..=6usize {
        let mut d = vec![35u8; level];
        d.extend_from_slice(b" Title\nbody\n");
        assert_eq!(header_level(&d, &doc(b"Title")), Some(level));
    }
}

#[test]
fn test_seven_hashes_is_no_heading() {
    assert_eq!(header_level(&doc(b"####### A\n"), &doc(b"A")), None);
}

#[test]
fn test_unterminated_heading_line_is_no_heading() {
    assert_eq!(header_level(&doc(b"# A"), &doc(b"A")), None);
    assert_eq!(header_level(&doc(b"A\n==="), &doc(b"A")), None);
}

#[test]
fn test_presence_consistent_across_queries() {
    let md = doc(b"# A\none\nB\n---\ntwo\n");
    for h in [&b"A"[..], &b"B"[..], &b"C"[..], &b"one"[..]] {
        let hv = doc(h);
        assert_eq!(get_section(&md, &hv).is_some(), header_level(&md, &hv).is_some());
        assert_eq!(get_section(&md, &hv).is_some(), find_section(&md, &hv).is_some());
    }
}

#[test]
fn test_get_and_replace_simple() {
    let md = doc(b"# A\none\n# B\ntwo\n");
    assert_eq!(get_section(&md, &doc(b"A")), Some(doc(b"# A\none\n")));
    assert_eq!(
        replace_section(&md, &doc(b"A"), &doc(b"ONE\n")),
        Some(doc(b"# A\nONE\n# B\ntwo\n"))
    );
}

#[test]
fn test_find_section_offsets() {
    let md = doc(b"# A\none\n# B\ntwo\n");
    assert_eq!(find_section(&md, &doc(b"A")), Some((0, 8)));
    assert_eq!(find_section(&md, &doc(b"B")), Some((8, 16)));
    assert_eq!(find_section(&md, &doc(b"C")), None);
}

#[test]
fn test_setext_section_runs_to_document_end() {
    let md = doc(b"Jaxr\n===\n\n\nJaaaz\n\n\n");
    assert_eq!(header_level(&md, &doc(b"Jaxr")), Some(1));
    assert_eq!(find_section(&md, &doc(b"Jaxr")), Some((0, md.len())));
    assert_eq!(get_section(&md, &doc(b"Jaxr")), Some(md.clone()));
}

#[test]
fn test_append_fallback() {
    let md = doc(b"# A\none\n");
    let out = replace_or_append_section(&md, &doc(b"Missing"), &doc(b"text\n"));
    assert_eq!(out, doc(b"# A\none\n\n# Missing\ntext\n"));
}

#[test]
fn test_append_fallback_empty_document() {
    let out = replace_or_append_section(&doc(b""), &doc(b"A"), &doc(b"body\n"));
    assert_eq!(out, doc(b"\n# A\nbody\n"));
}

#[test]
fn test_replace_then_replace_is_no_op() {
    let md = doc(b"# A\none\n# B\ntwo\n");
    let once = replace_or_append_section(&md, &doc(b"A"), &doc(b"fresh\n"));
    assert_eq!(once, doc(b"# A\nfresh\n# B\ntwo\n"));
    let twice = replace_section(&once, &doc(b"A"), &doc(b"fresh\n"));
    assert_eq!(twice, Some(once));
}

#[test]
fn test_append_then_replace_is_no_op() {
    let md = doc(b"# A\none\n");
    let once = replace_or_append_section(&md, &doc(b"C"), &doc(b"body\n"));
    assert_eq!(once, doc(b"# A\none\n\n# C\nbody\n"));
    let twice = replace_section(&once, &doc(b"C"), &doc(b"body\n"));
    assert_eq!(twice, Some(once));
}

#[test]
fn test_nested_subheadings_stay_in_span() {
    let md = doc(b"## S\nx\n### T\ny\n## U\nz\n");
    assert_eq!(get_section(&md, &doc(b"S")), Some(doc(b"## S\nx\n### T\ny\n")));
    assert_eq!(get_section(&md, &doc(b"T")), Some(doc(b"### T\ny\n")));
}

#[test]
fn test_replace_keeps_siblings_and_reproduced_subheadings() {
    let md = doc(b"# Top\ntext\n## Sub\nsub text\n# Next\nrest\n");
    let out = replace_section(&md, &doc(b"Top"), &doc(b"new\n## Sub\nkept\n"));
    assert_eq!(out, Some(doc(b"# Top\nnew\n## Sub\nkept\n# Next\nrest\n")));
    let out2 = replace_section(&md, &doc(b"Sub"), &doc(b"inner\n"));
    assert_eq!(
        out2,
        Some(doc(b"# Top\ntext\n## Sub\ninner\n# Next\nrest\n"))
    );
}

#[test]
fn test_first_occurrence_wins() {
    let md = doc(b"# A\none\n# A\ntwo\n");
    assert_eq!(get_section(&md, &doc(b"A")), Some(doc(b"# A\none\n")));
    assert_eq!(
        replace_section(&md, &doc(b"A"), &doc(b"X\n")),
        Some(doc(b"# A\nX\n# A\ntwo\n"))
    );
}

#[test]
fn test_heading_text_is_matched_literally() {
    let md = doc(b"# a+b*\ntext\n");
    assert_eq!(header_level(&md, &doc(b"a+b*")), Some(1));
    assert_eq!(header_level(&md, &doc(b"a.b.")), None);
    assert_eq!(get_section(&md, &doc(b"a+b*")), Some(md.clone()));
}

#[test]
fn test_underline_must_fill_its_line() {
    assert_eq!(header_level(&doc(b"Foo\n=-=\n"), &doc(b"Foo")), None);
    assert_eq!(header_level(&doc(b"Foo\n--- x\n"), &doc(b"Foo")), None);
}

#[test]
fn test_atx_requires_space_after_markers() {
    assert_eq!(header_level(&doc(b"#Foo\n"), &doc(b"Foo")), None);
    assert_eq!(header_level(&doc(b"#  Foo\n"), &doc(b"Foo")), Some(1));
}

#[test]
fn test_heading_text_must_match_whole_line_rest() {
    let md = doc(b"# Foo bar\n");
    assert_eq!(header_level(&md, &doc(b"Foo")), None);
    assert_eq!(header_level(&md, &doc(b"Foo bar")), Some(1));
    assert_eq!(header_level(&doc(b"# Foo \n"), &doc(b"Foo")), None);
}

#[test]
fn test_replace_missing_heading_is_none() {
    let md = doc(b"# A\none\n");
    assert_eq!(replace_section(&md, &doc(b"B"), &doc(b"x\n")), None);
    assert_eq!(get_section(&doc(b""), &doc(b"A")), None);
}

#[test]
fn test_deeper_atx_does_not_end_shallower_section() {
    let md = doc(b"# A\none\n### Deep\ntwo\nB\n===\nthree\n");
    assert_eq!(
        get_section(&md, &doc(b"A")),
        Some(doc(b"# A\none\n### Deep\ntwo\n"))
    );
}

#[test]
fn test_dash_underline_ends_level_two_but_not_level_one() {
    let md = doc(b"# A\none\nSub\n---\ntwo\n## B\nx\nNext\n---\ny\n");
    assert_eq!(get_section(&md, &doc(b"A")), Some(md.clone()));
    assert_eq!(get_section(&md, &doc(b"B")), Some(doc(b"## B\nx\n")));
}
