use grepzilla::doc::StoredDoc;
use grepzilla::preview::{
    build_preview, ensure_max_chars, find_ci, find_ci_safe, find_ci_with_fallback, index_chars,
    snippet_with_highlight, truncate_chars_with_ellipsis, PreviewOpts,
};

fn doc_with(fields: &[(&str, &str)]) -> StoredDoc {
    let pairs: Vec<(String, String)> = fields
        .iter()
        .map(|(k, v)| ((*k).to_string(), (*v).to_string()))
        .collect();
    StoredDoc::from_pairs(0, "test".into(), &pairs)
}

#[test]
fn preview_picks_preferred_and_highlights() {
    let d = doc_with(&[
        ("text.title", "заголовок про игру"),
        ("text.body", "щенок играет с мячиком"),
    ]);
    let out = build_preview(
        &d,
        PreviewOpts {
            preferred_fields: &["text.title", "text.body"],
            max_len: 22,
            highlight_needle: Some("игра"),
        },
    );
    assert!(out.contains('[') && out.contains(']'), "no highlight: {}", out);
}

#[test]
fn preview_fallbacks_to_first_field() {
    let d = doc_with(&[("foo", "обычный текст без совпадений")]);
    let out = build_preview(
        &d,
        PreviewOpts {
            preferred_fields: &["text.title", "text.body"],
            max_len: 10,
            highlight_needle: Some("игра"),
        },
    );
    assert!(out.ends_with('…') || out.len() <= 10, "{}", out);
}

#[test]
fn truncate_respects_utf8_boundaries() {
    let s = "привет мир";
    let out = truncate_chars_with_ellipsis(s, 7);
    assert!(out.chars().count() <= 8, "{out}");
}

#[test]
fn truncate_exact_values() {
    assert_eq!(truncate_chars_with_ellipsis("привет мир", 7), "привет …");
    assert_eq!(truncate_chars_with_ellipsis("привет", 6), "привет");
    assert_eq!(truncate_chars_with_ellipsis("привет", 0), "");
    assert_eq!(truncate_chars_with_ellipsis("", 3), "");
    assert_eq!(ensure_max_chars("abcdef", 3), "abc…");
    assert_eq!(ensure_max_chars("abc", 3), "abc");
    assert_eq!(ensure_max_chars("abc", 0), "…");
}

#[test]
fn index_chars_gives_byte_offsets() {
    let (t, n) = index_chars("привет");
    assert_eq!(t, vec![0, 2, 4, 6, 8, 10, 12]);
    assert_eq!(n, 6);
    let (t, n) = index_chars("a€😀");
    assert_eq!(t, vec![0, 1, 4, 8]);
    assert_eq!(n, 3);
    let (t, n) = index_chars("");
    assert_eq!(t, vec![0]);
    assert_eq!(n, 0);
}

#[test]
fn snippet_exact_values() {
    // the whole text fits
    assert_eq!(snippet_with_highlight("щенок играет", 11, 19, 40), "щенок [игра]ет");
    // a narrow window: budget 10 - (4 + 2) = 4, two characters each side
    assert_eq!(
        snippet_with_highlight("щенок играет с мячиком", 11, 19, 10),
        "…к [игра]ет…"
    );
    assert_eq!(snippet_with_highlight("abc", 0, 3, 0), "");
    assert_eq!(snippet_with_highlight("", 0, 0, 5), "");
    // offsets inside a character count as the boundary before them
    assert_eq!(snippet_with_highlight("жук", 1, 3, 20), "[ж]ук");
    // an end before the start gives an empty match
    assert_eq!(snippet_with_highlight("abcdef", 4, 2, 20), "abcd[]ef");
}

#[test]
fn find_ci_exact_values() {
    assert_eq!(find_ci("Щенок ИГРАЕТ", "игра"), Some((11, 19)));
    assert_eq!(find_ci("abcabc", "BC"), Some((1, 3)));
    assert_eq!(find_ci("abc", ""), None);
    assert_eq!(find_ci("abc", "x"), None);
    assert_eq!(find_ci("", "a"), None);
    // the lower case of the text is longer than the text: a place found
    // in the lower case is taken where it is a boundary of the text too
    assert_eq!(find_ci("İstanbul", "stan"), Some((3, 7)));
    // and where it is none, the text is walked window by window
    assert_eq!(find_ci("İж", "Ж"), Some((2, 4)));
    assert_eq!(find_ci_safe("İж", "ж"), Some((2, 4)));
    assert_eq!(find_ci_safe("ab", "abc"), None);
    assert_eq!(find_ci_safe("ab", ""), None);
}

#[test]
fn fallback_shortens_the_needle() {
    assert_eq!(find_ci_with_fallback("про игру", "игра", 3), Some((7, 13)));
    assert_eq!(find_ci_with_fallback("про игру", "игра", 4), None);
    assert_eq!(find_ci_with_fallback("про игру", "ивы", 3), None);
    assert_eq!(find_ci_with_fallback("abc", "", 3), None);
    assert_eq!(find_ci_with_fallback("xab", "abz", 0), Some((1, 3)));
}

#[test]
fn preview_source_follows_the_needle() {
    let d = doc_with(&[
        ("text.title", "заголовок про игру"),
        ("text.body", "щенок играет с мячиком"),
    ]);
    // the first preferred field that holds the needle
    let out = build_preview(
        &d,
        PreviewOpts {
            preferred_fields: &["text.title", "text.body"],
            max_len: 40,
            highlight_needle: Some("игра"),
        },
    );
    assert_eq!(out, "щенок [игра]ет с мячиком");
    // none holds it: the first preferred field with content, and the
    // needle shortened
    let out = build_preview(
        &d,
        PreviewOpts {
            preferred_fields: &["text.title", "text.body"],
            max_len: 40,
            highlight_needle: Some("игрок"),
        },
    );
    assert_eq!(out, "заголовок про [игр]у");
    // no needle: the start of the first preferred field
    let out = build_preview(
        &d,
        PreviewOpts {
            preferred_fields: &["nope", "text.body"],
            max_len: 5,
            highlight_needle: None,
        },
    );
    assert_eq!(out, "щенок…");
    // no preferred field: the first field by name
    let out = build_preview(
        &doc_with(&[("b", "second"), ("a", "first")]),
        PreviewOpts {
            preferred_fields: &[],
            max_len: 10,
            highlight_needle: None,
        },
    );
    assert_eq!(out, "first");
    let out = build_preview(
        &doc_with(&[]),
        PreviewOpts {
            preferred_fields: &["a"],
            max_len: 10,
            highlight_needle: Some("abc"),
        },
    );
    assert_eq!(out, "");
}
