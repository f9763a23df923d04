use grepzilla::gram::{required_grams_from_wildcard, trigrams};
use grepzilla::normalizer::normalize;

#[test]
fn test_trigrams() {
    assert_eq!(
        trigrams("котик"),
        vec!["кот".to_string(), "оти".to_string(), "тик".to_string()]
    );
}

#[test]
fn test_normalize_basic() {
    assert_eq!(normalize("КоШКи"), "кошки");
}

#[test]
fn trigrams_of_short_text_are_none() {
    assert!(trigrams("").is_empty());
    assert!(trigrams("ab").is_empty());
    assert_eq!(trigrams("abc"), vec!["abc".to_string()]);
}

#[test]
fn normalize_strips_combining_marks() {
    assert_eq!(normalize("Ёлка"), "елка");
    assert_eq!(normalize("Café"), "cafe");
    assert_eq!(normalize("й"), "и");
}

#[test]
fn normalize_is_idempotent_on_samples() {
    for s in ["КоШКи", "Ёлка", "Café", "ﬁne", "ＡＢＣ", "", "a*b?c"] {
        let once = normalize(s);
        assert_eq!(normalize(&once), once);
    }
}

#[test]
fn normalize_twice_can_differ_for_compatibility_signs() {
    // the sign for megahertz has no lower case of its own, and its
    // compatibility form is made of letters in upper case
    assert_eq!(normalize("㎒"), "MHz");
    assert_eq!(normalize("MHz"), "mhz");
}

#[test]
fn required_grams_take_literal_runs() {
    let g = required_grams_from_wildcard("*ИГРА*").unwrap();
    assert_eq!(g, vec!["игр".to_string(), "гра".to_string()]);
    let g = required_grams_from_wildcard("abcd?ef*ghi").unwrap();
    assert_eq!(
        g,
        vec!["abc".to_string(), "bcd".to_string(), "ghi".to_string()]
    );
}

#[test]
fn weak_pattern_is_refused() {
    assert!(required_grams_from_wildcard("*ab*").is_err());
    assert!(required_grams_from_wildcard("").is_err());
    assert!(required_grams_from_wildcard("a?b?c").is_err());
}
