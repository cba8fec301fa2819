use spellpack::pattern::{collect_groups, found_texts, match_str, replaced_text, tokenizer};

#[test]
fn split_words() {
    let sp = tokenizer("Aa Ab-c1_2");
    let expect = vec!["Aa", " ", "Ab-c1", "_", "2"];
    assert_eq!(sp, expect);
}

#[test]
fn test_match_str() {
    let txt = r#"data "sates" "value""#;
    let matches = match_str(&txt, r#""([^"]+)" "([^"]+)""#);
    assert_eq!("sates", matches.unwrap()[0])
}

#[test]
fn match_str_gives_both_groups() {
    let matches = match_str(r#"data "sates" "value""#, r#""([^"]+)" "([^"]+)""#);
    assert_eq!(matches, Some(vec!["sates".to_string(), "value".to_string()]));
}

#[test]
fn match_str_without_a_match_is_none() {
    assert_eq!(match_str("data sates value", r#""([^"]+)" "([^"]+)""#), None);
}

#[test]
fn match_str_with_a_refused_pattern_is_none() {
    assert_eq!(match_str("abc", "(abc"), None);
}

#[test]
fn match_str_with_an_idle_group_is_none() {
    assert_eq!(match_str("a", "(a)|(b)"), None);
}

#[test]
fn collect_groups_skips_group_zero() {
    let caps = vec![
        vec![Some("ab".to_string()), Some("a".to_string()), Some("b".to_string())],
        vec![Some("c".to_string()), Some("c".to_string())],
    ];
    assert_eq!(
        collect_groups(&caps),
        Some(vec!["a".to_string(), "b".to_string(), "c".to_string()])
    );
}

#[test]
fn collect_groups_of_nothing_is_none() {
    assert_eq!(collect_groups(&vec![]), None);
    assert_eq!(collect_groups(&vec![vec![Some("x".to_string())]]), None);
}

#[test]
fn tokenizer_of_empty_text_is_empty() {
    assert!(tokenizer("").is_empty());
}

#[test]
fn found_texts_are_the_matches_or_none() {
    assert_eq!(found_texts(Some(vec!["a".to_string(), "b".to_string()])), vec!["a", "b"]);
    assert!(found_texts(Some(vec![])).is_empty());
    assert!(found_texts(None).is_empty());
}

#[test]
fn replaced_text_is_the_replacement_or_the_text() {
    assert_eq!(replaced_text("abc", Some("x".to_string())), "x");
    assert_eq!(replaced_text("abc", Some("".to_string())), "");
    assert_eq!(replaced_text("abc", None), "abc");
}

#[test]
fn tokenizer_takes_other_scripts_as_separators() {
    assert_eq!(tokenizer("a-b é c"), vec!["a-b", " é ", "c"]);
}
