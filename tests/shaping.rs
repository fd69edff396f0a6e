use bound::text::{join_with, shape, split_tokens};

fn chars(s: &str) -> Vec<char> {
    s.chars().collect()
}

fn text(v: &[char]) -> String {
    v.iter().collect()
}

#[test]
fn token_limit_keeps_first_tokens_and_counts_all() {
    let s = shape(&chars("alpha beta gamma delta epsilon"), Some(3), None);
    assert_eq!(text(&s.text), "alpha beta gamma");
    assert_eq!(s.tokens, 5);
}

#[test]
fn size_limit_cuts_after_token_shaping() {
    let s = shape(&chars("alpha beta gamma"), None, Some(5));
    assert_eq!(text(&s.text), "alpha");
    assert_eq!(s.tokens, 3);
}

#[test]
fn both_limits_apply_in_order() {
    let s = shape(&chars("alpha\n beta\tgamma delta"), Some(3), Some(8));
    assert_eq!(text(&s.text), "alpha be");
    assert_eq!(s.tokens, 4);
}

#[test]
fn token_limit_collapses_whitespace() {
    let s = shape(&chars("  a\n\nb  "), Some(10), None);
    assert_eq!(text(&s.text), "a b");
    assert_eq!(s.tokens, 2);
}

#[test]
fn no_limits_keep_text() {
    let s = shape(&chars(" a\nb "), None, None);
    assert_eq!(text(&s.text), " a\nb ");
    assert_eq!(s.tokens, 2);
}

#[test]
fn size_limit_larger_than_text_keeps_it() {
    let s = shape(&chars("abc"), None, Some(10));
    assert_eq!(text(&s.text), "abc");
}

#[test]
fn empty_text_has_no_tokens() {
    let s = shape(&chars(""), Some(0), Some(0));
    assert_eq!(text(&s.text), "");
    assert_eq!(s.tokens, 0);
}

#[test]
fn tokens_split_on_unicode_whitespace() {
    let ws = split_tokens(&chars("x\u{3000}y\u{a0}z"));
    assert_eq!(ws.len(), 3);
    assert_eq!(text(&ws[2]), "z");
}

#[test]
fn join_puts_separator_between() {
    let j = join_with(&vec![chars("a"), chars("bc"), chars("")], '/');
    assert_eq!(text(&j), "a/bc/");
}
