use hangman_guess::pattern::{completions, Pattern};

fn w(s: &str) -> Vec<char> {
    s.chars().collect()
}

#[test]
fn matches_rejects_length_mismatch() {
    let p = Pattern::new(w("__t"), w(""));
    assert!(!p.matches(&w("cats")));
    assert!(!p.matches(&w("at")));
    assert!(!p.matches(&w("")));
}

#[test]
fn literal_pattern_matches_only_itself() {
    let p = Pattern::new(w("cat"), w(""));
    assert!(p.matches(&w("cat")));
    assert!(!p.matches(&w("car")));
    assert!(!p.matches(&w("bat")));
}

#[test]
fn wildcard_respects_guessed_letters() {
    let p = Pattern::new(w("_"), w("a"));
    assert!(!p.matches(&w("a")));
    assert!(p.matches(&w("b")));
}

#[test]
fn revealed_letters_are_excluded_from_blanks() {
    let p = Pattern::new(w("c_t"), w(""));
    assert!(p.matches(&w("cat")));
    assert!(!p.matches(&w("cct")));
    assert!(!p.matches(&w("ctt")));
}

#[test]
fn empty_pattern_matches_empty_word() {
    let p = Pattern::new(w(""), w(""));
    assert!(p.matches(&w("")));
    assert!(!p.matches(&w("a")));
}

#[test]
fn completions_collects_blank_letters() {
    let p = Pattern::new(w("c_t"), w(""));
    assert_eq!(completions(&p, &w("cat")), vec!['a']);
}

#[test]
fn completions_deduplicates() {
    let p = Pattern::new(w("__"), w(""));
    assert_eq!(completions(&p, &w("aa")), vec!['a']);
}

#[test]
fn completions_of_literal_pattern_is_empty() {
    let p = Pattern::new(w("cat"), w(""));
    assert_eq!(completions(&p, &w("cat")), Vec::<char>::new());
}
