use hangman_guess::guess::best_guess_dictionary;
use hangman_guess::pattern::Pattern;

fn w(s: &str) -> Vec<char> {
    s.chars().collect()
}

fn dict(words: &[&str]) -> Vec<Vec<char>> {
    words.iter().map(|s| w(s)).collect()
}

#[test]
fn frequency_ranking_over_small_dictionary() {
    let p = Pattern::new(w("__t"), w(""));
    let d = dict(&["cat", "bat", "rat", "top"]);
    // "cat", "bat" and "rat" match; they put {c,a}, {b,a} and {r,a} on the
    // blanks, so the tally is a=3, b=c=r=1.
    let r = best_guess_dictionary(&p, &d);
    assert_eq!(r, vec!['a', 'b', 'c', 'r']);
    assert_eq!(r.first(), Some(&'a'));
}

#[test]
fn guessed_letter_cannot_fill_a_blank() {
    let p = Pattern::new(w("_"), w("a"));
    let d = dict(&["a", "b"]);
    assert_eq!(best_guess_dictionary(&p, &d), vec!['b']);
}

#[test]
fn no_matching_word_gives_empty_ranking() {
    let p = Pattern::new(w("xyz"), w(""));
    let d = dict(&["cat", "bat", "rat", "top"]);
    assert_eq!(best_guess_dictionary(&p, &d), Vec::<char>::new());
}

#[test]
fn single_candidate_names_its_blank_letter() {
    let p = Pattern::new(w("c_t"), w("x"));
    let d = dict(&["dog", "cat"]);
    assert_eq!(best_guess_dictionary(&p, &d), vec!['a']);
}

#[test]
fn same_inputs_give_same_ranking() {
    let d = dict(&["cat", "bat", "rat", "top", "cot", "bit"]);
    let r1 = best_guess_dictionary(&Pattern::new(w("__t"), w("r")), &d);
    let r2 = best_guess_dictionary(&Pattern::new(w("__t"), w("r")), &d);
    assert_eq!(r1, r2);
}

#[test]
fn revealed_letter_is_not_recommended_again() {
    // The blank of "t_t" cannot hold 't' again: "tot" still matches on the
    // 'o', but "ttt" does not match at all.
    let p = Pattern::new(w("t_t"), w(""));
    let d = dict(&["tot", "ttt"]);
    assert_eq!(best_guess_dictionary(&p, &d), vec!['o']);
}

#[test]
fn word_counts_once_per_distinct_letter() {
    // "aba" fills the two blanks of "_b_" with 'a' twice, but contributes a
    // single count, so 'o' from the two other words ranks first.
    let p = Pattern::new(w("_b_"), w(""));
    let d = dict(&["aba", "obo", "obi"]);
    let r = best_guess_dictionary(&p, &d);
    assert_eq!(r, vec!['o', 'a', 'i']);
}
