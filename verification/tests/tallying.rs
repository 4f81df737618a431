use hangman_guess::tally::Counted;

#[test]
fn empty_tally_ranks_nothing() {
    let t = Counted::new();
    assert_eq!(t.desc(), Vec::<char>::new());
}

#[test]
fn desc_orders_by_descending_count() {
    let mut t = Counted::new();
    t.inc('b');
    t.inc('b');
    t.inc('c');
    t.inc('a');
    t.inc('b');
    assert_eq!(t.desc(), vec!['b', 'a', 'c']);
}

#[test]
fn equal_counts_fall_back_to_alphabetical_order() {
    let mut t = Counted::new();
    t.inc('z');
    t.inc('a');
    t.inc('m');
    assert_eq!(t.desc(), vec!['a', 'm', 'z']);
}
