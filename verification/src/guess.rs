//! The dictionary scan: filter the words that match the pattern, tally the
//! letters they put on the blanks, and rank the letters.

use vstd::prelude::*;
use vstd::relations::total_ordering;
use vstd::seq_lib::lemma_sorted_unique;
use crate::pattern::{completions, spec_completions, spec_matches, Pattern};
use crate::tally::{ranked_before, Counted};

verus! {

/// The character sequences of a dictionary held as a vector of words.
pub open spec fn word_views(dict: Seq<Vec<char>>) -> Seq<Seq<char>> {
    dict.map_values(|w: Vec<char>| w@)
}

/// How many words of `dict` match the pattern `p` under the excluded letters
/// and put the letter `c` on a blank. Each word counts at most once, however
/// many blanks it fills with `c`.
pub open spec fn spec_count(p: Seq<char>, excluded: Set<char>, dict: Seq<Seq<char>>, c: char) -> nat
    decreases dict.len(),
{
    if dict.len() == 0 {
        0
    } else {
        spec_count(p, excluded, dict.drop_last(), c) + (if spec_matches(p, excluded, dict.last())
            && spec_completions(p, dict.last()).contains(c) {
            1nat
        } else {
            0nat
        })
    }
}

/// A letter's count never exceeds the number of dictionary words.
pub proof fn lemma_spec_count_le_len(p: Seq<char>, excluded: Set<char>, dict: Seq<Seq<char>>, c: char)
    ensures
        spec_count(p, excluded, dict, c) <= dict.len(),
    decreases dict.len(),
{
    if dict.len() > 0 {
        lemma_spec_count_le_len(p, excluded, dict.drop_last(), c);
    }
}

/// `r` is the ranking of the letters for pattern `p` over `dict`: it holds
/// exactly the letters with a positive count, each once, ordered by
/// descending count with ties in alphabetical order.
pub open spec fn ranking_of(
    p: Seq<char>,
    excluded: Set<char>,
    dict: Seq<Seq<char>>,
    r: Seq<char>,
) -> bool {
    &&& r.no_duplicates()
    &&& forall|c: char| #[trigger] r.contains(c) <==> spec_count(p, excluded, dict, c) > 0
    &&& forall|i: int, j: int|
        0 <= i < j < r.len() ==> ranked_before(
            spec_count(p, excluded, dict, r[i]),
            r[i],
            spec_count(p, excluded, dict, r[j]),
            r[j],
        )
}

/// Ranks the letters that could fill the blanks of the pattern: for every
/// dictionary word consistent with the pattern, each distinct letter it puts
/// on a blank counts once; the letters come back by descending count, ties
/// alphabetical. An empty result means that no word matches.
pub fn best_guess_dictionary(pattern: &Pattern, dict: &Vec<Vec<char>>) -> (r: Vec<char>)
    ensures
        ranking_of(pattern.chars(), pattern.excluded(), word_views(dict@), r@),
{
    let ghost p = pattern.chars();
    let ghost ex = pattern.excluded();
    let ghost d = word_views(dict@);
    let mut counts = Counted::new();
    proof {
        assert forall|c: char| #[trigger] counts.count_of(c) == spec_count(
            p,
            ex,
            d.take(0),
            c,
        ) by {
            assert(d.take(0).len() == 0);
        }
    }
    let mut i: usize = 0;
    while i < dict.len()
        invariant
            p == pattern.chars(),
            ex == pattern.excluded(),
            d == word_views(dict@),
            i <= dict@.len(),
            counts.wf(),
            forall|c: char| #[trigger] counts.count_of(c) == spec_count(p, ex, d.take(i as int), c),
        decreases dict@.len() - i,
    {
        let word = &dict[i];
        let m = pattern.matches(word);
        proof {
            assert(d[i as int] == word@);
            assert(d.take(i as int + 1).drop_last() =~= d.take(i as int));
            assert(d.take(i as int + 1).last() == d[i as int]);
        }
        if m {
            let comp = completions(pattern, word);
            let mut k: usize = 0;
            proof {
                assert(comp@.take(0) =~= Seq::<char>::empty());
                assert(dict.len() == dict@.len());
            }
            while k < comp.len()
                invariant
                    p == pattern.chars(),
                    ex == pattern.excluded(),
                    d == word_views(dict@),
                    i < dict@.len(),
                    dict@.len() <= usize::MAX,
                    d[i as int] == dict@[i as int]@,
                    counts.wf(),
                    comp@.no_duplicates(),
                    comp@.to_set() == spec_completions(p, d[i as int]),
                    k <= comp@.len(),
                    forall|c: char| #[trigger] counts.count_of(c) == spec_count(
                        p,
                        ex,
                        d.take(i as int),
                        c,
                    ) + (if comp@.take(k as int).contains(c) {
                        1nat
                    } else {
                        0nat
                    }),
                decreases comp@.len() - k,
            {
                let c = comp[k];
                proof {
                    lemma_spec_count_le_len(p, ex, d.take(i as int), c);
                    assert(!comp@.take(k as int).contains(c)) by {
                        if comp@.take(k as int).contains(c) {
                            let m2 = choose|m2: int|
                                0 <= m2 < k && comp@.take(k as int)[m2] == c;
                            assert(comp@[m2] == comp@[k as int]);
                        }
                    }
                    assert(d.take(i as int).len() == i as int);
                    assert(counts.count_of(c) <= i as int);
                    assert(counts.count_of(c) < usize::MAX);
                }
                counts.inc(c);
                proof {
                    assert(comp@.take(k as int + 1) =~= comp@.take(k as int).push(
                        comp@[k as int],
                    ));
                    assert forall|c2: char| #[trigger] counts.count_of(c2) == spec_count(
                        p,
                        ex,
                        d.take(i as int),
                        c2,
                    ) + (if comp@.take(k as int + 1).contains(c2) {
                        1nat
                    } else {
                        0nat
                    }) by {
                        if c2 != c {
                            assert(comp@.take(k as int + 1).contains(c2) == comp@.take(
                                k as int,
                            ).contains(c2)) by {
                                if comp@.take(k as int).contains(c2) {
                                    let m3 = choose|m3: int|
                                        0 <= m3 < k && comp@.take(k as int)[m3] == c2;
                                    assert(comp@.take(k as int + 1)[m3] == c2);
                                } else if comp@.take(k as int + 1).contains(c2) {
                                    let m3 = choose|m3: int|
                                        0 <= m3 < k + 1 && #[trigger] comp@.take(k as int + 1)[m3]
                                            == c2;
                                    assert(comp@.take(k as int)[m3] == c2);
                                }
                            }
                        } else {
                            assert(comp@.take(k as int + 1)[k as int] == c);
                            assert(comp@.take(k as int + 1).contains(c));
                        }
                    }
                }
                k += 1;
            }
            proof {
                assert(comp@.take(comp@.len() as int) =~= comp@);
                assert forall|c: char| #[trigger] counts.count_of(c) == spec_count(
                    p,
                    ex,
                    d.take(i as int + 1),
                    c,
                ) by {
                    assert(comp@.contains(c) == comp@.to_set().contains(c));
                    assert(spec_matches(p, ex, d.take(i as int + 1).last()));
                }
            }
        } else {
            proof {
                assert forall|c: char| #[trigger] counts.count_of(c) == spec_count(
                    p,
                    ex,
                    d.take(i as int + 1),
                    c,
                ) by {
                    assert(!spec_matches(p, ex, d.take(i as int + 1).last()));
                }
            }
        }
        i += 1;
    }
    proof {
        assert(d.take(d.len() as int) =~= d);
    }
    let r = counts.desc();
    proof {
        assert forall|c: char| #[trigger] r@.contains(c) <==> spec_count(p, ex, d, c) > 0 by {
            assert(counts.count_of(c) == spec_count(p, ex, d.take(d.len() as int), c));
        }
        assert forall|a: int, b: int|
            0 <= a < b < r@.len() implies ranked_before(
            spec_count(p, ex, d, r@[a]),
            r@[a],
            spec_count(p, ex, d, r@[b]),
            r@[b],
        ) by {
            assert(ranked_before(
                counts.count_of(r@[a]),
                r@[a],
                counts.count_of(r@[b]),
                r@[b],
            ));
            assert(counts.count_of(r@[a]) == spec_count(p, ex, d.take(d.len() as int), r@[a]));
            assert(counts.count_of(r@[b]) == spec_count(p, ex, d.take(d.len() as int), r@[b]));
        }
    }
    r
}

/// The ranking is fully determined by the pattern, the excluded letters and
/// the dictionary: two sequences that both rank them are equal. Two runs on
/// the same inputs therefore give the same answer.
pub proof fn lemma_ranking_deterministic(
    p: Seq<char>,
    excluded: Set<char>,
    dict: Seq<Seq<char>>,
    r1: Seq<char>,
    r2: Seq<char>,
)
    requires
        ranking_of(p, excluded, dict, r1),
        ranking_of(p, excluded, dict, r2),
    ensures
        r1 == r2,
{
    let leq = |a: char, b: char|
        a == b || ranked_before(
            spec_count(p, excluded, dict, a),
            a,
            spec_count(p, excluded, dict, b),
            b,
        );
    assert forall|a: char, b: char| #[trigger] leq(a, b) || #[trigger] leq(b, a) by {
        if a != b && (a as u32) == (b as u32) {
            crate::tally::lemma_char_cast_injective(a, b);
        }
    }
    assert forall|a: char, b: char| #[trigger] leq(a, b) && #[trigger] leq(b, a) implies a == b by {
    }
    assert(total_ordering(leq));
    assert(vstd::relations::sorted_by(r1, leq)) by {
        assert forall|i: int, j: int| 0 <= i < j < r1.len() implies #[trigger] leq(r1[i], r1[j]) by {
            assert(ranked_before(
                spec_count(p, excluded, dict, r1[i]),
                r1[i],
                spec_count(p, excluded, dict, r1[j]),
                r1[j],
            ));
        }
    }
    assert(vstd::relations::sorted_by(r2, leq)) by {
        assert forall|i: int, j: int| 0 <= i < j < r2.len() implies #[trigger] leq(r2[i], r2[j]) by {
            assert(ranked_before(
                spec_count(p, excluded, dict, r2[i]),
                r2[i],
                spec_count(p, excluded, dict, r2[j]),
                r2[j],
            ));
        }
    }
    r1.lemma_multiset_has_no_duplicates();
    r2.lemma_multiset_has_no_duplicates();
    assert(r1.to_multiset() =~= r2.to_multiset()) by {
        assert forall|c: char| r1.to_multiset().count(c) == r2.to_multiset().count(c) by {
            vstd::seq_lib::to_multiset_contains(r1, c);
            vstd::seq_lib::to_multiset_contains(r2, c);
            assert(r1.contains(c) <==> r2.contains(c));
        }
    }
    lemma_sorted_unique(r1, r2, leq);
}

} // verus!
