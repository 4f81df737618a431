//! The pattern of a partially revealed word, and the matching predicate that
//! decides which dictionary words are consistent with it.

use vstd::prelude::*;

verus! {

/// The letters of `p` that are already revealed, that is, every character of
/// the pattern other than the wildcard marker `_`.
pub open spec fn revealed_letters(p: Seq<char>) -> Set<char> {
    Set::new(|c: char| p.contains(c) && c != '_')
}

/// Position `i` of word `w` is consistent with the pattern: either the word
/// repeats the revealed letter, or the position is a blank and the word's
/// letter there is not among the excluded ones.
pub open spec fn pos_ok(p: Seq<char>, excluded: Set<char>, w: Seq<char>, i: int) -> bool {
    w[i] == p[i] || (p[i] == '_' && !excluded.contains(w[i]))
}

/// The word `w` is consistent with pattern `p` under the excluded letters:
/// same length, and every position is consistent.
pub open spec fn spec_matches(p: Seq<char>, excluded: Set<char>, w: Seq<char>) -> bool {
    &&& w.len() == p.len()
    &&& forall|i: int| 0 <= i < p.len() ==> #[trigger] pos_ok(p, excluded, w, i)
}

/// The distinct letters of `w` that stand on a blank position of `p`.
pub open spec fn spec_completions(p: Seq<char>, w: Seq<char>) -> Set<char> {
    Set::new(
        |c: char|
            exists|i: int| 0 <= i < p.len() && i < w.len() && p[i] == '_' && #[trigger] w[i] == c,
    )
}

/// A pattern for one turn: the partially revealed word (blanks written `_`,
/// every other character taken as a revealed literal) together with the set
/// of letters that no blank can hold — the letters already guessed and the
/// letters already revealed.
pub struct Pattern {
    pattern: Vec<char>,
    seen: Vec<char>,
}

/// Whether `v` holds the character `c`.
fn contains_char(v: &Vec<char>, c: char) -> (r: bool)
    ensures
        r == v@.contains(c),
{
    let mut i: usize = 0;
    while i < v.len()
        invariant
            i <= v@.len(),
            forall|j: int| 0 <= j < i ==> v@[j] != c,
        decreases v@.len() - i,
    {
        if v[i] == c {
            return true;
        }
        i += 1;
    }
    false
}

impl Pattern {
    /// The characters of the pattern, blanks included.
    pub closed spec fn chars(&self) -> Seq<char> {
        self.pattern@
    }

    /// The letters that no blank position may hold.
    pub closed spec fn excluded(&self) -> Set<char> {
        self.seen@.to_set()
    }

    /// Builds the pattern for one turn: the excluded set is the union of the
    /// guessed letters and the letters revealed in the pattern itself.
    pub fn new(pattern: Vec<char>, guessed: Vec<char>) -> (p: Pattern)
        ensures
            p.chars() == pattern@,
            p.excluded() == guessed@.to_set().union(revealed_letters(pattern@)),
    {
        let mut seen = guessed;
        let mut i: usize = 0;
        while i < pattern.len()
            invariant
                i <= pattern@.len(),
                forall|c: char|
                    #[trigger] seen@.contains(c) <==> (guessed@.contains(c) || exists|j: int|
                        0 <= j < i && #[trigger] pattern@[j] == c && c != '_'),
            decreases pattern@.len() - i,
        {
            let ch = pattern[i];
            if ch != '_' {
                let already = contains_char(&seen, ch);
                let ghost seen0 = seen@;
                if !already {
                    seen.push(ch);
                }
                proof {
                    assert forall|c: char| #[trigger] seen@.contains(c) implies (guessed@.contains(
                        c,
                    ) || exists|j: int| 0 <= j < i + 1 && #[trigger] pattern@[j] == c && c != '_') by {
                        let k = choose|k: int| 0 <= k < seen@.len() && seen@[k] == c;
                        if k < seen0.len() {
                            assert(seen0[k] == c);
                            assert(seen0.contains(c));
                        } else {
                            assert(c == ch);
                            assert(pattern@[i as int] == c && c != '_');
                        }
                    }
                    assert forall|c: char|
                        (guessed@.contains(c) || exists|j: int|
                            0 <= j < i + 1 && #[trigger] pattern@[j] == c && c
                                != '_') implies #[trigger] seen@.contains(c) by {
                        if guessed@.contains(c) || exists|j: int|
                            0 <= j < i && #[trigger] pattern@[j] == c && c != '_' {
                            assert(seen0.contains(c));
                            let k = choose|k: int| 0 <= k < seen0.len() && seen0[k] == c;
                            assert(seen@[k] == c);
                        } else {
                            assert(pattern@[i as int] == c && c != '_');
                            assert(c == ch);
                            if already {
                                assert(seen0.contains(c));
                                let k = choose|k: int| 0 <= k < seen0.len() && seen0[k] == c;
                                assert(seen@[k] == c);
                            } else {
                                assert(seen@[seen0.len() as int] == c);
                            }
                        }
                    }
                }
            }
            i += 1;
        }
        let p = Pattern { pattern, seen };
        proof {
            assert(p.excluded() =~= guessed@.to_set().union(revealed_letters(p.pattern@)));
        }
        p
    }

    /// Whether the candidate word is consistent with this pattern.
    pub fn matches(&self, candidate: &Vec<char>) -> (r: bool)
        ensures
            r == spec_matches(self.chars(), self.excluded(), candidate@),
    {
        if candidate.len() != self.pattern.len() {
            return false;
        }
        let mut i: usize = 0;
        while i < self.pattern.len()
            invariant
                candidate@.len() == self.pattern@.len(),
                i <= self.pattern@.len(),
                forall|j: int| 0 <= j < i ==> #[trigger] pos_ok(self.chars(), self.excluded(), candidate@, j),
            decreases self.pattern@.len() - i,
        {
            let pc = self.pattern[i];
            let cc = candidate[i];
            if pc != cc && (pc != '_' || contains_char(&self.seen, cc)) {
                assert(!pos_ok(self.chars(), self.excluded(), candidate@, i as int));
                return false;
            }
            i += 1;
        }
        true
    }
}

/// The distinct letters of `candidate` that stand on a blank position of the
/// pattern, each at most once.
pub fn completions(pattern: &Pattern, candidate: &Vec<char>) -> (r: Vec<char>)
    ensures
        r@.no_duplicates(),
        r@.to_set() == spec_completions(pattern.chars(), candidate@),
{
    let mut r: Vec<char> = Vec::new();
    let plen = pattern.pattern.len();
    let n = if plen <= candidate.len() {
        plen
    } else {
        candidate.len()
    };
    let mut i: usize = 0;
    while i < n
        invariant
            n <= pattern.pattern@.len(),
            n <= candidate@.len(),
            n == pattern.pattern@.len() || n == candidate@.len(),
            i <= n,
            r@.no_duplicates(),
            forall|c: char|
                #[trigger] r@.contains(c) <==> exists|j: int|
                    0 <= j < i && pattern.pattern@[j] == '_' && #[trigger] candidate@[j] == c,
        decreases n - i,
    {
        if pattern.pattern[i] == '_' {
            let c = candidate[i];
            let already = contains_char(&r, c);
            let ghost r0 = r@;
            if !already {
                r.push(c);
            }
            proof {
                assert forall|d: char| #[trigger] r@.contains(d) implies exists|j: int|
                    0 <= j < i + 1 && pattern.pattern@[j] == '_' && #[trigger] candidate@[j]
                        == d by {
                    let k = choose|k: int| 0 <= k < r@.len() && r@[k] == d;
                    if k < r0.len() {
                        assert(r0[k] == d);
                        assert(r0.contains(d));
                    } else {
                        assert(d == c);
                        assert(pattern.pattern@[i as int] == '_' && candidate@[i as int] == d);
                    }
                }
                assert forall|d: char|
                    (exists|j: int|
                        0 <= j < i + 1 && pattern.pattern@[j] == '_' && #[trigger] candidate@[j]
                            == d) implies #[trigger] r@.contains(d) by {
                    if exists|j: int|
                        0 <= j < i && pattern.pattern@[j] == '_' && #[trigger] candidate@[j] == d {
                        assert(r0.contains(d));
                        let k = choose|k: int| 0 <= k < r0.len() && r0[k] == d;
                        assert(r@[k] == d);
                    } else {
                        assert(candidate@[i as int] == d);
                        assert(d == c);
                        if already {
                            assert(r0.contains(d));
                            let k = choose|k: int| 0 <= k < r0.len() && r0[k] == d;
                            assert(r@[k] == d);
                        } else {
                            assert(r@[r0.len() as int] == d);
                        }
                    }
                }
            }
        }
        i += 1;
    }
    proof {
        assert(r@.to_set() =~= spec_completions(pattern.chars(), candidate@));
    }
    r
}

/// A word of a different length never matches a pattern.
pub proof fn lemma_matches_needs_equal_len(p: Seq<char>, excluded: Set<char>, w: Seq<char>)
    requires
        w.len() != p.len(),
    ensures
        !spec_matches(p, excluded, w),
{
}

/// A pattern with no blanks matches exactly one word: itself.
pub proof fn lemma_literal_pattern_matches_only_itself(
    p: Seq<char>,
    excluded: Set<char>,
    w: Seq<char>,
)
    requires
        forall|i: int| 0 <= i < p.len() ==> #[trigger] p[i] != '_',
    ensures
        spec_matches(p, excluded, w) <==> w == p,
{
    if spec_matches(p, excluded, w) {
        assert forall|i: int| 0 <= i < p.len() implies #[trigger] w[i] == p[i] by {
            assert(pos_ok(p, excluded, w, i));
        }
        assert(w =~= p);
    }
    if w == p {
        assert forall|i: int| 0 <= i < p.len() implies #[trigger] pos_ok(p, excluded, w, i) by {
            assert(w[i] == p[i]);
        }
    }
}

/// Every completion letter of a matching word stands on some blank position
/// of the pattern, and none of them is an excluded letter. The word is asked
/// to consist of real letters, that is, to hold no wildcard marker itself.
pub proof fn lemma_completions_not_excluded(p: Seq<char>, excluded: Set<char>, w: Seq<char>)
    requires
        spec_matches(p, excluded, w),
        forall|i: int| 0 <= i < w.len() ==> #[trigger] w[i] != '_',
    ensures
        forall|c: char| #[trigger] spec_completions(p, w).contains(c) ==> ((exists|i: int|
            0 <= i < p.len() && p[i] == '_' && #[trigger] w[i] == c) && !excluded.contains(c)),
{
    assert forall|c: char| #[trigger] spec_completions(p, w).contains(c) implies ((exists|i: int|
        0 <= i < p.len() && p[i] == '_' && #[trigger] w[i] == c) && !excluded.contains(c)) by {
        let i = choose|i: int| 0 <= i < p.len() && i < w.len() && p[i] == '_' && #[trigger] w[i]
            == c;
        assert(pos_ok(p, excluded, w, i));
        assert(w[i] != '_');
    }
}

} // verus!
