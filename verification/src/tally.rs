//! A per-letter counter and its ranked readout: letters ordered by
//! descending count, with ties broken alphabetically so that the ranking is
//! deterministic.

use vstd::prelude::*;

verus! {

/// The count stored for `c` in the association list `s`, or `0` where `s`
/// holds no entry for `c`.
pub open spec fn lookup(s: Seq<(char, usize)>, c: char) -> nat
    decreases s.len(),
{
    if s.len() == 0 {
        0
    } else if s[0].0 == c {
        s[0].1 as nat
    } else {
        lookup(s.drop_first(), c)
    }
}

/// No two entries of the association list share a letter.
pub open spec fn keys_distinct(s: Seq<(char, usize)>) -> bool {
    forall|i: int, j: int| 0 <= i < j < s.len() ==> (#[trigger] s[i]).0 != (#[trigger] s[j]).0
}

/// Letter `a` with count `ca` is ranked strictly before letter `b` with
/// count `cb`: a higher count wins, and equal counts fall back to
/// alphabetical order.
pub open spec fn ranked_before(ca: nat, a: char, cb: nat, b: char) -> bool {
    ca > cb || (ca == cb && (a as u32) < (b as u32))
}

/// Casting to the character's code point is injective.
pub proof fn lemma_char_cast_injective(a: char, b: char)
    requires
        a as u32 == b as u32,
    ensures
        a == b,
{
}

/// Any letter ranked before another has at least its count.
pub proof fn lemma_ranked_before_monotonic(ca: nat, a: char, cb: nat, b: char)
    requires
        ranked_before(ca, a, cb, b),
    ensures
        ca >= cb,
{
}

/// Where an entry for `c` stands at index `i` of a list with distinct
/// letters, the lookup returns that entry's count.
proof fn lemma_lookup_found(s: Seq<(char, usize)>, i: int)
    requires
        keys_distinct(s),
        0 <= i < s.len(),
    ensures
        lookup(s, s[i].0) == s[i].1 as nat,
    decreases s.len(),
{
    if i > 0 {
        assert(s[0].0 != s[i].0);
        lemma_lookup_found(s.drop_first(), i - 1);
    }
}

/// Where no entry carries the letter `c`, the lookup returns zero.
proof fn lemma_lookup_absent(s: Seq<(char, usize)>, c: char)
    requires
        forall|i: int| 0 <= i < s.len() ==> (#[trigger] s[i]).0 != c,
    ensures
        lookup(s, c) == 0,
    decreases s.len(),
{
    if s.len() > 0 {
        lemma_lookup_absent(s.drop_first(), c);
    }
}

/// Entry `x` is ranked strictly before entry `y`: the higher count first,
/// and equal counts in alphabetical order of the letter.
pub open spec fn pair_lt(x: (char, usize), y: (char, usize)) -> bool {
    x.1 > y.1 || (x.1 == y.1 && (x.0 as u32) < (y.0 as u32))
}

/// Entry `x` is ranked no later than entry `y`.
pub open spec fn pair_le(x: (char, usize), y: (char, usize)) -> bool {
    x.1 > y.1 || (x.1 == y.1 && (x.0 as u32) <= (y.0 as u32))
}

/// A transient tally of how many matching words put each letter on a blank.
pub struct Counted {
    counts: Vec<(char, usize)>,
}

impl Counted {
    /// The stored counts form an association list: one entry per letter,
    /// every stored count at least one.
    pub closed spec fn wf(&self) -> bool {
        &&& keys_distinct(self.counts@)
        &&& forall|i: int| 0 <= i < self.counts@.len() ==> (#[trigger] self.counts@[i]).1 >= 1
    }

    /// The count recorded for letter `c`; zero for a letter never counted.
    pub closed spec fn count_of(&self, c: char) -> nat {
        lookup(self.counts@, c)
    }

    /// An empty tally.
    pub fn new() -> (t: Counted)
        ensures
            t.wf(),
            forall|c: char| #[trigger] t.count_of(c) == 0,
    {
        let t = Counted { counts: Vec::new() };
        proof {
            assert forall|c: char| #[trigger] t.count_of(c) == 0 by {
                lemma_lookup_absent(t.counts@, c);
            }
        }
        t
    }

    /// Raises the count of `key` by one and leaves every other letter's
    /// count unchanged.
    pub fn inc(&mut self, key: char)
        requires
            old(self).wf(),
            old(self).count_of(key) < usize::MAX,
        ensures
            final(self).wf(),
            final(self).count_of(key) == old(self).count_of(key) + 1,
            forall|d: char| d != key ==> #[trigger] final(self).count_of(d) == old(self).count_of(
                d,
            ),
    {
        let ghost s0 = self.counts@;
        let mut i: usize = 0;
        while i < self.counts.len()
            invariant
                s0 == old(self).counts@,
                self.counts@ == s0,
                keys_distinct(s0),
                forall|j: int| 0 <= j < s0.len() ==> (#[trigger] s0[j]).1 >= 1,
                lookup(s0, key) < usize::MAX,
                i <= s0.len(),
                forall|j: int| 0 <= j < i ==> (#[trigger] s0[j]).0 != key,
            decreases s0.len() - i,
        {
            if self.counts[i].0 == key {
                let n = self.counts[i].1;
                proof {
                    lemma_lookup_found(s0, i as int);
                }
                self.counts[i] = (key, n + 1);
                proof {
                    let s1 = self.counts@;
                    assert forall|j: int, k: int|
                        0 <= j < k < s1.len() implies (#[trigger] s1[j]).0 != (#[trigger] s1[k]).0 by {
                        assert(s0[j].0 != s0[k].0);
                    }
                    assert forall|j: int| 0 <= j < s1.len() implies (#[trigger] s1[j]).1 >= 1 by {
                        assert(s0[j].1 >= 1);
                    }
                    lemma_lookup_found(s1, i as int);
                    assert forall|d: char| d != key implies #[trigger] lookup(s1, d) == lookup(
                        s0,
                        d,
                    ) by {
                        lemma_lookup_update(s0, i as int, (n + 1) as usize, d);
                    }
                }
                return ;
            }
            i += 1;
        }
        proof {
            lemma_lookup_absent(s0, key);
        }
        self.counts.push((key, 1));
        proof {
            let s1 = self.counts@;
            assert forall|j: int, k: int|
                0 <= j < k < s1.len() implies (#[trigger] s1[j]).0 != (#[trigger] s1[k]).0 by {
                if k < s0.len() {
                    assert(s0[j].0 != s0[k].0);
                } else {
                    assert(s1[k] == (key, 1usize));
                    assert(s0[j].0 != key);
                }
            }
            assert forall|j: int| 0 <= j < s1.len() implies (#[trigger] s1[j]).1 >= 1 by {
                if j < s0.len() {
                    assert(s0[j].1 >= 1);
                }
            }
            lemma_lookup_found(s1, s1.len() - 1);
            assert forall|d: char| d != key implies #[trigger] lookup(s1, d) == lookup(s0, d) by {
                lemma_lookup_push(s0, (key, 1usize), d);
            }
        }
    }
    /// The counted letters, ranked: descending count, ties in alphabetical
    /// order. The ranking holds every letter whose count is positive, each
    /// once, so it is fully determined by the tally.
    pub fn desc(self) -> (r: Vec<char>)
        requires
            self.wf(),
        ensures
            r@.no_duplicates(),
            forall|c: char| #[trigger] r@.contains(c) <==> self.count_of(c) > 0,
            forall|i: int, j: int|
                0 <= i < j < r@.len() ==> ranked_before(
                    self.count_of(r@[i]),
                    r@[i],
                    self.count_of(r@[j]),
                    r@[j],
                ),
    {
        let ghost s0 = self.counts@;
        let pairs = self.counts;
        let mut sorted: Vec<(char, usize)> = Vec::new();
        proof {
            assert(sorted@ =~= s0.take(0));
        }
        let mut i: usize = 0;
        while i < pairs.len()
            invariant
                pairs@ == s0,
                keys_distinct(s0),
                forall|j: int| 0 <= j < s0.len() ==> (#[trigger] s0[j]).1 >= 1,
                i <= s0.len(),
                sorted@.to_multiset() == s0.take(i as int).to_multiset(),
                forall|a: int, b: int|
                    0 <= a < b < sorted@.len() ==> pair_le(
                        #[trigger] sorted@[a],
                        #[trigger] sorted@[b],
                    ),
                keys_distinct(sorted@),
            decreases s0.len() - i,
        {
            let x = pairs[i];
            let k = insertion_index(&sorted, x);
            let ghost sorted0 = sorted@;
            sorted.insert(k, x);
            proof {
                vstd::seq_lib::to_multiset_insert(sorted0, k as int, x);
                assert(s0.take(i as int + 1) =~= s0.take(i as int).push(s0[i as int]));
                vstd::seq_lib::to_multiset_build(s0.take(i as int), s0[i as int]);
                assert(sorted@.to_multiset() == s0.take(i as int + 1).to_multiset());
                assert forall|m: int| 0 <= m < sorted0.len() implies (#[trigger] sorted0[m]).0
                    != x.0 by {
                    assert(sorted0.contains(sorted0[m]));
                    vstd::seq_lib::to_multiset_contains(sorted0, sorted0[m]);
                    vstd::seq_lib::to_multiset_contains(s0.take(i as int), sorted0[m]);
                    let j = choose|j: int|
                        0 <= j < s0.take(i as int).len() && s0.take(i as int)[j] == sorted0[m];
                    assert(s0[j] == sorted0[m]);
                    assert(s0[j].0 != s0[i as int].0);
                }
                sorted0.insert_ensures(k as int, x);
                assert forall|a: int, b: int|
                    0 <= a < b < sorted@.len() implies (#[trigger] sorted@[a]).0 != (
                #[trigger] sorted@[b]).0 by {
                    if a < k {
                        assert(sorted@[a] == sorted0[a]);
                    }
                    if b < k {
                        assert(sorted@[b] == sorted0[b]);
                    }
                    if a > k {
                        assert(sorted@[a] == sorted0[a - 1]);
                    }
                    if b > k {
                        assert(sorted@[b] == sorted0[b - 1]);
                    }
                }
                assert forall|a: int, b: int|
                    0 <= a < b < sorted@.len() implies pair_le(
                    #[trigger] sorted@[a],
                    #[trigger] sorted@[b],
                ) by {
                    if a < k {
                        assert(sorted@[a] == sorted0[a]);
                    }
                    if b < k {
                        assert(sorted@[b] == sorted0[b]);
                    }
                    if a > k {
                        assert(sorted@[a] == sorted0[a - 1]);
                    }
                    if b > k {
                        assert(sorted@[b] == sorted0[b - 1]);
                    }
                    if a == k && b > k && b - 1 > k {
                        assert(pair_lt(x, sorted0[k as int]));
                        assert(pair_le(sorted0[k as int], sorted0[b - 1]));
                    }
                }
            }
            i += 1;
        }
        proof {
            assert(s0.take(s0.len() as int) =~= s0);
        }
        let mut r: Vec<char> = Vec::new();
        let mut t: usize = 0;
        while t < sorted.len()
            invariant
                keys_distinct(s0),
                forall|j: int| 0 <= j < s0.len() ==> (#[trigger] s0[j]).1 >= 1,
                sorted@.to_multiset() == s0.to_multiset(),
                forall|a: int, b: int|
                    0 <= a < b < sorted@.len() ==> pair_le(
                        #[trigger] sorted@[a],
                        #[trigger] sorted@[b],
                    ),
                keys_distinct(sorted@),
                t <= sorted@.len(),
                r@.len() == t,
                forall|m: int| 0 <= m < t ==> r@[m] == (#[trigger] sorted@[m]).0,
            decreases sorted@.len() - t,
        {
            let p = sorted[t];
            r.push(p.0);
            t += 1;
        }
        proof {
            assert forall|m: int|
                0 <= m < sorted@.len() implies lookup(s0, (#[trigger] sorted@[m]).0)
                == sorted@[m].1 as nat && sorted@[m].1 >= 1 by {
                assert(sorted@.contains(sorted@[m]));
                vstd::seq_lib::to_multiset_contains(sorted@, sorted@[m]);
                vstd::seq_lib::to_multiset_contains(s0, sorted@[m]);
                let j = choose|j: int| 0 <= j < s0.len() && s0[j] == sorted@[m];
                lemma_lookup_found(s0, j);
            }
            assert forall|c: char| #[trigger] r@.contains(c) implies lookup(s0, c) > 0 by {
                let m = choose|m: int| 0 <= m < r@.len() && r@[m] == c;
                assert(sorted@[m].0 == c);
            }
            assert forall|c: char| lookup(s0, c) > 0 implies #[trigger] r@.contains(c) by {
                if exists|j: int| 0 <= j < s0.len() && (#[trigger] s0[j]).0 == c {
                    let j = choose|j: int| 0 <= j < s0.len() && (#[trigger] s0[j]).0 == c;
                    assert(s0.contains(s0[j]));
                    vstd::seq_lib::to_multiset_contains(s0, s0[j]);
                    vstd::seq_lib::to_multiset_contains(sorted@, s0[j]);
                    let m = choose|m: int| 0 <= m < sorted@.len() && sorted@[m] == s0[j];
                    assert(r@[m] == c);
                } else {
                    lemma_lookup_absent(s0, c);
                }
            }
            assert forall|a: int, b: int|
                0 <= a < b < r@.len() implies ranked_before(
                lookup(s0, r@[a]),
                r@[a],
                lookup(s0, r@[b]),
                r@[b],
            ) by {
                assert(pair_le(sorted@[a], sorted@[b]));
                assert(sorted@[a].0 != sorted@[b].0);
                assert(r@[a] == sorted@[a].0 && r@[b] == sorted@[b].0);
                assert(lookup(s0, r@[a]) == sorted@[a].1 as nat);
                assert(lookup(s0, r@[b]) == sorted@[b].1 as nat);
                if sorted@[a].1 == sorted@[b].1 {
                    assert((sorted@[a].0 as u32) <= (sorted@[b].0 as u32));
                    if (sorted@[a].0 as u32) == (sorted@[b].0 as u32) {
                        lemma_char_cast_injective(sorted@[a].0, sorted@[b].0);
                    }
                }
            }
            assert forall|a: int, b: int|
                0 <= a < r@.len() && 0 <= b < r@.len() && a != b implies r@[a] != r@[b] by {
                if a < b {
                    assert(sorted@[a].0 != sorted@[b].0);
                } else {
                    assert(sorted@[b].0 != sorted@[a].0);
                }
            }
            assert(r@.no_duplicates());
        }
        r
    }
}

/// The first position of `sorted` whose entry is ranked after `x`, or the
/// length of `sorted` where no entry is.
fn insertion_index(sorted: &Vec<(char, usize)>, x: (char, usize)) -> (k: usize)
    ensures
        k <= sorted@.len(),
        forall|m: int| 0 <= m < k ==> !pair_lt(x, #[trigger] sorted@[m]),
        k < sorted@.len() ==> pair_lt(x, sorted@[k as int]),
{
    let mut k: usize = 0;
    while k < sorted.len()
        invariant
            k <= sorted@.len(),
            forall|m: int| 0 <= m < k ==> !pair_lt(x, #[trigger] sorted@[m]),
        decreases sorted@.len() - k,
    {
        let y = sorted[k];
        if x.1 > y.1 || (x.1 == y.1 && (x.0 as u32) < (y.0 as u32)) {
            return k;
        }
        k += 1;
    }
    k
}

/// Changing the count stored at one index, with its letter kept, leaves the
/// lookup of every other letter unchanged.
proof fn lemma_lookup_update(s: Seq<(char, usize)>, i: int, n: usize, d: char)
    requires
        0 <= i < s.len(),
        s[i].0 != d,
    ensures
        lookup(s.update(i, (s[i].0, n)), d) == lookup(s, d),
    decreases s.len(),
{
    let s1 = s.update(i, (s[i].0, n));
    if i == 0 {
        assert(s1.drop_first() =~= s.drop_first());
    } else if s[0].0 == d {
        assert(s1[0] == s[0]);
    } else {
        assert(s1.drop_first() =~= s.drop_first().update(i - 1, (s.drop_first()[i - 1].0, n)));
        lemma_lookup_update(s.drop_first(), i - 1, n, d);
    }
}

/// Appending an entry for another letter leaves the lookup of `d` unchanged.
proof fn lemma_lookup_push(s: Seq<(char, usize)>, p: (char, usize), d: char)
    requires
        p.0 != d,
    ensures
        lookup(s.push(p), d) == lookup(s, d),
    decreases s.len(),
{
    if s.len() == 0 {
        assert(s.push(p)[0] == p);
        assert(s.push(p).drop_first() =~= Seq::<(char, usize)>::empty());
        assert(lookup(Seq::<(char, usize)>::empty(), d) == 0);
    } else {
        assert(s.push(p)[0] == s[0]);
        assert(s.push(p).drop_first() =~= s.drop_first().push(p));
        lemma_lookup_push(s.drop_first(), p, d);
    }
}

} // verus!
