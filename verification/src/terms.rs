//! Sets of terms kept in lexicographic order. A vocabulary is such a set:
//! the index of a term is its rank in the order.

use vstd::prelude::*;
use crate::text::{chars_of, string_of};

verus! {

/// Whether `a` and `b` agree on their first `k` characters.
pub open spec fn agree_upto(a: Seq<char>, b: Seq<char>, k: int) -> bool {
    0 <= k <= a.len() && k <= b.len() && forall|i: int| 0 <= i < k ==> a[i] == b[i]
}

/// Whether `a` and `b` first part at position `k`, in favour of `a`: there
/// `a` has ended and `b` has not, or `a` holds the smaller character.
pub open spec fn parts_at(a: Seq<char>, b: Seq<char>, k: int) -> bool {
    agree_upto(a, b, k) && k < b.len() && (k == a.len() || (a[k] as int) < (b[k] as int))
}

/// Lexicographic order on terms, by character code: `a` comes strictly
/// before `b`.
pub open spec fn lex_lt(a: Seq<char>, b: Seq<char>) -> bool {
    exists|k: int| parts_at(a, b, k)
}

/// Whether the terms of `s` stand in strictly increasing order.
pub open spec fn strictly_sorted(s: Seq<Seq<char>>) -> bool {
    forall|i: int, j: int| 0 <= i < j < s.len() ==> lex_lt(#[trigger] s[i], #[trigger] s[j])
}

/// No term comes before itself.
pub proof fn lemma_lex_irreflexive(a: Seq<char>)
    ensures
        !lex_lt(a, a),
{
}

/// The order is transitive.
pub proof fn lemma_lex_transitive(a: Seq<char>, b: Seq<char>, c: Seq<char>)
    requires
        lex_lt(a, b),
        lex_lt(b, c),
    ensures
        lex_lt(a, c),
{
    let k1 = choose|k: int| parts_at(a, b, k);
    let k2 = choose|k: int| parts_at(b, c, k);
    if k1 <= k2 {
        assert(parts_at(a, c, k1));
    } else {
        assert(parts_at(a, c, k2));
    }
}

/// Of two different terms one comes before the other.
pub proof fn lemma_lex_total(a: Seq<char>, b: Seq<char>)
    ensures
        a == b || lex_lt(a, b) || lex_lt(b, a),
{
    lemma_first_difference(a, b, 0);
}

/// Two terms that agree on their first `k` characters are the same, or
/// one comes before the other.
proof fn lemma_first_difference(a: Seq<char>, b: Seq<char>, k: int)
    requires
        agree_upto(a, b, k),
    ensures
        a == b || lex_lt(a, b) || lex_lt(b, a),
    decreases a.len() - k,
{
    if k == a.len() {
        if k == b.len() {
            assert(a =~= b);
        } else {
            assert(parts_at(a, b, k));
        }
    } else if k == b.len() {
        assert(parts_at(b, a, k));
    } else if a[k] == b[k] {
        lemma_first_difference(a, b, k + 1);
    } else if (a[k] as int) < (b[k] as int) {
        assert(parts_at(a, b, k));
    } else {
        assert(agree_upto(b, a, k));
        assert(parts_at(b, a, k));
    }
}

/// A strictly sorted sequence holds no term twice.
pub proof fn lemma_sorted_no_duplicates(s: Seq<Seq<char>>)
    requires
        strictly_sorted(s),
    ensures
        s.no_duplicates(),
{
    assert forall|i: int, j: int| 0 <= i < s.len() && 0 <= j < s.len() && i != j implies s[i]
        != s[j] by {
        lemma_lex_irreflexive(s[i]);
        if i < j {
            assert(lex_lt(s[i], s[j]));
        } else {
            assert(lex_lt(s[j], s[i]));
        }
    }
}

/// The smallest term of a sorted sequence is its first: a sorted sequence
/// that holds `t` starts with `t` or with a term before `t`.
proof fn lemma_first_is_least(s: Seq<Seq<char>>, t: Seq<char>)
    requires
        strictly_sorted(s),
        s.contains(t),
    ensures
        s[0] == t || lex_lt(s[0], t),
{
    let i = choose|i: int| 0 <= i < s.len() && s[i] == t;
    if i > 0 {
        assert(lex_lt(s[0], s[i]));
    }
}

/// A set of terms has one sorted sequence only: two strictly sorted
/// sequences that hold the same terms are the same sequence, so every term
/// has the same index in both.
pub proof fn lemma_sorted_unique(a: Seq<Seq<char>>, b: Seq<Seq<char>>)
    requires
        strictly_sorted(a),
        strictly_sorted(b),
        forall|t: Seq<char>| a.contains(t) <==> b.contains(t),
    ensures
        a == b,
    decreases a.len(),
{
    if a.len() == 0 {
        if b.len() > 0 {
            assert(b.contains(b[0]));
        }
        assert(a =~= b);
    } else if b.len() == 0 {
        assert(a.contains(a[0]));
    } else {
        assert(a.contains(a[0]));
        assert(b.contains(b[0]));
        lemma_first_is_least(a, b[0]);
        lemma_first_is_least(b, a[0]);
        if a[0] != b[0] {
            lemma_asymmetric(a[0], b[0]);
        }
        let ra = a.drop_first();
        let rb = b.drop_first();
        assert forall|i: int, j: int| 0 <= i < j < ra.len() implies lex_lt(
            #[trigger] ra[i],
            #[trigger] ra[j],
        ) by {
            assert(lex_lt(a[i + 1], a[j + 1]));
        }
        assert forall|i: int, j: int| 0 <= i < j < rb.len() implies lex_lt(
            #[trigger] rb[i],
            #[trigger] rb[j],
        ) by {
            assert(lex_lt(b[i + 1], b[j + 1]));
        }
        assert forall|t: Seq<char>| ra.contains(t) <==> rb.contains(t) by {
            lemma_rest_contains(a, t);
            lemma_rest_contains(b, t);
        }
        lemma_sorted_unique(ra, rb);
        assert(a =~= seq![a[0]] + ra);
        assert(b =~= seq![b[0]] + rb);
    }
}

/// What a sorted sequence holds after its first term is what it holds
/// apart from that term.
proof fn lemma_rest_contains(s: Seq<Seq<char>>, t: Seq<char>)
    requires
        strictly_sorted(s),
        s.len() > 0,
    ensures
        s.drop_first().contains(t) <==> (s.contains(t) && t != s[0]),
{
    let rest = s.drop_first();
    if rest.contains(t) {
        let i = choose|i: int| 0 <= i < rest.len() && rest[i] == t;
        assert(s[i + 1] == t);
        assert(lex_lt(s[0], s[i + 1]));
        lemma_asymmetric(s[0], t);
    }
    if s.contains(t) && t != s[0] {
        let i = choose|i: int| 0 <= i < s.len() && s[i] == t;
        assert(rest[i - 1] == t);
    }
}

/// How two terms stand to each other in the order.
#[derive(Clone, Copy, Debug, PartialEq, Eq, Structural)]
pub enum TermOrder {
    Before,
    Same,
    After,
}

/// Compares two terms in lexicographic order.
pub fn lex_order(a: &[char], b: &[char]) -> (r: TermOrder)
    ensures
        r == TermOrder::Before <==> lex_lt(a@, b@),
        r == TermOrder::Same <==> a@ == b@,
        r == TermOrder::After <==> lex_lt(b@, a@),
{
    let mut k: usize = 0;
    proof {
        lemma_lex_irreflexive(a@);
    }
    while k < a.len() && k < b.len()
        invariant
            agree_upto(a@, b@, k as int),
        decreases a@.len() - k,
    {
        let x = a[k];
        let y = b[k];
        if x < y {
            assert(parts_at(a@, b@, k as int));
            proof {
                lemma_asymmetric(a@, b@);
            }
            return TermOrder::Before;
        }
        if y < x {
            assert(agree_upto(b@, a@, k as int));
            assert(parts_at(b@, a@, k as int));
            proof {
                lemma_asymmetric(b@, a@);
            }
            return TermOrder::After;
        }
        k += 1;
    }
    if k < b.len() {
        assert(parts_at(a@, b@, k as int));
        proof {
            lemma_asymmetric(a@, b@);
        }
        TermOrder::Before
    } else if k < a.len() {
        assert(agree_upto(b@, a@, k as int));
        assert(parts_at(b@, a@, k as int));
        proof {
            lemma_asymmetric(b@, a@);
        }
        TermOrder::After
    } else {
        assert(a@ =~= b@);
        TermOrder::Same
    }
}

/// A term that comes before another is different from it and does not come
/// after it.
pub proof fn lemma_asymmetric(a: Seq<char>, b: Seq<char>)
    requires
        lex_lt(a, b),
    ensures
        a != b,
        !lex_lt(b, a),
{
    lemma_lex_irreflexive(a);
    if lex_lt(b, a) {
        lemma_lex_transitive(a, b, a);
    }
}


/// Terms that ascend from each to the next ascend throughout.
proof fn lemma_neighbours_sorted(s: Seq<Seq<char>>, j: int, k: int)
    requires
        forall|i: int| 0 <= i < s.len() - 1 ==> lex_lt(#[trigger] s[i], s[i + 1]),
        0 <= j < k < s.len(),
    ensures
        lex_lt(s[j], s[k]),
    decreases k - j,
{
    if j + 1 < k {
        lemma_neighbours_sorted(s, j + 1, k);
        lemma_lex_transitive(s[j], s[j + 1], s[k]);
    }
}

/// What a vector of written terms holds, as sequences of characters.
pub open spec fn written_terms(terms: Seq<String>) -> Seq<Seq<char>> {
    terms.map_values(|t: String| t@)
}

/// Written out and read back, a vocabulary is what it was: a term set
/// that holds exactly the terms of another holds them with the same
/// indices.
pub proof fn lemma_terms_round_trip(saved: TermSet, loaded: TermSet)
    requires
        saved.wf(),
        loaded.wf(),
        forall|t: Seq<char>| loaded.has(t) <==> saved.has(t),
    ensures
        loaded@ == saved@,
{
    assert forall|t: Seq<char>| loaded@.contains(t) <==> saved@.contains(t) by {
        assert(loaded.has(t) <==> saved.has(t));
    }
    lemma_sorted_unique(loaded@, saved@);
}

/// A finite set of terms, held in strictly increasing lexicographic order.
pub struct TermSet {
    terms: Vec<Vec<char>>,
}

impl View for TermSet {
    type V = Seq<Seq<char>>;

    /// The terms in their order.
    closed spec fn view(&self) -> Seq<Seq<char>> {
        self.terms@.map_values(|t: Vec<char>| t@)
    }
}

impl TermSet {
    /// The terms stand in strictly increasing order, so none occurs twice.
    pub open spec fn wf(&self) -> bool {
        strictly_sorted(self@)
    }

    /// Whether `term` is in the set.
    pub open spec fn has(&self, term: Seq<char>) -> bool {
        self@.contains(term)
    }

    /// The empty set.
    pub fn new() -> (set: TermSet)
        ensures
            set.wf(),
            set@ == Seq::<Seq<char>>::empty(),
    {
        let set = TermSet { terms: Vec::new() };
        assert(set@ =~= Seq::<Seq<char>>::empty());
        set
    }

    /// The number of terms.
    pub fn len(&self) -> (n: usize)
        ensures
            n == self@.len(),
    {
        self.terms.len()
    }

    /// The term of index `i`.
    pub fn term(&self, i: usize) -> (term: String)
        requires
            i < self@.len(),
        ensures
            term@ == self@[i as int],
    {
        string_of(self.terms[i].as_slice())
    }

    /// Tells whether the set is well formed.
    pub fn is_well_formed(&self) -> (r: bool)
        ensures
            r == self.wf(),
    {
        let mut i: usize = 1;
        while i < self.terms.len()
            invariant
                1 <= i,
                self@.len() == self.terms@.len(),
                forall|k: int| 0 <= k < i - 1 ==> lex_lt(#[trigger] self@[k], self@[k + 1]),
            decreases self.terms@.len() - i,
        {
            assert(self@[i - 1] == self.terms@[i - 1]@);
            assert(self@[i as int] == self.terms@[i as int]@);
            match lex_order(self.terms[i - 1].as_slice(), self.terms[i].as_slice()) {
                TermOrder::Before => {},
                _ => {
                    return false;
                },
            }
            i += 1;
        }
        proof {
            assert forall|j: int, k: int| 0 <= j < k < self@.len() implies lex_lt(
                #[trigger] self@[j],
                #[trigger] self@[k],
            ) by {
                lemma_neighbours_sorted(self@, j, k);
            }
        }
        true
    }

    /// The terms in their order, as they are written to a cache.
    pub fn terms(&self) -> (terms: Vec<String>)
        ensures
            written_terms(terms@) == self@,
    {
        let mut terms: Vec<String> = Vec::new();
        let mut i: usize = 0;
        while i < self.terms.len()
            invariant
                i <= self.terms@.len(),
                self@.len() == self.terms@.len(),
                written_terms(terms@) == self@.take(i as int),
            decreases self.terms@.len() - i,
        {
            let ghost before = terms@;
            let term = string_of(self.terms[i].as_slice());
            terms.push(term);
            proof {
                assert(self@[i as int] == self.terms@[i as int]@);
                assert(written_terms(terms@) =~= written_terms(before).push(self@[i as int]));
                assert(self@.take(i + 1) =~= self@.take(i as int).push(self@[i as int]));
            }
            i += 1;
        }
        assert(self@.take(i as int) =~= self@);
        terms
    }

    /// The set of the given terms, as it is read from a cache. Terms that
    /// were written by `terms` give the set they were written from, each
    /// term with the index it had.
    pub fn from_terms(terms: &Vec<String>) -> (set: TermSet)
        ensures
            set.wf(),
            forall|t: Seq<char>| set.has(t) <==> written_terms(terms@).contains(t),
            strictly_sorted(written_terms(terms@)) ==> set@ == written_terms(terms@),
    {
        let ghost all = written_terms(terms@);
        let mut set = TermSet::new();
        let mut i: usize = 0;
        while i < terms.len()
            invariant
                i <= terms@.len(),
                set.wf(),
                all == written_terms(terms@),
                forall|t: Seq<char>| set.has(t) <==> all.take(i as int).contains(t),
            decreases terms@.len() - i,
        {
            let ghost before = set;
            let term = chars_of(terms[i].as_str());
            set.insert(term);
            proof {
                let seen = all.take(i as int);
                let seen_next = all.take(i + 1);
                assert(all[i as int] == terms@[i as int]@);
                assert(seen_next =~= seen.push(all[i as int]));
                assert forall|t: Seq<char>| set.has(t) <==> seen_next.contains(t) by {
                    assert(before.has(t) <==> seen.contains(t));
                    if seen.contains(t) {
                        let k = choose|k: int| 0 <= k < seen.len() && seen[k] == t;
                        assert(seen_next[k] == t);
                    }
                    if seen_next.contains(t) {
                        let k = choose|k: int| 0 <= k < seen_next.len() && seen_next[k] == t;
                        if k < i {
                            assert(seen[k] == t);
                        }
                    }
                    if t == all[i as int] {
                        assert(seen_next[i as int] == t);
                    }
                }
            }
            i += 1;
        }
        proof {
            assert(all.take(i as int) =~= all);
            assert forall|t: Seq<char>| set@.contains(t) <==> all.contains(t) by {
                assert(set.has(t) <==> all.take(i as int).contains(t));
            }
            if strictly_sorted(all) {
                lemma_sorted_unique(set@, all);
            }
        }
        set
    }

    /// Where `term` stands or would stand: every term before the returned
    /// index comes before `term`, none from there on does, and the flag
    /// says whether `term` itself stands there.
    fn locate(&self, term: &[char]) -> (r: (usize, bool))
        requires
            self.wf(),
        ensures
            r.0 <= self@.len(),
            forall|i: int| 0 <= i < r.0 ==> lex_lt(#[trigger] self@[i], term@),
            forall|i: int| r.0 <= i < self@.len() ==> !lex_lt(#[trigger] self@[i], term@),
            r.1 == self.has(term@),
            r.1 ==> r.0 < self@.len() && self@[r.0 as int] == term@,
    {
        let mut low: usize = 0;
        let mut high: usize = self.terms.len();
        while low < high
            invariant
                self.wf(),
                low <= high <= self@.len(),
                self@.len() == self.terms@.len(),
                forall|i: int| 0 <= i < low ==> lex_lt(#[trigger] self@[i], term@),
                forall|i: int| high <= i < self@.len() ==> lex_lt(term@, #[trigger] self@[i]),
            decreases high - low,
        {
            let mid = low + (high - low) / 2;
            assert(self@[mid as int] == self.terms@[mid as int]@);
            match lex_order(self.terms[mid].as_slice(), term) {
                TermOrder::Before => {
                    assert forall|i: int| 0 <= i < mid + 1 implies lex_lt(
                        #[trigger] self@[i],
                        term@,
                    ) by {
                        if i < mid {
                            lemma_lex_transitive(self@[i], self@[mid as int], term@);
                        }
                    }
                    low = mid + 1;
                },
                TermOrder::Same => {
                    assert forall|i: int| mid <= i < self@.len() implies !lex_lt(
                        #[trigger] self@[i],
                        term@,
                    ) by {
                        lemma_lex_irreflexive(term@);
                        if i > mid {
                            lemma_asymmetric(self@[mid as int], self@[i]);
                        }
                    }
                    assert forall|i: int| 0 <= i < mid implies lex_lt(
                        #[trigger] self@[i],
                        term@,
                    ) by {}
                    return (mid, true);
                },
                TermOrder::After => {
                    assert forall|i: int| mid <= i < self@.len() implies lex_lt(
                        term@,
                        #[trigger] self@[i],
                    ) by {
                        if i > mid {
                            lemma_lex_transitive(term@, self@[mid as int], self@[i]);
                        }
                    }
                    high = mid;
                },
            }
        }
        proof {
            assert forall|i: int| low <= i < self@.len() implies !lex_lt(
                #[trigger] self@[i],
                term@,
            ) by {
                lemma_asymmetric(term@, self@[i]);
            }
            if self.has(term@) {
                let i = choose|i: int| 0 <= i < self@.len() && self@[i] == term@;
                lemma_lex_irreflexive(term@);
                if i < low {
                    assert(lex_lt(self@[i], term@));
                } else {
                    assert(lex_lt(term@, self@[i]));
                }
            }
        }
        (low, false)
    }

    /// The index of `term`, if the set holds it.
    pub fn position(&self, term: &[char]) -> (r: Option<usize>)
        requires
            self.wf(),
        ensures
            r is Some <==> self.has(term@),
            r is Some ==> r->0 < self@.len() && self@[r->0 as int] == term@,
    {
        let (at, found) = self.locate(term);
        if found {
            Some(at)
        } else {
            None
        }
    }

    /// The index of the term written `term`, if the set holds it.
    pub fn index_of(&self, term: &str) -> (r: Option<usize>)
        requires
            self.wf(),
        ensures
            r is Some <==> self.has(term@),
            r is Some ==> r->0 < self@.len() && self@[r->0 as int] == term@,
    {
        let chars = chars_of(term);
        self.position(chars.as_slice())
    }

    /// Whether the set holds the term written `term`.
    pub fn contains(&self, term: &str) -> (r: bool)
        requires
            self.wf(),
        ensures
            r == self.has(term@),
    {
        self.index_of(term).is_some()
    }

    /// Adds `term` to the set, at its place in the order. Returns whether
    /// the term was new.
    pub fn insert(&mut self, term: Vec<char>) -> (added: bool)
        requires
            old(self).wf(),
        ensures
            final(self).wf(),
            added == !old(self).has(term@),
            forall|t: Seq<char>| final(self).has(t) <==> (old(self).has(t) || t == term@),
            !added ==> final(self)@ == old(self)@,
            added ==> final(self)@.len() == old(self)@.len() + 1,
    {
        let (at, found) = self.locate(term.as_slice());
        if found {
            return false;
        }
        let ghost before = self@;
        let ghost t = term@;
        self.terms.insert(at, term);
        proof {
            assert(self@ =~= before.insert(at as int, t));
            assert forall|i: int, j: int| 0 <= i < j < self@.len() implies lex_lt(
                #[trigger] self@[i],
                #[trigger] self@[j],
            ) by {
                if j < at {
                    assert(lex_lt(before[i], before[j]));
                } else if j == at {
                    assert(lex_lt(before[i], t));
                } else if i < at {
                    assert(lex_lt(before[i], before[j - 1]));
                } else if i == at {
                    assert(!lex_lt(before[j - 1], t));
                    assert(!before.contains(t));
                    assert(before[j - 1] != t);
                    lemma_lex_total(before[j - 1], t);
                } else {
                    assert(lex_lt(before[i - 1], before[j - 1]));
                }
            }
            assert forall|x: Seq<char>| self.has(x) <==> (before.contains(x) || x == t) by {
                if self.has(x) {
                    let i = choose|i: int| 0 <= i < self@.len() && self@[i] == x;
                    if i < at {
                        assert(before[i] == x);
                    } else if i > at {
                        assert(before[i - 1] == x);
                    }
                }
                if before.contains(x) {
                    let i = choose|i: int| 0 <= i < before.len() && before[i] == x;
                    if i < at {
                        assert(self@[i] == x);
                    } else {
                        assert(self@[i + 1] == x);
                    }
                }
                if x == t {
                    assert(self@[at as int] == x);
                }
            }
        }
        true
    }
}

} // verus!
