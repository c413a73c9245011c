//! The bounded collector that keeps the best-scoring evaluations.
use vstd::prelude::*;

use crate::attributes::{Attribute, AttributeVector, N_ATTRIBUTES};
use crate::gear::{Affix, Character, MAX_SLOTS};

verus! {

/// A copy of an evaluated character: its gear and derived attributes.
pub struct ScoredCharacter {
    pub gear: Vec<Affix>,
    pub attributes: AttributeVector,
}

/// The model of a retained entry: gear and attribute values.
pub type Entry = (Seq<Affix>, Seq<i64>);

/// The score of an entry under the ranking attribute.
pub open spec fn score_of(e: Entry, rankby: Attribute) -> i64 {
    e.1[rankby.idx()]
}

/// Entries are ordered best to worst.
pub open spec fn sorted_desc(s: Seq<Entry>, rankby: Attribute) -> bool {
    forall|i: int, j: int| 0 <= i < j < s.len() ==> score_of(s[i], rankby) >= score_of(s[j], rankby)
}

/// How many leading entries score at least `x`: where a new entry with score
/// `x` goes, after every retained entry that is as good.
pub open spec fn rank_pos(s: Seq<Entry>, x: i64, rankby: Attribute) -> int
    decreases s.len(),
{
    if s.len() == 0 {
        0
    } else if score_of(s[0], rankby) >= x {
        1 + rank_pos(s.drop_first(), x, rankby)
    } else {
        0
    }
}

/// The entries after offering `e` to a collector of capacity `cap`: with
/// room it is taken; when full it is taken only if it beats the worst entry,
/// which then leaves.
pub open spec fn spec_insert(s: Seq<Entry>, cap: nat, rankby: Attribute, e: Entry) -> Seq<Entry> {
    let x = score_of(e, rankby);
    if s.len() < cap {
        s.insert(rank_pos(s, x, rankby), e)
    } else if s.len() > 0 && x > score_of(s.last(), rankby) {
        s.drop_last().insert(rank_pos(s.drop_last(), x, rankby), e)
    } else {
        s
    }
}

/// The entries after offering each of `xs` in turn, from `s`.
pub open spec fn insert_all(s: Seq<Entry>, cap: nat, rankby: Attribute, xs: Seq<Entry>) -> Seq<Entry>
    decreases xs.len(),
{
    if xs.len() == 0 {
        s
    } else {
        spec_insert(insert_all(s, cap, rankby, xs.drop_last()), cap, rankby, xs.last())
    }
}

proof fn lemma_rank_pos(s: Seq<Entry>, x: i64, rankby: Attribute)
    ensures
        0 <= rank_pos(s, x, rankby) <= s.len(),
        forall|j: int| 0 <= j < rank_pos(s, x, rankby) ==> score_of(s[j], rankby) >= x,
        rank_pos(s, x, rankby) < s.len() ==> score_of(s[rank_pos(s, x, rankby)], rankby) < x,
    decreases s.len(),
{
    if s.len() > 0 && score_of(s[0], rankby) >= x {
        lemma_rank_pos(s.drop_first(), x, rankby);
        assert forall|j: int| 0 <= j < rank_pos(s, x, rankby) implies score_of(s[j], rankby) >= x by {
            if j > 0 {
                assert(s[j] == s.drop_first()[j - 1]);
            }
        }
    }
}

proof fn lemma_rank_pos_at(s: Seq<Entry>, x: i64, rankby: Attribute, i: int)
    requires
        0 <= i <= s.len(),
        forall|j: int| 0 <= j < i ==> score_of(s[j], rankby) >= x,
        i < s.len() ==> score_of(s[i], rankby) < x,
    ensures
        rank_pos(s, x, rankby) == i,
    decreases s.len(),
{
    if i > 0 {
        assert(score_of(s[0], rankby) >= x);
        assert forall|j: int| 0 <= j < i - 1 implies score_of(s.drop_first()[j], rankby) >= x by {
            assert(s.drop_first()[j] == s[j + 1]);
        }
        lemma_rank_pos_at(s.drop_first(), x, rankby, i - 1);
    }
}

/// Inserting at the rank position keeps the order, and every entry of the
/// result is at least `w` when `w` bounds the old entries and the new score.
proof fn lemma_insert_sorted(s: Seq<Entry>, e: Entry, rankby: Attribute, w: int)
    requires
        sorted_desc(s, rankby),
    ensures
        sorted_desc(s.insert(rank_pos(s, score_of(e, rankby), rankby), e), rankby),
        (forall|j: int| 0 <= j < s.len() ==> score_of(s[j], rankby) >= w) && score_of(e, rankby)
            >= w ==> (forall|j: int|
            0 <= j < s.len() + 1 ==> score_of(
                #[trigger] s.insert(rank_pos(s, score_of(e, rankby), rankby), e)[j],
                rankby,
            ) >= w),
{
    let x = score_of(e, rankby);
    let p = rank_pos(s, x, rankby);
    lemma_rank_pos(s, x, rankby);
    let t = s.insert(p, e);
    assert forall|j: int| 0 <= j < t.len() implies (j < p ==> t[j] == s[j]) && (j == p ==> t[j]
        == e) && (j > p ==> t[j] == s[j - 1]) by {}
    assert forall|i: int, j: int| 0 <= i < j < t.len() implies score_of(t[i], rankby) >= score_of(
        t[j],
        rankby,
    ) by {
        if j > p {
            assert(score_of(s[p], rankby) >= score_of(s[j - 1], rankby) || p == j - 1);
        }
    }
}

/// Whether offering an entry scoring `x` changes the entries.
pub open spec fn accepts(s: Seq<Entry>, cap: nat, rankby: Attribute, x: i64) -> bool {
    s.len() < cap || (s.len() > 0 && x > score_of(s.last(), rankby))
}

/// The entries after offering the first `i` of `xs` to an empty collector.
pub open spec fn state_after(cap: nat, rankby: Attribute, xs: Seq<Entry>, i: int) -> Seq<Entry> {
    insert_all(Seq::empty(), cap, rankby, xs.take(i))
}

/// The score of the worst retained entry.
pub open spec fn worst(s: Seq<Entry>, rankby: Attribute) -> i64 {
    score_of(s.last(), rankby)
}

proof fn lemma_insert_step(s: Seq<Entry>, cap: nat, rankby: Attribute, e: Entry)
    requires
        sorted_desc(s, rankby),
        s.len() <= cap,
    ensures
        ({
            let t = spec_insert(s, cap, rankby, e);
            &&& sorted_desc(t, rankby)
            &&& t.len() <= cap
            &&& (s.len() == cap && cap > 0 ==> {
                &&& t.len() == cap
                &&& worst(t, rankby) >= worst(s, rankby)
                &&& (!accepts(s, cap, rankby, score_of(e, rankby)) ==> score_of(e, rankby) <= worst(s, rankby))
            })
        }),
{
    let x = score_of(e, rankby);
    if s.len() < cap {
        lemma_insert_sorted(s, e, rankby, 0);
        lemma_rank_pos(s, x, rankby);
    } else if s.len() > 0 && x > score_of(s.last(), rankby) {
        let d = s.drop_last();
        let w = worst(s, rankby) as int;
        assert(sorted_desc(d, rankby));
        assert forall|j: int| 0 <= j < d.len() implies score_of(d[j], rankby) >= w by {
            assert(d[j] == s[j]);
        }
        lemma_insert_sorted(d, e, rankby, w);
        lemma_rank_pos(d, x, rankby);
        let t = d.insert(rank_pos(d, x, rankby), e);
        assert(score_of(t[t.len() - 1], rankby) >= w);
    }
}

/// Offered entries one after another, a collector never holds more than its
/// capacity and stays ordered best first. Once it is full it stays full, its
/// worst retained score never falls, and every entry that it turned away
/// scores no better than the worst entry it finally holds.
pub proof fn lemma_collector_bound(cap: nat, rankby: Attribute, xs: Seq<Entry>)
    ensures
        state_after(cap, rankby, xs, xs.len() as int).len() <= cap,
        sorted_desc(state_after(cap, rankby, xs, xs.len() as int), rankby),
        forall|i: int|
            0 <= i < xs.len() && cap > 0 && (#[trigger] state_after(cap, rankby, xs, i)).len() == cap
                ==> {
                &&& state_after(cap, rankby, xs, xs.len() as int).len() == cap
                &&& worst(state_after(cap, rankby, xs, xs.len() as int), rankby) >= worst(
                    state_after(cap, rankby, xs, i),
                    rankby,
                )
                &&& (!accepts(state_after(cap, rankby, xs, i), cap, rankby, score_of(xs[i], rankby))
                    ==> score_of(xs[i], rankby) <= worst(
                    state_after(cap, rankby, xs, xs.len() as int),
                    rankby,
                ))
            },
    decreases xs.len(),
{
    let n = xs.len() as int;
    assert(xs.take(n) == xs);
    if n > 0 {
        let front = xs.drop_last();
        lemma_collector_bound(cap, rankby, front);
        assert(front.take(n - 1) == front);
        assert(xs.take(n - 1) == front);
        let prev = state_after(cap, rankby, xs, n - 1);
        assert(prev == state_after(cap, rankby, front, n - 1));
        lemma_insert_step(prev, cap, rankby, xs.last());
        assert forall|i: int|
            0 <= i < xs.len() && cap > 0 && (#[trigger] state_after(cap, rankby, xs, i)).len() == cap
                implies {
                &&& state_after(cap, rankby, xs, n).len() == cap
                &&& worst(state_after(cap, rankby, xs, n), rankby) >= worst(
                    state_after(cap, rankby, xs, i),
                    rankby,
                )
                &&& (!accepts(state_after(cap, rankby, xs, i), cap, rankby, score_of(xs[i], rankby))
                    ==> score_of(xs[i], rankby) <= worst(state_after(cap, rankby, xs, n), rankby))
            } by {
            if i < n - 1 {
                assert(front.take(i) == xs.take(i));
                assert(state_after(cap, rankby, front, i) == state_after(cap, rankby, xs, i));
                assert(front[i] == xs[i]);
            } else {
                assert(xs[i] == xs.last());
            }
        }
    } else {
        assert(xs.take(0) == Seq::<Entry>::empty());
    }
}

impl View for ScoredCharacter {
    type V = Entry;

    open spec fn view(&self) -> Entry {
        (self.gear@, self.attributes@)
    }
}

/// The retained entries, best first, at most `max_results` of them.
pub struct ResultSet {
    entries: Vec<ScoredCharacter>,
    max_results: usize,
    rankby: Attribute,
}

impl View for ResultSet {
    type V = Seq<Entry>;

    closed spec fn view(&self) -> Seq<Entry> {
        self.entries@.map_values(|e: ScoredCharacter| e@)
    }
}

impl ResultSet {
    pub closed spec fn spec_max_results(&self) -> nat {
        self.max_results as nat
    }

    pub closed spec fn spec_rankby(&self) -> Attribute {
        self.rankby
    }

    /// At most `max_results` entries, best first, each a full snapshot.
    pub closed spec fn wf(&self) -> bool {
        &&& self.entries@.len() <= self.max_results
        &&& sorted_desc(self@, self.rankby)
        &&& forall|i: int|
            0 <= i < self.entries@.len() ==> (#[trigger] self.entries@[i]).attributes.wf()
    }

    pub proof fn lemma_wf(&self)
        requires
            self.wf(),
        ensures
            self@.len() <= self.spec_max_results(),
            sorted_desc(self@, self.spec_rankby()),
    {
    }

    pub fn new(rankby: Attribute, max_results: usize) -> (r: Self)
        ensures
            r.wf(),
            r@ == Seq::<Entry>::empty(),
            r.spec_rankby() == rankby,
            r.spec_max_results() == max_results,
    {
        let r = ResultSet { entries: Vec::new(), max_results, rankby };
        assert(r@ =~= Seq::<Entry>::empty());
        r
    }

    pub fn len(&self) -> (r: usize)
        ensures
            r == self@.len(),
    {
        self.entries.len()
    }

    pub fn max_results(&self) -> (r: usize)
        ensures
            r == self.spec_max_results(),
    {
        self.max_results
    }

    pub fn rankby(&self) -> (r: Attribute)
        ensures
            r == self.spec_rankby(),
    {
        self.rankby
    }

    /// The score of the entry at `i`.
    pub fn score_at(&self, i: usize) -> (r: i64)
        requires
            self.wf(),
            i < self@.len(),
        ensures
            r == score_of(self@[i as int], self.spec_rankby()),
    {
        self.entries[i].attributes.get(self.rankby)
    }

    /// The gear of the entry at `i`.
    pub fn gear_at(&self, i: usize) -> (r: &Vec<Affix>)
        requires
            i < self@.len(),
        ensures
            r@ == self@[i as int].0,
    {
        &self.entries[i].gear
    }

    /// The attributes of the entry at `i`.
    pub fn attributes_at(&self, i: usize) -> (r: &AttributeVector)
        requires
            i < self@.len(),
        ensures
            r@ == self@[i as int].1,
    {
        &self.entries[i].attributes
    }

    /// Hands out the retained entries, best first.
    pub fn into_entries(self) -> (r: Vec<ScoredCharacter>)
        ensures
            r@.map_values(|e: ScoredCharacter| e@) == self@,
    {
        self.entries
    }

    /// Where an entry scoring `x` goes.
    fn find_pos(&self, x: i64) -> (r: usize)
        requires
            self.wf(),
        ensures
            r == rank_pos(self@, x, self.spec_rankby()),
    {
        let mut i: usize = 0;
        while i < self.entries.len() && self.entries[i].attributes.get(self.rankby) >= x
            invariant
                self.wf(),
                i <= self.entries@.len(),
                forall|j: int| 0 <= j < i ==> score_of(self@[j], self.rankby) >= x,
            decreases self.entries@.len() - i,
        {
            assert(self@[i as int] == self.entries@[i as int]@);
            i = i + 1;
        }
        proof {
            if i < self.entries@.len() {
                assert(self@[i as int] == self.entries@[i as int]@);
            }
            lemma_rank_pos_at(self@, x, self.rankby, i as int);
        }
        i
    }

    /// Offers a copy of `character`, scored by its attribute `rankby`.
    pub fn insert(&mut self, character: &Character)
        requires
            old(self).wf(),
            character.wf(),
        ensures
            final(self).wf(),
            final(self).spec_rankby() == old(self).spec_rankby(),
            final(self).spec_max_results() == old(self).spec_max_results(),
            final(self)@ == spec_insert(
                old(self)@,
                old(self).spec_max_results(),
                old(self).spec_rankby(),
                (character.gear@, character.attributes@),
            ),
    {
        let ghost e: Entry = (character.gear@, character.attributes@);
        let x = character.attributes.get(self.rankby);
        let n = self.entries.len();
        if n < self.max_results {
            proof {
                lemma_insert_sorted(self@, e, self.rankby, 0);
                lemma_rank_pos(self@, x, self.rankby);
                assert(self@.len() == self.entries@.len());
            }
            let pos = self.find_pos(x);
            let snapshot = ScoredCharacter { gear: character.gear.clone(), attributes: character.attributes.clone() };
            let ghost before = self@;
            self.entries.insert(pos, snapshot);
            assert(self@ =~= before.insert(pos as int, e));
        } else if n > 0 && x > self.entries[n - 1].attributes.get(self.rankby) {
            let ghost before = self@;
            assert(before.last() == self.entries@[n - 1]@);
            let _ = self.entries.pop();
            assert(self@ =~= before.drop_last());
            proof {
                lemma_insert_sorted(self@, e, self.rankby, 0);
                lemma_rank_pos(self@, x, self.rankby);
                assert(self@.len() == self.entries@.len());
            }
            let pos = self.find_pos(x);
            let snapshot = ScoredCharacter { gear: character.gear.clone(), attributes: character.attributes.clone() };
            self.entries.insert(pos, snapshot);
            assert(self@ =~= before.drop_last().insert(pos as int, e));
        }
    }
}

} // verus!
