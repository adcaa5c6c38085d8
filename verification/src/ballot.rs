//! Ballots and ranks.
//!
//! A `Rank` is a pair `(low, high)` of non-negative integers with the
//! invariant `low <= high`; equal bounds denote a single-position ranking.
//! A `Ballot` maps alternative names to ranks: unranked alternatives are
//! absent and names are unique. Inserting an already-present name replaces
//! its rank.

use vstd::prelude::*;

verus! {

/// A ballot entry as specifications see it: an alternative name and the
/// pair `(low, high)` of its rank.
pub type EntryV = (Seq<char>, (u64, u64));

/// A preference range for one alternative. `low <= high` always holds.
#[derive(Clone, Copy, Debug, PartialEq, Eq, Structural)]
pub struct Rank {
    low: u64,
    high: u64,
}

impl Rank {
    #[verifier::type_invariant]
    pub closed spec fn type_inv(self) -> bool {
        self.low <= self.high
    }

    pub closed spec fn spec_low(self) -> u64 {
        self.low
    }

    pub closed spec fn spec_high(self) -> u64 {
        self.high
    }

    /// The rank as specifications see it: the pair `(low, high)`.
    pub open spec fn view(self) -> (u64, u64) {
        (self.spec_low(), self.spec_high())
    }

    /// Constructing a rank fails exactly when `low > high`.
    pub fn new(low: u64, high: u64) -> (r: Option<Rank>)
        ensures
            low <= high <==> r is Some,
            r is Some ==> r->Some_0@ == (low, high),
    {
        if low <= high {
            Some(Rank { low, high })
        } else {
            None
        }
    }

    /// The single-position rank `(v, v)`.
    pub fn exact(v: u64) -> (r: Rank)
        ensures
            r@ == (v, v),
    {
        Rank { low: v, high: v }
    }

    pub fn low(&self) -> (r: u64)
        ensures
            r == self.spec_low(),
    {
        self.low
    }

    pub fn high(&self) -> (r: u64)
        ensures
            r == self.spec_high(),
    {
        self.high
    }
}

/// Index of the first entry named `name` in `s` from position `i` on,
/// or `-1` if there is none.
pub open spec fn find_name(s: Seq<EntryV>, name: Seq<char>, i: int) -> int
    decreases s.len() - i,
{
    if i < 0 || i >= s.len() {
        -1
    } else if s[i].0 == name {
        i
    } else {
        find_name(s, name, i + 1)
    }
}

/// What inserting `(name, rank)` does to a ballot's entries: replaces the
/// rank of the first entry with that name, or appends a new entry.
pub open spec fn spec_insert(s: Seq<EntryV>, name: Seq<char>, rank: (u64, u64)) -> Seq<EntryV> {
    let i = find_name(s, name, 0);
    if i >= 0 {
        s.update(i, (name, rank))
    } else {
        s.push((name, rank))
    }
}

/// All entries have valid ranks (`low <= high`).
pub open spec fn ranks_wf(s: Seq<EntryV>) -> bool {
    forall|i: int| 0 <= i < s.len() ==> #[trigger] s[i].1.0 <= s[i].1.1
}

/// No two entries share a name.
pub open spec fn names_unique(s: Seq<EntryV>) -> bool {
    forall|i: int, j: int| 0 <= i < j < s.len() ==> (#[trigger] s[i].0) != (#[trigger] s[j].0)
}

/// One client's complete set of ranked alternatives.
#[derive(Debug, PartialEq, Eq)]
pub struct Ballot {
    entries: Vec<(String, Rank)>,
}

impl Ballot {
    /// The ballot as specifications see it: its entries in insertion order.
    pub closed spec fn view(&self) -> Seq<EntryV> {
        self.entries@.map_values(|e: (String, Rank)| (e.0@, e.1@))
    }

    /// A well-formed ballot: unique names, valid ranks.
    pub open spec fn wf(&self) -> bool {
        names_unique(self@) && ranks_wf(self@)
    }

    /// The empty ballot.
    pub fn new() -> (r: Ballot)
        ensures
            r@ == Seq::<EntryV>::empty(),
            r.wf(),
    {
        let r = Ballot { entries: Vec::new() };
        proof {
            assert(r@ =~= Seq::<EntryV>::empty());
        }
        r
    }

    /// How many alternatives the ballot ranks.
    pub fn len(&self) -> (r: usize)
        ensures
            r == self@.len(),
    {
        self.entries.len()
    }

    /// The name and rank of the entry at `i`.
    pub fn entry(&self, i: usize) -> (r: (String, Rank))
        requires
            i < self@.len(),
        ensures
            (r.0@, r.1@) == self@[i as int],
    {
        let e = &self.entries[i];
        (e.0.clone(), e.1)
    }

    /// Ranks `name` at `rank`, replacing any earlier rank for that name.
    pub fn insert(&mut self, name: String, rank: Rank)
        ensures
            final(self)@ == spec_insert(old(self)@, name@, rank@),
    {
        let ghost s0 = self@;
        let n = self.entries.len();
        let mut i: usize = 0;
        while i < n
            invariant
                n == self.entries.len(),
                i <= n,
                self@ == s0,
                s0 == old(self)@,
                forall|j: int| 0 <= j < i ==> (#[trigger] s0[j].0) != name@,
            decreases n - i,
        {
            if self.entries[i].0 == name {
                proof {
                    assert(s0[i as int].0 == name@);
                    lemma_find_name_skip(s0, name@, 0, i as int);
                    assert(find_name(s0, name@, i as int) == i);
                    assert(find_name(s0, name@, 0) == i);
                }
                self.entries.set(i, (name, rank));
                proof {
                    assert(self@ =~= s0.update(i as int, (name@, rank@)));
                }
                return ;
            }
            i += 1;
        }
        proof {
            lemma_find_name_skip(s0, name@, 0, n as int);
        }
        self.entries.push((name, rank));
        proof {
            assert(self@ =~= s0.push((name@, rank@)));
        }
    }
}

/// If no entry in `s[0..i]` is named `name`, the search for `name` from 0
/// and the search from `i` agree.
pub proof fn lemma_find_name_skip(s: Seq<EntryV>, name: Seq<char>, from: int, i: int)
    requires
        0 <= from <= i <= s.len(),
        forall|j: int| from <= j < i ==> (#[trigger] s[j].0) != name,
    ensures
        find_name(s, name, from) == find_name(s, name, i),
    decreases i - from,
{
    if from < i {
        lemma_find_name_skip(s, name, from + 1, i);
    }
}

/// A negative search result means no entry bears the name, and conversely.
pub proof fn lemma_find_name_absent(s: Seq<EntryV>, name: Seq<char>, i: int)
    requires
        0 <= i <= s.len(),
    ensures
        find_name(s, name, i) == -1 <==> (forall|j: int| i <= j < s.len() ==> (#[trigger] s[j].0) != name),
        find_name(s, name, i) != -1 ==> i <= find_name(s, name, i) < s.len()
            && s[find_name(s, name, i)].0 == name,
    decreases s.len() - i,
{
    if i < s.len() {
        lemma_find_name_absent(s, name, i + 1);
    }
}

/// Inserting into a well-formed ballot keeps it well-formed.
pub proof fn lemma_insert_wf(s: Seq<EntryV>, name: Seq<char>, rank: (u64, u64))
    requires
        names_unique(s),
        ranks_wf(s),
        rank.0 <= rank.1,
    ensures
        names_unique(spec_insert(s, name, rank)),
        ranks_wf(spec_insert(s, name, rank)),
    {
    lemma_find_name_absent(s, name, 0);
    let t = spec_insert(s, name, rank);
    let i = find_name(s, name, 0);
    if i >= 0 {
        assert(s[i].0 == name);
        assert(forall|p: int| 0 <= p < t.len() ==> (#[trigger] t[p]).0 == s[p].0);
        assert(forall|p: int|
            0 <= p < t.len() ==> (#[trigger] t[p]).1 == if p == i {
                rank
            } else {
                s[p].1
            });
    }
}

} // verus!
