//! The bounded, descending-sorted tracker of the best candidates seen so far.
//!
//! The tracker holds at most its configured capacity of entries, each an
//! integer score key paired with a caller-chosen candidate handle, and keeps
//! them sorted by key, best first.  The one mutating operation is `offer`:
//! below capacity the entry is slotted into its rank; at capacity an entry no
//! better than the current worst is discarded unchanged (the fast-reject
//! path), and a better one is slotted in while the worst falls off the end.

use vstd::prelude::*;

verus! {

/// The entries of `s` are sorted by score key, best first.
pub open spec fn sorted_desc(s: Seq<(u64, usize)>) -> bool {
    forall|i: int, j: int| 0 <= i <= j < s.len() ==> (#[trigger] s[i]).0 >= (#[trigger] s[j]).0
}

/// `e` placed into the descending-sorted sequence `s`: it lands just before
/// the first entry whose key is strictly below its own, so an entry that ties
/// an existing key goes after the older holder of that key.
pub open spec fn insert_desc(s: Seq<(u64, usize)>, e: (u64, usize)) -> Seq<(u64, usize)>
    decreases s.len(),
{
    if s.len() == 0 {
        seq![e]
    } else if e.0 > s[0].0 {
        seq![e] + s
    } else {
        seq![s[0]] + insert_desc(s.drop_first(), e)
    }
}

/// What one `offer` leaves behind: `e` slotted into its rank, with the
/// sequence then cut back to `cap` entries, so that when a full tracker
/// admits a better entry its worst one falls off the end.
pub open spec fn bounded_insert(s: Seq<(u64, usize)>, e: (u64, usize), cap: nat) -> Seq<
    (u64, usize),
> {
    insert_desc(s, e).take(vstd::math::min(s.len() as int + 1, cap as int))
}

/// Placing `e` in a descending-sorted `s` at the first index whose key is
/// below `e`'s splices it in at that index.
proof fn lemma_insert_desc_at(s: Seq<(u64, usize)>, e: (u64, usize), idx: int)
    requires
        sorted_desc(s),
        0 <= idx <= s.len(),
        forall|j: int| 0 <= j < idx ==> (#[trigger] s[j]).0 >= e.0,
        idx < s.len() ==> s[idx].0 < e.0,
    ensures
        insert_desc(s, e) == s.take(idx) + seq![e] + s.skip(idx),
    decreases s.len(),
{
    if s.len() == 0 {
        assert(insert_desc(s, e) =~= s.take(idx) + seq![e] + s.skip(idx));
    } else if e.0 > s[0].0 {
        assert(idx == 0);
        assert(insert_desc(s, e) =~= s.take(0) + seq![e] + s.skip(0));
    } else {
        assert(idx >= 1);
        let t = s.drop_first();
        assert forall|i: int, j: int| 0 <= i <= j < t.len() implies (#[trigger] t[i]).0
            >= (#[trigger] t[j]).0 by {
            assert(t[i] == s[i + 1]);
            assert(t[j] == s[j + 1]);
        }
        assert forall|j: int| 0 <= j < idx - 1 implies (#[trigger] t[j]).0 >= e.0 by {
            assert(t[j] == s[j + 1]);
        }
        lemma_insert_desc_at(t, e, idx - 1);
        assert(insert_desc(s, e) =~= s.take(idx) + seq![e] + s.skip(idx));
    }
}

/// An entry no better than the worst of a descending-sorted sequence lands
/// at its very end.
proof fn lemma_insert_desc_tail(s: Seq<(u64, usize)>, e: (u64, usize))
    requires
        sorted_desc(s),
        s.len() > 0,
        e.0 <= s.last().0,
    ensures
        insert_desc(s, e) == s.push(e),
{
    lemma_insert_desc_at(s, e, s.len() as int);
    assert(s.take(s.len() as int) + seq![e] + s.skip(s.len() as int) =~= s.push(e));
}

/// Splicing an entry in at the first index whose key is below its own keeps
/// the sequence sorted.
proof fn lemma_sorted_splice(s: Seq<(u64, usize)>, e: (u64, usize), idx: int)
    requires
        sorted_desc(s),
        0 <= idx <= s.len(),
        forall|j: int| 0 <= j < idx ==> (#[trigger] s[j]).0 >= e.0,
        idx < s.len() ==> s[idx].0 < e.0,
    ensures
        sorted_desc(s.take(idx) + seq![e] + s.skip(idx)),
{
    let t = s.take(idx) + seq![e] + s.skip(idx);
    assert forall|i: int, j: int| 0 <= i <= j < t.len() implies (#[trigger] t[i]).0
        >= (#[trigger] t[j]).0 by {
        assert(t[idx] == e);
        if i < idx {
            assert(t[i] == s[i]);
        } else if i > idx {
            assert(t[i] == s[i - 1]);
        }
        if j < idx {
            assert(t[j] == s[j]);
        } else if j > idx {
            assert(t[j] == s[j - 1]);
        }
    }
}

/// A descending-sorted sequence stays sorted when cut short.
proof fn lemma_sorted_take(s: Seq<(u64, usize)>, n: int)
    requires
        sorted_desc(s),
        0 <= n <= s.len(),
    ensures
        sorted_desc(s.take(n)),
{
    assert forall|i: int, j: int| 0 <= i <= j < s.take(n).len() implies (#[trigger] s.take(
        n,
    )[i]).0 >= (#[trigger] s.take(n)[j]).0 by {
        assert(s.take(n)[i] == s[i]);
        assert(s.take(n)[j] == s[j]);
    }
}

/// A capacity-bounded shortlist of the best-scoring candidates seen so far,
/// kept sorted by score key, best first.
///
/// A candidate is represented by the pair of its score key — an integer whose
/// order mirrors the score order — and a caller-chosen handle to the full
/// candidate record.
pub struct TopNTracker {
    entries: Vec<(u64, usize)>,
    capacity: usize,
}

impl View for TopNTracker {
    type V = Seq<(u64, usize)>;

    closed spec fn view(&self) -> Seq<(u64, usize)> {
        self.entries@
    }
}

impl TopNTracker {
    /// The configured capacity: the most entries the tracker ever holds.
    pub closed spec fn cap(&self) -> nat {
        self.capacity as nat
    }

    /// The tracker never exceeds its capacity and is always sorted by score
    /// key, best first.
    pub open spec fn well_formed(&self) -> bool {
        &&& self@.len() <= self.cap()
        &&& sorted_desc(self@)
    }

    /// An empty tracker with the given capacity.
    pub fn new(capacity: usize) -> (t: TopNTracker)
        ensures
            t@ == Seq::<(u64, usize)>::empty(),
            t.cap() == capacity,
            t.well_formed(),
    {
        TopNTracker { entries: Vec::new(), capacity }
    }

    /// How many entries are currently held.
    pub fn len(&self) -> (n: usize)
        ensures
            n == self@.len(),
    {
        self.entries.len()
    }

    /// The configured capacity.
    pub fn capacity(&self) -> (c: usize)
        ensures
            c == self.cap(),
    {
        self.capacity
    }

    /// The held entries, best first.
    pub fn entries(&self) -> (v: &Vec<(u64, usize)>)
        ensures
            v@ == self@,
    {
        &self.entries
    }

    /// Insert-or-ignore: slot the offered entry into its rank, dropping the
    /// worst entry once the tracker is full.  At capacity, an offer no better
    /// than the current worst leaves the tracker exactly as it was.
    pub fn offer(&mut self, score_key: u64, candidate: usize)
        requires
            old(self).well_formed(),
        ensures
            final(self).well_formed(),
            final(self).cap() == old(self).cap(),
            final(self)@ == bounded_insert(old(self)@, (score_key, candidate), old(self).cap()),
            old(self)@.len() == old(self).cap() && old(self)@.len() > 0 && score_key <= old(
                self,
            )@.last().0 ==> final(self)@ == old(self)@,
    {
        let ghost s0 = self@;
        let ghost e = (score_key, candidate);
        let n = self.entries.len();
        if n == self.capacity {
            if n == 0 {
                proof {
                    assert(bounded_insert(s0, e, old(self).cap()) =~= s0);
                }
                return ;
            }
            if score_key <= self.entries[n - 1].0 {
                proof {
                    lemma_insert_desc_tail(s0, e);
                    assert(s0.push(e).take(s0.len() as int) =~= s0);
                }
                return ;
            }
        }
        let mut idx: usize = 0;
        while idx < self.entries.len() && self.entries[idx].0 >= score_key
            invariant
                idx <= self.entries@.len(),
                forall|j: int| 0 <= j < idx ==> (#[trigger] self.entries@[j]).0 >= score_key,
            decreases self.entries@.len() - idx,
        {
            idx = idx + 1;
        }
        proof {
            lemma_insert_desc_at(s0, e, idx as int);
            lemma_sorted_splice(s0, e, idx as int);
        }
        self.entries.insert(idx, (score_key, candidate));
        proof {
            assert(self.entries@ =~= s0.take(idx as int) + seq![e] + s0.skip(idx as int));
        }
        if self.entries.len() > self.capacity {
            let ghost full = self.entries@;
            self.entries.pop();
            proof {
                assert(self.entries@ =~= full.take(full.len() - 1));
                lemma_sorted_take(full, full.len() - 1);
                assert(self.entries@ =~= bounded_insert(s0, e, old(self).cap()));
            }
        } else {
            proof {
                assert(insert_desc(s0, e).take(s0.len() as int + 1) =~= insert_desc(s0, e));
            }
        }
    }
}

} // verus!
