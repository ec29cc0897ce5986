//! The checkpoint cache: levels of the product tree keyed by their length.
//! The computation consults it before deriving a level and records each
//! level it derives above the target, so a caller can persist the entries
//! and seed a later run with them. An entry is trusted to be correct when
//! present — the store keeps no checksum — which is the `valid_for`
//! hypothesis under which the pipeline promises exact results.

use vstd::prelude::*;
use crate::big::{vals, canon_all, canonical, Big, clone_bigs};
use crate::tree::level_at;

verus! {

/// An in-memory checkpoint store. A disabled store never holds and never
/// takes an entry, and stands for running without a cache.
pub struct Cache {
    enabled: bool,
    entries: Vec<(usize, Vec<Big>)>,
}

impl Cache {
    /// Whether the store takes part in the computation.
    pub closed spec fn spec_enabled(&self) -> bool {
        self.enabled
    }

    /// The stored entries: a level length paired with the level.
    pub closed spec fn entry_seq(&self) -> Seq<(usize, Vec<Big>)> {
        self.entries@
    }

    /// Every entry holds canonical digits and is exactly the level of its
    /// recorded length over the given leaves. Presence implies correctness:
    /// nothing in the store lets this be checked, so the pipeline takes it
    /// as a hypothesis and maintains it for everything it writes.
    pub open spec fn valid_for(&self, leaves: Seq<nat>) -> bool {
        forall|j: int|
            0 <= j < self.entry_seq().len() ==> {
                let e = #[trigger] self.entry_seq()[j];
                canon_all(e.1@) && vals(e.1@) == level_at(leaves, e.0 as nat)
            }
    }

    /// A fresh store, holding nothing.
    pub fn new(enabled: bool) -> (r: Cache)
        ensures
            r.spec_enabled() == enabled,
            r.entry_seq().len() == 0,
    {
        Cache { enabled, entries: Vec::new() }
    }

    /// Whether the store takes part in the computation.
    pub fn enabled(&self) -> (r: bool)
        ensures
            r == self.spec_enabled(),
    {
        self.enabled
    }

    /// Number of entries, for a caller that persists them.
    pub fn entry_count(&self) -> (r: usize)
        ensures
            r == self.entry_seq().len(),
    {
        self.entries.len()
    }

    /// The level length of entry `j`.
    pub fn entry_len(&self, j: usize) -> (r: usize)
        requires
            j < self.entry_seq().len(),
        ensures
            r == self.entry_seq()[j as int].0,
    {
        self.entries[j].0
    }

    /// A copy of the level of entry `j`.
    pub fn entry_level(&self, j: usize) -> (r: Vec<Big>)
        requires
            j < self.entry_seq().len(),
        ensures
            r@.len() == self.entry_seq()[j as int].1@.len(),
            forall|i: int|
                0 <= i < r@.len() ==> #[trigger] r@[i]@ == self.entry_seq()[j as int].1@[i]@,
    {
        clone_bigs(&self.entries[j].1)
    }

    /// Whether entry `j` answers a lookup for `len`: the right key, the
    /// right level length, canonical digits.
    pub open spec fn entry_answers(&self, j: int, len: usize) -> bool {
        &&& (#[trigger] self.entry_seq()[j]).0 == len
        &&& self.entry_seq()[j].1@.len() == len
        &&& canon_all(self.entry_seq()[j].1@)
    }

    /// The store holds the level of length `len` over the given leaves.
    pub open spec fn holds_level(&self, len: nat, leaves: Seq<nat>) -> bool {
        exists|j: int|
            0 <= j < self.entry_seq().len() && (#[trigger] self.entry_seq()[j]).0 as nat == len
                && vals(self.entry_seq()[j].1@) == level_at(leaves, len)
    }

    /// Whether a level passes the screening a lookup applies: the
    /// requested length, canonical digits.
    fn level_screened(level: &Vec<Big>, len: usize) -> (r: bool)
        ensures
            r == (level@.len() == len && canon_all(level@)),
    {
        if level.len() != len {
            return false;
        }
        let mut i: usize = 0;
        while i < len
            invariant
                0 <= i <= len,
                level@.len() == len,
                forall|q: int| 0 <= q < i ==> (#[trigger] level@[q]).wf(),
            decreases len - i,
        {
            if !level[i].is_canonical() {
                return false;
            }
            i = i + 1;
        }
        true
    }

    /// Look a level up by its length. A hit is screened — it is returned
    /// only when it has the requested length and canonical digits, as a
    /// checkpoint that decodes to anything else is a miss — and a hit is
    /// owed whenever the enabled store holds some entry that passes the
    /// screening.
    pub fn get(&self, len: usize) -> (r: Option<Vec<Big>>)
        ensures
            match r {
                Option::Some(lvl) => self.spec_enabled() && lvl@.len() == len && canon_all(lvl@)
                    && exists|j: int|
                    0 <= j < self.entry_seq().len() && (#[trigger] self.entry_seq()[j]).0 == len
                        && vals(self.entry_seq()[j].1@) == vals(lvl@),
                Option::None => true,
            },
            (self.spec_enabled() && exists|j: int|
                0 <= j < self.entry_seq().len() && self.entry_answers(j, len)) ==> r is Some,
    {
        if !self.enabled {
            return Option::None;
        }
        let n = self.entries.len();
        let mut j: usize = 0;
        while j < n
            invariant
                0 <= j <= n,
                n == self.entries@.len(),
                self.spec_enabled(),
                forall|q: int| 0 <= q < j ==> !self.entry_answers(q, len),
            decreases n - j,
        {
            if self.entries[j].0 == len && Self::level_screened(&self.entries[j].1, len) {
                let lvl = &self.entries[j].1;
                let out = clone_bigs(lvl);
                proof {
                    assert(vals(out@) =~= vals(lvl@));
                    assert(canon_all(out@)) by {
                        assert forall|q: int| 0 <= q < out@.len() implies crate::big::canonical(
                            #[trigger] out@[q]@,
                        ) by {
                            assert(out@[q]@ == lvl@[q]@);
                            assert(canonical(lvl@[q]@));
                        }
                    }
                    assert((#[trigger] self.entry_seq()[j as int]).0 == len && vals(
                        self.entry_seq()[j as int].1@,
                    ) == vals(out@));
                }
                return Option::Some(out);
            }
            j = j + 1;
        }
        Option::None
    }

    /// Record a level under its length. A disabled store stays empty.
    pub fn put(&mut self, len: usize, level: &Vec<Big>)
        ensures
            final(self).spec_enabled() == old(self).spec_enabled(),
            !old(self).spec_enabled() ==> final(self).entry_seq() == old(self).entry_seq(),
            old(self).spec_enabled() ==> {
                &&& final(self).entry_seq().len() == old(self).entry_seq().len() + 1
                &&& forall|j: int|
                    0 <= j < old(self).entry_seq().len() ==> #[trigger] final(self).entry_seq()[j]
                        == old(self).entry_seq()[j]
                &&& final(self).entry_seq().last().0 == len
                &&& final(self).entry_seq().last().1@.len() == level@.len()
                &&& forall|i: int|
                    0 <= i < level@.len() ==> #[trigger] final(self).entry_seq().last().1@[i]@
                        == level@[i]@
            },
    {
        if self.enabled {
            let copy = clone_bigs(level);
            self.entries.push((len, copy));
        }
    }
}

/// A level the store holds is still held after the entry list grows at the
/// end.
pub proof fn lemma_holds_level_monotone(c1: Cache, c2: Cache, len: nat, leaves: Seq<nat>)
    requires
        c1.holds_level(len, leaves),
        c2.entry_seq().len() >= c1.entry_seq().len(),
        forall|j: int|
            0 <= j < c1.entry_seq().len() ==> #[trigger] c2.entry_seq()[j] == c1.entry_seq()[j],
    ensures
        c2.holds_level(len, leaves),
{
    let j = choose|j: int|
        0 <= j < c1.entry_seq().len() && (#[trigger] c1.entry_seq()[j]).0 as nat == len && vals(
            c1.entry_seq()[j].1@,
        ) == level_at(leaves, len);
    assert(c2.entry_seq()[j] == c1.entry_seq()[j]);
    assert((c2.entry_seq()[j]).0 as nat == len && vals(c2.entry_seq()[j].1@) == level_at(
        leaves,
        len,
    ));
}

} // verus!
