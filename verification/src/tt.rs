//! The transposition table: search results remembered by position hash.
use vstd::prelude::*;
use crate::moves::Move;

verus! {

/// What a stored score says about the true score.
#[derive(Debug, Clone, Copy, PartialEq, Eq, Structural)]
pub enum TTFlag {
    Exact,
    /// A beta cutoff: the score is at least this.
    LowerBound,
    /// Every move failed low: the score is at most this.
    UpperBound,
}

/// One remembered search result.
#[derive(Debug, Clone, Copy)]
pub struct TTEntry {
    pub hash: u64,
    pub depth: u8,
    pub score: i32,
    pub flag: TTFlag,
    pub best_move: Option<Move>,
}

/// The entry of a slot never written.
pub open spec fn empty_entry() -> TTEntry {
    TTEntry { hash: 0, depth: 0, score: 0, flag: TTFlag::Exact, best_move: None }
}

impl TTEntry {
    fn empty() -> (e: TTEntry)
        ensures
            e == empty_entry(),
    {
        TTEntry { hash: 0, depth: 0, score: 0, flag: TTFlag::Exact, best_move: None }
    }
}

/// A fixed number of slots; a hash is kept in the slot its value modulo the size picks.
#[derive(Debug)]
pub struct TranspositionTable {
    entries: Vec<TTEntry>,
    size: usize,
}

/// The slot of `hash` in a table of `size` slots.
pub open spec fn slot(hash: u64, size: usize) -> int {
    (hash as usize) as int % (size as int)
}

/// What a probe finds in an entry: the stored score and move when the entry is for `hash`,
/// was searched at least `depth` deep, and its score is usable for the window: exact, a
/// lower bound at or above `beta`, or an upper bound at or below `alpha`.
pub open spec fn probe_entry(e: TTEntry, hash: u64, depth: u8, alpha: i32, beta: i32) -> Option<(i32, Option<Move>)> {
    if e.hash != hash || e.depth < depth {
        None
    } else {
        match e.flag {
            TTFlag::Exact => Some((e.score, e.best_move)),
            TTFlag::LowerBound => if e.score >= beta {
                Some((e.score, e.best_move))
            } else {
                None
            },
            TTFlag::UpperBound => if e.score <= alpha {
                Some((e.score, e.best_move))
            } else {
                None
            },
        }
    }
}

impl TranspositionTable {
    /// The entries, slot by slot.
    pub closed spec fn entries(&self) -> Seq<TTEntry> {
        self.entries@
    }

    /// The number of slots.
    pub closed spec fn slots(&self) -> usize {
        self.size
    }

    /// The table holds one entry per slot.
    pub closed spec fn wf(&self) -> bool {
        self.entries@.len() == self.size
    }

    /// A well-formed table has one entry per slot.
    pub proof fn lemma_wf_len(&self)
        requires
            self.wf(),
        ensures
            self.entries().len() == self.slots(),
    {
    }

    /// A table of `mb` mebibytes: as many empty slots as entries fit in that space (none for
    /// a zero-sized entry type, which this entry is not).
    pub fn new(mb: usize) -> (t: Self)
        requires
            mb * 1048576 <= usize::MAX,
        ensures
            t.wf(),
            t.slots() as int == (if vstd::layout::size_of::<TTEntry>() > 0 {
                (mb * 1048576) / (vstd::layout::size_of::<TTEntry>() as int)
            } else {
                0
            }),
            forall|i: int| 0 <= i < t.slots() ==> #[trigger] t.entries()[i] == empty_entry(),
    {
        let bytes = mb * 1024 * 1024;
        let entry_size = core::mem::size_of::<TTEntry>();
        let size = if entry_size > 0 {
            bytes / entry_size
        } else {
            0
        };
        let entries = vec![TTEntry::empty(); size];
        TranspositionTable { entries, size }
    }

    /// The number of slots, for callers that must check there is one before probing.
    pub fn slot_count(&self) -> (r: usize)
        ensures
            r == self.slots(),
    {
        self.size
    }

    /// The stored score and move for `hash`, if the entry for its slot is usable for a
    /// search of `depth` with the window `alpha`..`beta`.
    pub fn probe(&self, hash: u64, depth: u8, alpha: i32, beta: i32) -> (r: Option<(i32, Option<Move>)>)
        requires
            self.wf(),
            self.slots() > 0,
        ensures
            r == probe_entry(self.entries()[slot(hash, self.slots())], hash, depth, alpha, beta),
    {
        let entry = &self.entries[(hash as usize) % self.size];
        if entry.hash != hash {
            return None;
        }
        if entry.depth < depth {
            return None;
        }
        let score = match entry.flag {
            TTFlag::Exact => entry.score,
            TTFlag::LowerBound => {
                if entry.score >= beta {
                    entry.score
                } else {
                    return None;
                }
            },
            TTFlag::UpperBound => {
                if entry.score <= alpha {
                    entry.score
                } else {
                    return None;
                }
            },
        };
        Some((score, entry.best_move))
    }

    /// The move stored for `hash`, if its slot holds an entry for it.
    pub fn probe_move(&self, hash: u64) -> (r: Option<Move>)
        requires
            self.wf(),
            self.slots() > 0,
        ensures
            r == (if self.entries()[slot(hash, self.slots())].hash == hash {
                self.entries()[slot(hash, self.slots())].best_move
            } else {
                None
            }),
    {
        let entry = &self.entries[(hash as usize) % self.size];
        if entry.hash != hash {
            return None;
        }
        entry.best_move
    }

    /// Stores a result in the slot of `hash`, replacing its entry only when the new result
    /// comes from a deeper search.
    pub fn store(&mut self, hash: u64, depth: u8, score: i32, flag: TTFlag, best_move: Option<Move>)
        requires
            old(self).wf(),
            old(self).slots() > 0,
        ensures
            final(self).wf(),
            final(self).slots() == old(self).slots(),
            final(self).entries() == (if old(self).entries()[slot(hash, old(self).slots())].depth < depth {
                old(self).entries().update(
                    slot(hash, old(self).slots()),
                    TTEntry { hash, depth, score, flag, best_move },
                )
            } else {
                old(self).entries()
            }),
    {
        let idx = (hash as usize) % self.size;
        if self.entries[idx].depth < depth {
            self.entries.set(idx, TTEntry { hash, depth, score, flag, best_move });
        }
    }

    /// Empties every slot.
    pub fn clear(&mut self)
        requires
            old(self).wf(),
        ensures
            final(self).wf(),
            final(self).slots() == old(self).slots(),
            forall|i: int| 0 <= i < final(self).slots() ==> #[trigger] final(self).entries()[i] == empty_entry(),
    {
        let n = self.entries.len();
        let mut i: usize = 0;
        while i < n
            invariant
                n == self.entries@.len(),
                n == self.size,
                i <= n,
                forall|j: int| 0 <= j < i ==> #[trigger] self.entries@[j] == empty_entry(),
            decreases n - i,
        {
            self.entries.set(i, TTEntry::empty());
            i += 1;
        }
    }
}

/// A probe finds what a store wrote: after `store` put an entry for `hash` searched `depth`
/// deep into its slot, probing `hash` at any depth up to `depth` gives back the stored score
/// and move, when the flag lets the score be used for the window.
pub proof fn lemma_probe_after_store(
    before: TranspositionTable,
    after: TranspositionTable,
    hash: u64,
    depth: u8,
    score: i32,
    flag: TTFlag,
    best_move: Option<Move>,
    probe_depth: u8,
    alpha: i32,
    beta: i32,
)
    requires
        before.wf(),
        before.slots() > 0,
        after.slots() == before.slots(),
        after.entries() == (if before.entries()[slot(hash, before.slots())].depth < depth {
            before.entries().update(slot(hash, before.slots()), TTEntry { hash, depth, score, flag, best_move })
        } else {
            before.entries()
        }),
        before.entries()[slot(hash, before.slots())].depth < depth,
        probe_depth <= depth,
    ensures
        probe_entry(after.entries()[slot(hash, after.slots())], hash, probe_depth, alpha, beta) == (match flag {
            TTFlag::Exact => Some((score, best_move)),
            TTFlag::LowerBound => if score >= beta {
                Some((score, best_move))
            } else {
                None
            },
            TTFlag::UpperBound => if score <= alpha {
                Some((score, best_move))
            } else {
                None
            },
        }),
{
    before.lemma_wf_len();
}

/// After `clear`, no probe finds anything, except a probe for hash 0 at depth 0, which the
/// empty entries themselves answer with score 0 and no move.
pub proof fn lemma_probe_after_clear(t: TranspositionTable, hash: u64, depth: u8, alpha: i32, beta: i32)
    requires
        t.wf(),
        t.slots() > 0,
        forall|i: int| 0 <= i < t.slots() ==> #[trigger] t.entries()[i] == empty_entry(),
    ensures
        probe_entry(t.entries()[slot(hash, t.slots())], hash, depth, alpha, beta) == (if hash == 0 && depth == 0 {
            Some((0i32, None::<Move>))
        } else {
            None
        }),
{
    t.lemma_wf_len();
    let k = slot(hash, t.slots());
    assert(0 <= k < t.slots());
    assert(t.entries()[k] == empty_entry());
}

} // verus!
