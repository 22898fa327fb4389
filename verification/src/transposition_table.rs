use vstd::prelude::*;
use crate::chess_move::Move;
use crate::evaluation::{mate_score, moved_closer, Evaluation};

verus! {

/// What a stored score says of the true score of a position.
#[derive(Debug, Copy, Clone, PartialEq, Eq, Structural)]
pub enum Bound {
    /// The score is the true score.
    Exact,
    /// The true score is at least the stored one: the search was cut off above the window.
    Lower,
    /// The true score is at most the stored one: no move raised the lower end of the window.
    Upper,
}

/// What a search found out about a position.
#[derive(Debug, Copy, Clone, PartialEq, Eq, Structural)]
pub struct Entry {
    pub key: u64,
    pub depth: u8,
    pub bound: Bound,
    pub score: Evaluation,
    pub best_move: Option<Move>,
    pub age: u8,
}

/// A table of search results by position hash, with room for a power of two of entries;
/// the low bits of the hash choose the slot.
#[derive(Debug)]
pub struct TranspositionTable {
    pub entries: Vec<Option<Entry>>,
    pub mask: u64,
    pub age: u8,
}

/// The greatest number of index bits of a table.
pub const MAX_TABLE_BITS: u8 = 24;

/// Whether a new entry takes the slot of an old one: it does if it was searched at least as
/// deep, or comes from another search.
pub open spec fn replaces(new: Entry, old: Entry) -> bool {
    new.depth >= old.depth || new.age != old.age
}

/// The age of the search after the search of age `age`: one more, and nought after the
/// greatest.
pub open spec fn next_age(age: u8) -> u8 {
    if age == u8::MAX {
        0u8
    } else {
        (age + 1) as u8
    }
}

/// What a slot holds once `new` has been offered to it.
pub open spec fn after_store(slot: Option<Entry>, new: Entry) -> Option<Entry> {
    match slot {
        Some(old) => if replaces(new, old) {
            Some(new)
        } else {
            slot
        },
        None => Some(new),
    }
}

/// The low bits of a hash never exceed the mask that cuts them out.
proof fn lemma_masked(key: u64, mask: u64)
    ensures
        key & mask <= mask,
{
    assert(key & mask <= mask) by (bit_vector);
}

impl Entry {
    /// The stored score as a search sees it `ply` plies below its root: a mate score, which
    /// is stored as counted from the position, is counted from the root again.
    pub fn score_at(&self, ply: u8) -> (r: Evaluation)
        requires
            self.score.0 > i32::MIN,
        ensures
            r.0 == if mate_score(self.score.0 as int) {
                moved_closer(self.score.0 as int, ply as int)
            } else {
                self.score.0 as int
            },
    {
        if self.score.is_mate() {
            self.score.tt_to_score(ply)
        } else {
            self.score
        }
    }
}

impl TranspositionTable {
    /// A table is well-formed when it has one slot for each value of the masked hash.
    pub open spec fn wf(&self) -> bool {
        self.entries@.len() == self.mask + 1 && self.mask < usize::MAX
    }

    /// The slot of a hash.
    pub open spec fn slot(&self, key: u64) -> int {
        (key & self.mask) as int
    }

    /// An empty table with two to the power of `bits` slots.
    pub fn new(bits: u8) -> (r: TranspositionTable)
        requires
            bits <= MAX_TABLE_BITS,
        ensures
            r.wf(),
            r.mask + 1 == vstd::arithmetic::power2::pow2(bits as nat),
            r.age == 0,
            forall|i: int| 0 <= i < r.entries@.len() ==> r.entries@[i].is_none(),
    {
        let mut size: usize = 1;
        let mut done: u8 = 0;
        proof {
            vstd::arithmetic::power2::lemma2_to64();
        }
        while done < bits
            invariant
                0 <= done <= bits <= MAX_TABLE_BITS,
                size == vstd::arithmetic::power2::pow2(done as nat),
                size <= 0x100_0000,
            decreases bits - done,
        {
            proof {
                vstd::arithmetic::power2::lemma_pow2_unfold((done + 1) as nat);
                vstd::arithmetic::power2::lemma_pow2_strictly_increases(
                    (done + 1) as nat,
                    25,
                );
                vstd::arithmetic::power2::lemma2_to64();
            }
            size = size * 2;
            done = done + 1;
        }
        let mut entries: Vec<Option<Entry>> = Vec::new();
        let mut i: usize = 0;
        while i < size
            invariant
                0 <= i <= size,
                entries@.len() == i,
                forall|j: int| 0 <= j < i ==> entries@[j].is_none(),
            decreases size - i,
        {
            entries.push(None);
            i = i + 1;
        }
        TranspositionTable { entries, mask: (size - 1) as u64, age: 0 }
    }

    /// What is stored for a hash: the entry of its slot if that entry has the same hash.
    pub fn probe(&self, key: u64) -> (r: Option<Entry>)
        requires
            self.wf(),
        ensures
            r == match self.entries@[self.slot(key)] {
                Some(entry) => if entry.key == key {
                    Some(entry)
                } else {
                    None
                },
                None => None,
            },
    {
        proof {
            lemma_masked(key, self.mask);
        }
        let index: usize = (key & self.mask) as usize;
        match self.entries[index] {
            Some(entry) => if entry.key == key {
                Some(entry)
            } else {
                None
            },
            None => None,
        }
    }

    /// Offers an entry to the slot of its hash: it is stored if the slot is empty or the
    /// entry replaces what the slot holds.
    pub fn store(&mut self, entry: Entry)
        requires
            old(self).wf(),
        ensures
            final(self).wf(),
            final(self).mask == old(self).mask,
            final(self).age == old(self).age,
            final(self).entries@ == old(self).entries@.update(
                old(self).slot(entry.key),
                after_store(old(self).entries@[old(self).slot(entry.key)], entry),
            ),
    {
        proof {
            lemma_masked(entry.key, self.mask);
        }
        let index: usize = (entry.key & self.mask) as usize;
        let keep = match self.entries[index] {
            Some(old_entry) => !(entry.depth >= old_entry.depth || entry.age != old_entry.age),
            None => false,
        };
        if !keep {
            self.entries[index] = Some(entry);
        }
        assert(self.entries@ =~= old(self).entries@.update(
            old(self).slot(entry.key),
            after_store(old(self).entries@[old(self).slot(entry.key)], entry),
        ));
    }

    /// Empties every slot.
    pub fn clear(&mut self)
        requires
            old(self).wf(),
        ensures
            final(self).wf(),
            final(self).mask == old(self).mask,
            final(self).age == old(self).age,
            forall|i: int| 0 <= i < final(self).entries@.len() ==> final(self).entries@[i].is_none(),
    {
        let n: usize = self.entries.len();
        let mut i: usize = 0;
        while i < n
            invariant
                0 <= i <= n,
                n == self.entries@.len(),
                self.mask == old(self).mask,
                self.age == old(self).age,
                self.entries@.len() == old(self).entries@.len(),
                forall|j: int| 0 <= j < i ==> self.entries@[j].is_none(),
            decreases n - i,
        {
            self.entries[i] = None;
            i = i + 1;
        }
    }

    /// Marks the start of a new search: entries of earlier searches give way to its own.
    pub fn new_search(&mut self)
        ensures
            final(self).entries == old(self).entries,
            final(self).mask == old(self).mask,
            final(self).age == next_age(old(self).age),
    {
        self.age = if self.age == u8::MAX {
            0
        } else {
            self.age + 1
        };
    }
}

} // verus!
