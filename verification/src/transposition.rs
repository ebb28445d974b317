//! The transposition table: a fixed-capacity, hash-indexed memo from board
//! hash to evaluated score. Writing always replaces the slot at the hash
//! modulo capacity; reading returns a score only when the stored full hash
//! matches, so an index collision between distinct positions reads as a
//! miss, never as another position's score. The score type is a parameter:
//! the table's behaviour does not depend on it.

use vstd::prelude::*;

verus! {

/// One stored entry: the full hash and its score.
pub struct Entry<S> {
    pub hash: u64,
    pub score: S,
}

/// A fixed-capacity array of optional entries, indexed by hash modulo
/// capacity.
pub struct TranspositionTable<S>(pub Vec<Option<Entry<S>>>);

/// The slot of `hash` in a table of capacity `cap`.
pub open spec fn slot_of(hash: u64, cap: int) -> int {
    (hash as int) % cap
}

/// What a lookup of `hash` reads out of the slot sequence `t`: the stored
/// score when the slot holds an entry with exactly this hash, a miss
/// otherwise.
pub open spec fn lookup_spec<S>(t: Seq<Option<Entry<S>>>, hash: u64) -> Option<S> {
    match t[slot_of(hash, t.len() as int)] {
        Option::Some(e) => if e.hash == hash {
            Option::Some(e.score)
        } else {
            Option::None
        },
        Option::None => Option::None,
    }
}

impl<S> TranspositionTable<S> {
    /// The stored slots.
    pub open spec fn slots(&self) -> Seq<Option<Entry<S>>> {
        self.0@
    }

    /// Builds an empty table of `size` slots.
    pub fn new(size: usize) -> (t: Self)
        requires
            size > 0,
        ensures
            t.slots().len() == size,
            forall|i: int| 0 <= i < size ==> (#[trigger] t.slots()[i]) is None,
    {
        let mut v: Vec<Option<Entry<S>>> = Vec::new();
        let mut i: usize = 0;
        while i < size
            invariant
                i <= size,
                v@.len() == i,
                forall|t: int| 0 <= t < i ==> (#[trigger] v@[t]) is None,
            decreases size - i,
        {
            v.push(Option::None);
            i = i + 1;
        }
        TranspositionTable(v)
    }

    /// Stores `score` under `hash`, always replacing the slot at `hash`
    /// modulo capacity.
    pub fn set(&mut self, hash: u64, score: S)
        requires
            old(self).slots().len() > 0,
        ensures
            final(self).slots() == old(self).slots().update(
                slot_of(hash, old(self).slots().len() as int),
                Option::Some(Entry { hash, score }),
            ),
    {
        proof {
            vstd::arithmetic::div_mod::lemma_mod_division_less_than_divisor(
                hash as int,
                self.0@.len() as int,
            );
        }
        let len = self.0.len();
        let idx = (hash % (len as u64)) as usize;
        self.0[idx] = Option::Some(Entry { hash, score });
    }
}

impl<S: Copy> TranspositionTable<S> {
    /// Looks `hash` up: the cached score on an exact hash match, a miss
    /// otherwise.
    pub fn get(&self, hash: u64) -> (r: Option<S>)
        requires
            self.slots().len() > 0,
        ensures
            r == lookup_spec(self.slots(), hash),
    {
        proof {
            vstd::arithmetic::div_mod::lemma_mod_division_less_than_divisor(
                hash as int,
                self.0@.len() as int,
            );
        }
        let len = self.0.len();
        let idx = (hash % (len as u64)) as usize;
        match &self.0[idx] {
            Option::Some(e) => {
                if e.hash == hash {
                    Option::Some(e.score)
                } else {
                    Option::None
                }
            },
            Option::None => Option::None,
        }
    }
}

/// Transposition correctness: after storing `hashA` and then a different
/// `hashB` whose slot collides with it, looking up `hashA` is a miss — the
/// overwritten slot never serves the wrong position — while `hashB` reads
/// back its own score.
pub proof fn lemma_collision_reads_as_miss<S>(
    t: Seq<Option<Entry<S>>>,
    hash_a: u64,
    score_a: S,
    hash_b: u64,
    score_b: S,
)
    requires
        t.len() > 0,
        hash_a != hash_b,
        slot_of(hash_a, t.len() as int) == slot_of(hash_b, t.len() as int),
    ensures
        ({
            let t1 = t.update(
                slot_of(hash_a, t.len() as int),
                Option::Some(Entry { hash: hash_a, score: score_a }),
            );
            let t2 = t1.update(
                slot_of(hash_b, t1.len() as int),
                Option::Some(Entry { hash: hash_b, score: score_b }),
            );
            &&& lookup_spec(t2, hash_a) is None
            &&& lookup_spec(t2, hash_b) == Option::Some(score_b)
        }),
{
    vstd::arithmetic::div_mod::lemma_mod_division_less_than_divisor(hash_a as int, t.len() as int);
    vstd::arithmetic::div_mod::lemma_mod_division_less_than_divisor(hash_b as int, t.len() as int);
}

} // verus!
