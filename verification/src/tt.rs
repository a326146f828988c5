//! Transposition table: one entry per slot, the slot chosen by the low bits
//! of the position key.
use vstd::prelude::*;
use crate::board::moves::Move;

verus! {

pub const TT_NONE: u8 = 0;
pub const TT_EXACT: u8 = 1;
/// Failed high (score >= beta).
pub const TT_LOWER: u8 = 2;
/// Failed low (score <= alpha).
pub const TT_UPPER: u8 = 3;

#[derive(Clone, Copy, Debug)]
pub struct TTEntry {
    pub key: u64,
    pub score: i16,
    pub depth: i8,
    pub flag: u8,
    pub best_move: Move,
}

/// The empty entry.
pub open spec fn empty_entry() -> TTEntry {
    TTEntry { key: 0, score: 0, depth: 0, flag: TT_NONE, best_move: Move(0) }
}

impl Default for TTEntry {
    fn default() -> (e: Self)
        ensures
            e == empty_entry(),
    {
        TTEntry { key: 0, score: 0, depth: 0, flag: TT_NONE, best_move: Move(0) }
    }
}

pub struct TT {
    table: Vec<TTEntry>,
    mask: usize,
}

/// Entries a table of `mb` megabytes holds: the largest power of two whose
/// entries fit (at least one).
pub open spec fn tt_size(mb: nat) -> nat {
    let e = vstd::layout::size_of::<TTEntry>();
    let n = if e == 0 { 0 } else { mb * 1024 * 1024 / e };
    if n <= 1 { 1 } else { pow2_below(n) }
}

/// The largest power of two that is at most `n` (for `n >= 1`).
pub open spec fn pow2_below(n: nat) -> nat
    decreases n,
{
    if n <= 1 { 1 } else { 2 * pow2_below(n / 2) }
}

impl TT {
    /// The entries, slot by slot.
    pub closed spec fn entries(&self) -> Seq<TTEntry> {
        self.table@
    }

    /// The slot of a key.
    pub closed spec fn slot(&self, key: u64) -> int {
        ((key as usize) & self.mask) as int
    }

    /// The table holds an entry for `key`: what `probe` finds.
    pub open spec fn holds(&self, key: u64) -> bool {
        let e = self.entries()[self.slot(key)];
        e.key == key && e.flag != TT_NONE
    }

    pub closed spec fn wf(&self) -> bool {
        &&& self.table@.len() == self.mask + 1
    }

    pub proof fn lemma_slot(&self, key: u64)
        requires
            self.wf(),
        ensures
            0 <= self.slot(key) < self.entries().len(),
    {
        let k = key as usize;
        let m = self.mask;
        assert(k & m <= m) by (bit_vector);
    }

    /// Create a TT of approximately `mb` megabytes.
    pub fn new(mb: usize) -> (t: Self)
        requires
            mb * 1024 * 1024 <= usize::MAX,
        ensures
            t.wf(),
            t.entries().len() == tt_size(mb as nat),
            forall|i: int| 0 <= i < t.entries().len() ==> t.entries()[i] == empty_entry(),
    {
        let bytes = mb * 1024 * 1024;
        let entry_size = core::mem::size_of::<TTEntry>();
        let n = if entry_size == 0 { 0 } else { bytes / entry_size };
        // Round down to a power of two
        let n1 = if n == 0 { 1 } else { n };
        let mut size: usize = 1;
        let mut rest = n1;
        while rest > 1
            invariant
                1 <= rest <= n1,
                size >= 1,
                size * rest <= n1,
                size * pow2_below(rest as nat) == pow2_below(n1 as nat),
            decreases rest,
        {
            proof {
                assert(size * 2 <= size * rest) by (nonlinear_arith)
                    requires
                        rest > 1,
                        size >= 1,
                ;
                assert(size * 2 * (rest / 2) <= size * rest) by (nonlinear_arith)
                    requires
                        rest > 1,
                        size >= 1,
                ;
                assert(size * (2 * pow2_below((rest / 2) as nat)) == size * 2 * pow2_below((rest / 2) as nat)) by (nonlinear_arith);
            }
            size = size * 2;
            rest = rest / 2;
        }
        let mut table: Vec<TTEntry> = Vec::new();
        let mut i: usize = 0;
        while i < size
            invariant
                i <= size,
                table@.len() == i,
                forall|j: int| 0 <= j < i ==> table@[j] == empty_entry(),
            decreases size - i,
        {
            table.push(TTEntry::default());
            i += 1;
        }
        TT { table, mask: size - 1 }
    }

    /// The entry stored for `key`, if its slot holds that key with a bound.
    pub fn probe(&self, key: u64) -> (r: Option<TTEntry>)
        requires
            self.wf(),
        ensures
            ({
                let e = self.entries()[self.slot(key)];
                r == if e.key == key && e.flag != TT_NONE { Some(e) } else { None }
            }),
    {
        proof {
            self.lemma_slot(key);
        }
        let entry = self.table[key as usize & self.mask];
        if entry.key == key && entry.flag != TT_NONE {
            Some(entry)
        } else {
            None
        }
    }

    /// Stores an entry in the key's slot, unless the slot holds the same key
    /// searched deeper and the new bound is not exact.
    pub fn store(&mut self, key: u64, score: i16, depth: i8, flag: u8, best_move: Move)
        requires
            old(self).wf(),
        ensures
            final(self).wf(),
            ({
                let s = old(self).slot(key);
                let e = old(self).entries()[s];
                let n = TTEntry { key, score, depth, flag, best_move };
                &&& final(self).slot(key) == s
                &&& forall|k: u64| #[trigger] final(self).slot(k) == old(self).slot(k)
                &&& final(self).entries() == if e.key != key || depth >= e.depth || flag == TT_EXACT {
                    old(self).entries().update(s, n)
                } else {
                    old(self).entries()
                }
            }),
    {
        proof {
            self.lemma_slot(key);
        }
        let idx = key as usize & self.mask;
        let entry = self.table[idx];
        // Replace-always with depth-preferred for same key
        if entry.key != key || depth >= entry.depth || flag == TT_EXACT {
            self.table.set(idx, TTEntry { key, score, depth, flag, best_move });
        }
    }

    /// Empties every slot.
    pub fn clear(&mut self)
        requires
            old(self).wf(),
        ensures
            final(self).wf(),
            final(self).entries().len() == old(self).entries().len(),
            forall|k: u64| #[trigger] final(self).slot(k) == old(self).slot(k),
            forall|i: int| 0 <= i < final(self).entries().len() ==> final(self).entries()[i] == empty_entry(),
    {
        let mut i: usize = 0;
        while i < self.table.len()
            invariant
                i <= self.table@.len(),
                self.table@.len() == old(self).table@.len(),
                self.mask == old(self).mask,
                forall|j: int| 0 <= j < i ==> self.table@[j] == empty_entry(),
            decreases self.table@.len() - i,
        {
            self.table.set(i, TTEntry::default());
            i += 1;
        }
    }

    /// Permille of the first (up to) thousand slots that hold an entry.
    pub fn hashfull(&self) -> (r: usize)
        requires
            self.wf(),
        ensures
            r == used_in(self.entries(), if self.entries().len() < 1000 { self.entries().len() as int } else { 1000 }) * 1000 / (if self.entries().len() < 1000 { self.entries().len() as int } else { 1000 }),
            r <= 1000,
    {
        let n = if self.table.len() < 1000 { self.table.len() } else { 1000 };
        let mut used: usize = 0;
        let mut i: usize = 0;
        while i < n
            invariant
                n <= self.table@.len(),
                n <= 1000,
                i <= n,
                used == used_in(self.table@, i as int),
                used <= i,
            decreases n - i,
        {
            if self.table[i].flag != TT_NONE {
                used += 1;
            }
            i += 1;
        }
        proof {
            assert(used * 1000 / (n as int) <= 1000) by (nonlinear_arith)
                requires
                    used <= n,
                    n >= 1,
            ;
        }
        used * 1000 / n
    }
}

/// Number of slots among the first `n` that hold an entry.
pub open spec fn used_in(t: Seq<TTEntry>, n: int) -> int
    decreases n,
{
    if n <= 0 {
        0
    } else {
        used_in(t, n - 1) + if t[n - 1].flag != TT_NONE { 1int } else { 0int }
    }
}

/// After a store that replaced its slot with a bound, probing the same key
/// finds exactly the stored entry, and probing a key of another slot finds
/// what it found before.
pub proof fn lemma_store_probe(t0: TT, t1: TT, key: u64, other: u64, n: TTEntry)
    requires
        t0.wf(),
        t1.wf(),
        n.key == key,
        0 <= t0.slot(key) < t0.entries().len(),
        forall|k: u64| #[trigger] t1.slot(k) == t0.slot(k),
        t1.entries() == t0.entries().update(t0.slot(key), n),
        t0.slot(other) != t0.slot(key),
    ensures
        0 <= t1.slot(other) < t1.entries().len(),
        t1.entries()[t1.slot(key)] == n,
        t1.entries()[t1.slot(other)] == t0.entries()[t0.slot(other)],
{
    t0.lemma_slot(other);
}

} // verus!
