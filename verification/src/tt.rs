//! Transposition table: search results remembered by position hash.
use vstd::prelude::*;

verus! {

/// How a remembered score bounds the position's value.
#[derive(PartialEq, Eq, Structural, Clone, Copy, Debug)]
pub enum NodeType {
    Exact,
    LowerBound,
    UpperBound,
}

/// A remembered search result.
#[derive(Clone, Copy)]
pub struct TTEntry {
    pub hash: u64,
    pub depth: u32,
    pub score: i32,
    pub node_type: NodeType,
    pub best_move: Option<(usize, usize)>,
}

/// A table of `size` slots; the slot of a hash is the hash modulo the size, and
/// a newer result replaces the older one in its slot.
pub struct TranspositionTable {
    slots: Vec<Option<TTEntry>>,
}

impl TranspositionTable {
    /// The table has a slot.
    pub open spec fn wf(self) -> bool {
        self@.len() > 0
    }

    /// The slots of the table.
    pub closed spec fn view(self) -> Seq<Option<TTEntry>> {
        self.slots@
    }

    /// The slot a hash goes to.
    pub open spec fn slot_of(self, hash: u64) -> int {
        hash as int % self@.len() as int
    }

    /// What `get` answers for a hash: the entry of its slot, if it holds that hash.
    pub open spec fn lookup(self, hash: u64) -> Option<TTEntry> {
        match self@[self.slot_of(hash)] {
            Some(e) => if e.hash == hash { Some(e) } else { None },
            None => None,
        }
    }

    /// An empty table of `size` slots.
    pub fn new(size: usize) -> (t: TranspositionTable)
        requires size > 0,
        ensures
            t.wf(),
            t@.len() == size,
            forall|i: int| 0 <= i < size ==> #[trigger] t@[i] is None,
    {
        let mut slots: Vec<Option<TTEntry>> = Vec::new();
        for i in 0..size
            invariant
                slots@.len() == i,
                forall|j: int| 0 <= j < i ==> #[trigger] slots@[j] is None,
        {
            slots.push(None);
        }
        TranspositionTable { slots }
    }

    /// The remembered result for `hash`, if its slot holds one for that hash.
    pub fn get(&self, hash: u64) -> (r: Option<TTEntry>)
        requires self.wf(),
        ensures r == self.lookup(hash),
    {
        let n = self.slots.len() as u64;
        assert(n as int == self@.len());
        let m = hash % n;
        assert(m < n);
        let i = m as usize;
        assert(i as int == self.slot_of(hash));
        match self.slots[i] {
            Some(e) => if e.hash == hash { Some(e) } else { None },
            None => None,
        }
    }

    /// Remembers a result for `hash`, replacing whatever its slot held.
    pub fn save(&mut self, hash: u64, depth: u32, score: i32, node_type: NodeType, best_move: Option<(usize, usize)>)
        requires old(self).wf(),
        ensures
            final(self).wf(),
            final(self)@ == old(self)@.update(
                old(self).slot_of(hash),
                Some(TTEntry { hash, depth, score, node_type, best_move }),
            ),
    {
        let n = self.slots.len() as u64;
        assert(n as int == self@.len());
        let m = hash % n;
        let i = m as usize;
        let e = TTEntry { hash, depth, score, node_type, best_move };
        self.slots.set(i, Some(e));
    }
}

} // verus!
