//! A memory region that remembers how it was accessed.
//!
//! What a measurement reports rests on how often it went to memory, which the
//! contents afterwards do not show. A region therefore keeps a record of every
//! read and write made through it. The record exists for proofs alone: a
//! region is nothing but the borrowed memory when it runs.

use vstd::prelude::*;

verus! {

/// One access to a cell of a region.
pub enum Access<T> {
    Read { at: int },
    Write { at: int, value: T },
}

/// Memory that can be accessed in no other way than by `read` and `write`
/// while the region holds it.
pub struct Region<'a, T> {
    mem: &'a mut [T],
    log: Ghost<Seq<Access<T>>>,
}

impl<'a, T: Copy> Region<'a, T> {
    /// What the memory holds.
    pub closed spec fn cells(&self) -> Seq<T> {
        self.mem@
    }

    /// The accesses made so far, the earliest first.
    pub closed spec fn log(&self) -> Seq<Access<T>> {
        self.log@
    }

    /// A region over `mem` that has not been accessed yet. The memory comes
    /// back by `into_mem`. What it holds where the region is dropped instead
    /// is left to Rust's borrowing: no clause states it.
    pub fn new(mem: &'a mut [T]) -> (region: Self)
        ensures
            region.cells() == old(mem)@,
            region.log() == Seq::<Access<T>>::empty(),
    {
        Region { mem, log: Ghost(Seq::empty()) }
    }

    /// Ends the region and hands its memory back, with what the cells hold.
    pub fn into_mem(self) -> (mem: &'a mut [T])
        ensures
            mem@ == self.cells(),
    {
        self.mem
    }

    /// Every cell has an index.
    pub proof fn cells_are_indexed(&self)
        ensures
            self.cells().len() <= usize::MAX,
    {
        assert(self.mem.len() == self.mem@.len());
    }

    /// The number of cells.
    pub fn len(&self) -> (len: usize)
        ensures
            len == self.cells().len(),
    {
        self.mem.len()
    }

    /// Reads one cell.
    pub fn read(&mut self, at: usize) -> (value: T)
        requires
            at < old(self).cells().len(),
        ensures
            value == old(self).cells()[at as int],
            final(self).cells() == old(self).cells(),
            final(self).log() == old(self).log().push(Access::Read { at: at as int }),
    {
        self.log = Ghost(self.log@.push(Access::Read { at: at as int }));
        self.mem[at]
    }

    /// Writes one cell.
    pub fn write(&mut self, at: usize, value: T)
        requires
            at < old(self).cells().len(),
        ensures
            final(self).cells() == old(self).cells().update(at as int, value),
            final(self).log() == old(self).log().push(Access::Write { at: at as int, value }),
    {
        self.log = Ghost(self.log@.push(Access::Write { at: at as int, value }));
        self.mem[at] = value;
    }
}

} // verus!
