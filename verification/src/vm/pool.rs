//! The pool of physical frames in which page tables live.
//!
//! The pool owns a contiguous range of physical memory, hands its frames
//! out one by one, zero-filled, and gives word-sized access to the entries
//! of the frames that it has handed out. It stands for both the kernel's
//! frame allocator and the physical memory behind it, so that the walk and
//! the mapper can be run, and reasoned about, without a machine under them.

use vstd::prelude::*;
use crate::vm::arch::{Arch, PAGE_SIZE};

verus! {

/// Why an operation on a page table failed.
#[derive(Clone, Copy, Debug, PartialEq, Eq, Structural)]
pub enum VmError {
    /// The pool has no frame left.
    OutOfMemory,
    /// A lookup found no table on the way to the leaf.
    PageFault,
    /// The page to map already has a valid leaf entry.
    AlreadyMapped,
    /// The virtual address lies above what the scheme translates.
    InvalidAddress,
}

/// What a pool is, as mathematics: the entries of the frames handed out so
/// far, by physical address.
pub struct PoolState {
    pub arch: Arch,
    /// Physical address of the first frame.
    pub base: int,
    /// Frames that the pool can hand out in all.
    pub limit: nat,
    /// Frames handed out so far, which is also the number of successful
    /// allocations.
    pub frames: nat,
    /// The entry at each entry-aligned address of a frame handed out.
    pub mem: Map<int, u64>,
}

impl PoolState {
    /// First address past the frames handed out.
    pub open spec fn end(self) -> int {
        self.base + self.frames * 4096
    }

    /// `addr` is the base of a frame handed out.
    pub open spec fn is_frame(self, addr: int) -> bool {
        self.base <= addr < self.end() && addr % 4096 == 0
    }

    /// `addr` is the address of an entry in a frame handed out.
    pub open spec fn has_entry(self, addr: int) -> bool {
        self.base <= addr < self.end() && addr % (self.arch.spec_entry_size() as int) == 0
    }

    pub open spec fn wf(self) -> bool {
        &&& 0 <= self.base
        &&& self.base % 4096 == 0
        &&& self.frames <= self.limit
        &&& self.base + self.limit * 4096 <= self.arch.spec_word_max() + 1
        &&& forall|a: int|
            #![trigger self.mem.dom().contains(a)]
            #![trigger self.has_entry(a)]
            self.mem.dom().contains(a) <==> self.has_entry(a)
        &&& forall|a: int|
            #![trigger self.mem[a]]
            self.has_entry(a) ==> self.mem[a] <= self.arch.spec_word_max()
    }

    /// A pool that has handed out nothing yet.
    pub open spec fn empty(arch: Arch, base: int, limit: nat) -> PoolState {
        PoolState { arch, base, limit, frames: 0, mem: Map::empty() }
    }

    /// No frame is left.
    pub open spec fn full(self) -> bool {
        self.frames >= self.limit
    }

    /// The frame that the next allocation hands out.
    pub open spec fn next_frame(self) -> int {
        self.end()
    }

    /// The pool after one more frame, zero-filled, was handed out.
    pub open spec fn grow(self) -> PoolState {
        PoolState {
            frames: self.frames + 1,
            mem: Map::new(
                |a: int|
                    self.base <= a < self.end() + 4096 && a % (self.arch.spec_entry_size() as int)
                        == 0,
                |a: int|
                    if self.mem.dom().contains(a) {
                        self.mem[a]
                    } else {
                        0u64
                    },
            ),
            ..self
        }
    }

    /// The pool after `value` was stored in the entry at `addr`.
    pub open spec fn write(self, addr: int, value: u64) -> PoolState {
        PoolState { mem: self.mem.insert(addr, value), ..self }
    }
}

/// A pool of physical frames together with their contents.
pub struct PagePool {
    arch: Arch,
    base: u64,
    limit: usize,
    issued: usize,
    words: Vec<u64>,
}

impl View for PagePool {
    type V = PoolState;

    closed spec fn view(&self) -> PoolState {
        PoolState {
            arch: self.arch,
            base: self.base as int,
            limit: self.limit as nat,
            frames: self.issued as nat,
            mem: Map::new(
                |a: int|
                    self.base <= a < self.base + self.issued * 4096 && a % (
                    self.arch.spec_entry_size() as int) == 0,
                |a: int| self.words@[(a - self.base) / (self.arch.spec_entry_size() as int)],
            ),
        }
    }
}

impl PagePool {
    /// The pool is consistent: it holds every entry of every frame handed
    /// out, and its view is well-formed.
    pub closed spec fn wf(&self) -> bool {
        &&& self.words.len() == self.issued * self.arch.spec_entries()
        &&& self@.wf()
    }

    /// A consistent pool has a well-formed view.
    pub proof fn lemma_wf_view(&self)
        requires
            self.wf(),
        ensures
            self@.wf(),
    {
    }

    /// The entry at `addr` has a word of its own in the pool's storage.
    proof fn lemma_slot_in_bounds(&self, addr: int)
        requires
            self.wf(),
            self@.has_entry(addr),
        ensures
            0 <= (addr - self.base) / (self.arch.spec_entry_size() as int) < self.words.len(),
            self@.mem[addr] == self.words@[(addr - self.base) / (
            self.arch.spec_entry_size() as int)],
    {
    }

    /// Two entries share a word only when they are one entry.
    proof fn lemma_slot_distinct(&self, a: int, b: int)
        requires
            self.wf(),
            self@.has_entry(a),
            self@.has_entry(b),
        ensures
            (a - self.base) / (self.arch.spec_entry_size() as int) == (b - self.base) / (
            self.arch.spec_entry_size() as int) <==> a == b,
    {
    }

    /// A pool of `limit` frames that start at physical address `base`, none
    /// of them handed out yet. `None` when `base` is not a page-aligned
    /// machine word of `arch` or the frames do not all lie below the last
    /// such word.
    pub fn new(arch: Arch, base: u64, limit: usize) -> (pool: Option<PagePool>)
        ensures
            pool.is_some() <==> base % 4096 == 0 && base <= arch.spec_word_max() && base + limit
                * 4096 <= arch.spec_word_max() + 1,
            pool matches Some(p) ==> p.wf() && p@ == PoolState::empty(
                arch,
                base as int,
                limit as nat,
            ),
    {
        if base % PAGE_SIZE != 0 || base > arch.word_max() {
            return None;
        }
        let room = (arch.word_max() - base) / PAGE_SIZE;
        // `room` frames fit below the last word, and one more when the last
        // one ends exactly there.
        let fits = if (arch.word_max() - base) % PAGE_SIZE == PAGE_SIZE - 1 {
            limit as u64 <= room || limit as u64 - 1 == room
        } else {
            limit as u64 <= room
        };
        if !fits {
            return None;
        }
        let pool = PagePool { arch, base, limit, issued: 0, words: Vec::new() };
        assert(pool@.mem =~= Map::<int, u64>::empty());
        Some(pool)
    }

    pub fn arch(&self) -> (arch: Arch)
        ensures
            arch == self@.arch,
    {
        self.arch
    }

    /// Physical address of the pool's first frame.
    pub fn base(&self) -> (base: u64)
        ensures
            base == self@.base,
    {
        self.base
    }

    /// Frames that the pool can hand out in all.
    pub fn limit(&self) -> (limit: usize)
        ensures
            limit == self@.limit,
    {
        self.limit
    }

    /// Frames handed out so far: the number of allocations that succeeded.
    pub fn allocated(&self) -> (frames: usize)
        ensures
            frames == self@.frames,
    {
        self.issued
    }

    /// Hands out the next frame, zero-filled, and returns its physical
    /// address; fails, and changes nothing, when the pool is used up.
    pub fn palloc(&mut self) -> (frame: Result<u64, VmError>)
        requires
            old(self).wf(),
        ensures
            final(self).wf(),
            old(self)@.full() ==> frame == Err::<u64, VmError>(VmError::OutOfMemory)
                && final(self)@ == old(self)@,
            !old(self)@.full() ==> frame == Ok::<u64, VmError>(old(self)@.next_frame() as u64)
                && old(self)@.next_frame() <= u64::MAX
                && final(self)@ == old(self)@.grow(),
    {
        if self.issued >= self.limit {
            return Err(VmError::OutOfMemory);
        }
        let entries = self.arch.entries();
        let frame = self.base + (self.issued as u64) * PAGE_SIZE;
        let mut filled: u64 = 0;
        while filled < entries
            invariant
                entries == self.arch.spec_entries(),
                filled <= entries,
                self.arch == old(self).arch,
                self.base == old(self).base,
                self.limit == old(self).limit,
                self.issued == old(self).issued,
                self.words@ == old(self).words@ + Seq::new(filled as nat, |i: int| 0u64),
            decreases entries - filled,
        {
            self.words.push(0);
            filled = filled + 1;
        }
        self.issued = self.issued + 1;
        assert(self@.mem =~= old(self)@.grow().mem);
        Ok(frame)
    }

    /// The entry stored at physical address `addr`.
    pub fn read_pte(&self, addr: u64) -> (contents: u64)
        requires
            self.wf(),
            self@.has_entry(addr as int),
        ensures
            contents == self@.mem[addr as int],
            contents <= self@.arch.spec_word_max(),
    {
        proof {
            self.lemma_slot_in_bounds(addr as int);
        }
        let slot = ((addr - self.base) / self.arch.entry_size()) as usize;
        self.words[slot]
    }

    /// Stores `contents` in the entry at physical address `addr`.
    pub fn set_pte(&mut self, addr: u64, contents: u64)
        requires
            old(self).wf(),
            old(self)@.has_entry(addr as int),
            contents <= old(self)@.arch.spec_word_max(),
        ensures
            final(self).wf(),
            final(self)@ == old(self)@.write(addr as int, contents),
    {
        proof {
            self.lemma_slot_in_bounds(addr as int);
        }
        let slot = ((addr - self.base) / self.arch.entry_size()) as usize;
        self.words.set(slot, contents);
        assert forall|a: int| #[trigger] self@.mem.dom().contains(a) implies self@.mem[a]
            == old(self)@.write(addr as int, contents).mem[a] by {
            old(self).lemma_slot_in_bounds(a);
            old(self).lemma_slot_distinct(a, addr as int);
        }
        assert(self@.mem =~= old(self)@.write(addr as int, contents).mem);
    }
}

} // verus!
