//! Isolated memory regions and the allocator that issues and pools them.

use vstd::prelude::*;
use crate::layout::{is_page_aligned, GUARD_SIZE};

verus! {

/// One isolated memory area: committed bytes bracketed by a guard area on either side.
///
/// A region is owned by at most one instance at a time; the bytes live in the region, so
/// whoever holds it is the only one who can reach them.
#[derive(Debug)]
pub struct Region {
    base: usize,
    size: usize,
    generation: u64,
    memory: Vec<u8>,
}

/// What a region is, as plain values.
pub struct RegionView {
    /// Address of the first committed byte.
    pub base: nat,
    /// Number of committed bytes.
    pub size: nat,
    /// How many times the region has been issued again after its first issue.
    pub generation: nat,
    /// The committed bytes.
    pub memory: Seq<u8>,
}

impl RegionView {
    /// First address of the guard area below the committed bytes.
    pub open spec fn span_start(self) -> int {
        self.base - GUARD_SIZE
    }

    /// First address past the guard area above the committed bytes.
    pub open spec fn span_end(self) -> int {
        self.base + self.size + GUARD_SIZE
    }

    /// Whether `addr` lies in one of the two guard areas.
    pub open spec fn in_guard(self, addr: int) -> bool {
        self.span_start() <= addr < self.base || self.base + self.size <= addr < self.span_end()
    }

    /// Whether `addr` is a committed byte of the region.
    pub open spec fn in_committed(self, addr: int) -> bool {
        self.base <= addr < self.base + self.size
    }

    /// The invariant of every region: it holds exactly its committed bytes, a whole number of
    /// pages, and its guard areas are real address ranges.
    pub open spec fn wf(self) -> bool {
        &&& self.memory.len() == self.size
        &&& is_page_aligned(self.size)
        &&& self.span_start() >= 0
        &&& self.span_end() <= usize::MAX
        &&& self.generation <= u64::MAX
    }

    /// The region with other bytes in it.
    pub open spec fn with_memory(self, memory: Seq<u8>) -> RegionView {
        RegionView { memory, ..self }
    }
}

/// Whether the address ranges of two regions, guard areas included, share no address.
pub open spec fn spans_disjoint(a: RegionView, b: RegionView) -> bool {
    a.span_end() <= b.span_start() || b.span_end() <= a.span_start()
}

/// The committed bytes of a region of `size` bytes that holds `image` from its start and
/// zero everywhere else.
pub open spec fn image_memory(image: Seq<u8>, size: nat) -> Seq<u8> {
    Seq::new(size, |i: int| if i < image.len() { image[i] } else { 0u8 })
}

impl View for Region {
    type V = RegionView;

    closed spec fn view(&self) -> RegionView {
        RegionView {
            base: self.base as nat,
            size: self.size as nat,
            generation: self.generation as nat,
            memory: self.memory@,
        }
    }
}

impl Region {
    /// The invariant of every region; see [`RegionView::wf`].
    pub open spec fn wf(&self) -> bool {
        self@.wf()
    }

    /// A region of `size` zero bytes at `base` that has not been issued before.
    pub(crate) fn fresh(base: usize, size: usize) -> (region: Region)
        requires
            is_page_aligned(size as nat),
            base >= GUARD_SIZE,
            base + size + GUARD_SIZE <= usize::MAX,
        ensures
            region.wf(),
            region@ == (RegionView {
                base: base as nat,
                size: size as nat,
                generation: 0,
                memory: image_memory(Seq::empty(), size as nat),
            }),
    {
        let mut memory: Vec<u8> = Vec::new();
        let mut i: usize = 0;
        while i < size
            invariant
                i <= size,
                memory@.len() == i,
                forall|j: int| 0 <= j < i ==> memory@[j] == 0u8,
            decreases size - i,
        {
            memory.push(0u8);
            i = i + 1;
        }
        assert(memory@ =~= image_memory(Seq::empty(), size as nat));
        Region { base, size, generation: 0, memory }
    }

    /// Marks the region as issued once more.
    pub(crate) fn reissue(&mut self)
        requires
            old(self).wf(),
            old(self)@.generation < u64::MAX,
        ensures
            final(self).wf(),
            final(self)@ == (RegionView { generation: old(self)@.generation + 1, ..old(self)@ }),
    {
        self.generation = self.generation + 1;
    }

    /// Address of the first committed byte.
    pub fn base(&self) -> (base: usize)
        ensures
            base == self@.base,
    {
        self.base
    }

    /// Number of committed bytes.
    pub fn size(&self) -> (size: usize)
        ensures
            size == self@.size,
    {
        self.size
    }

    /// How many times the region has been issued again after its first issue.
    pub fn generation(&self) -> (generation: u64)
        ensures
            generation == self@.generation,
    {
        self.generation
    }

    /// The committed bytes.
    pub fn memory(&self) -> (memory: &Vec<u8>)
        ensures
            memory@ == self@.memory,
    {
        &self.memory
    }

    /// Reads the committed byte at `offset`, or nothing where `offset` is not committed.
    pub fn read(&self, offset: u64) -> (byte: Option<u8>)
        requires
            self.wf(),
        ensures
            byte == if offset < self@.size {
                Some(self@.memory[offset as int])
            } else {
                None
            },
    {
        if offset < self.size as u64 {
            Some(self.memory[offset as usize])
        } else {
            None
        }
    }

    /// Writes `value` to the committed byte at `offset`. Where `offset` is not committed the
    /// region stays as it is and the result is `false`.
    pub fn write(&mut self, offset: u64, value: u8) -> (written: bool)
        requires
            old(self).wf(),
        ensures
            final(self).wf(),
            written == (offset < old(self)@.size),
            final(self)@ == if written {
                old(self)@.with_memory(old(self)@.memory.update(offset as int, value))
            } else {
                old(self)@
            },
    {
        if offset < self.size as u64 {
            self.memory.set(offset as usize, value);
            true
        } else {
            false
        }
    }

    /// Overwrites every committed byte: `image` from the start, zero after it.
    pub fn load_image(&mut self, image: &Vec<u8>)
        requires
            old(self).wf(),
            image@.len() <= old(self)@.size,
        ensures
            final(self).wf(),
            final(self)@ == old(self)@.with_memory(image_memory(image@, old(self)@.size)),
    {
        let mut i: usize = 0;
        while i < self.size
            invariant
                i <= self.size,
                self.base == old(self).base,
                self.size == old(self).size,
                self.generation == old(self).generation,
                self.memory@.len() == self.size,
                forall|j: int|
                    0 <= j < i ==> self.memory@[j] == image_memory(image@, self.size as nat)[j],
            decreases self.size - i,
        {
            let byte: u8 = if i < image.len() { image[i] } else { 0u8 };
            self.memory.set(i, byte);
            i = i + 1;
        }
        assert(self.memory@ =~= image_memory(image@, self.size as nat));
    }
}

} // verus!
