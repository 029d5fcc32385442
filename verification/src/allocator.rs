//! The region allocator: it maps regions out of one address space, never two over the same
//! addresses, and pools released regions so that return visits cost no new mapping.

use vstd::prelude::*;
use crate::error::Error;
use crate::layout::{
    lemma_round_up_is_least_aligned, page_round_up, round_up_to_page, GUARD_SIZE,
};
use crate::region::{image_memory, Region, RegionView};

verus! {

/// Whether two regions, given by base and committed size, share no address, guard areas
/// included.
pub open spec fn ranges_disjoint(base_a: nat, size_a: nat, base_b: nat, size_b: nat) -> bool {
    base_a + size_a + GUARD_SIZE <= base_b - GUARD_SIZE || base_b + size_b + GUARD_SIZE <= base_a
        - GUARD_SIZE
}

/// Whether a pooled region can be issued for a request of `need` committed bytes.
pub open spec fn reusable(region: RegionView, need: nat) -> bool {
    region.size == need && region.generation < u64::MAX
}

/// Index of the most recently released region of the pool that can be issued for `need`
/// bytes. The pool holds the most recently released region last.
pub open spec fn last_reusable(pool: Seq<RegionView>, need: nat) -> Option<int>
    decreases pool.len(),
{
    if pool.len() == 0 {
        None
    } else if reusable(pool.last(), need) {
        Some(pool.len() - 1)
    } else {
        last_reusable(pool.drop_last(), need)
    }
}

/// The allocator as plain values.
pub struct AllocatorView {
    /// First address that the allocator may not map.
    pub capacity: nat,
    /// First address that has never been mapped.
    pub next: nat,
    /// The released regions, the most recently released one last.
    pub pool: Seq<RegionView>,
    /// Base and committed size of each region that is issued and not yet released.
    pub live: Map<nat, nat>,
}

impl AllocatorView {
    /// Whether a region of `size` bytes at `base` lies, guard areas included, in what has
    /// been mapped.
    pub open spec fn within(self, base: nat, size: nat) -> bool {
        base >= GUARD_SIZE && base + size + GUARD_SIZE <= self.next
    }

    /// The invariant of the allocator: every region, pooled or live, lies in what has been
    /// mapped, and no two of them share an address.
    pub open spec fn wf(self) -> bool {
        &&& self.next <= self.capacity <= usize::MAX
        &&& forall|i: int|
            0 <= i < self.pool.len() ==> (#[trigger] self.pool[i]).wf() && self.within(
                self.pool[i].base,
                self.pool[i].size,
            )
        &&& forall|b: nat| #[trigger] self.live.contains_key(b) ==> self.within(b, self.live[b])
        &&& forall|i: int, j: int|
            0 <= i < j < self.pool.len() ==> ranges_disjoint(
                (#[trigger] self.pool[i]).base,
                self.pool[i].size,
                (#[trigger] self.pool[j]).base,
                self.pool[j].size,
            )
        &&& forall|i: int, b: nat|
            0 <= i < self.pool.len() && #[trigger] self.live.contains_key(b) ==> ranges_disjoint(
                (#[trigger] self.pool[i]).base,
                self.pool[i].size,
                b,
                self.live[b],
            )
        &&& forall|a: nat, b: nat|
            #[trigger] self.live.contains_key(a) && #[trigger] self.live.contains_key(b) && a != b
                ==> ranges_disjoint(a, self.live[a], b, self.live[b])
    }

    /// Whether `region` is one that this allocator issued and has not got back.
    pub open spec fn owns(self, region: RegionView) -> bool {
        self.live.contains_key(region.base) && self.live[region.base] == region.size
    }

    /// What a request for `size` bytes yields: the region and the allocator after it, or
    /// nothing where the request cannot be met.
    ///
    /// The most recently released pooled region of the rounded size is issued again, with
    /// the bytes it was released with. Where the pool has none, a fresh zeroed region is
    /// mapped above everything mapped so far, if the address space still has room for it.
    pub open spec fn acquire(self, size: nat) -> Option<(RegionView, AllocatorView)> {
        let need = round_up_to_page(size);
        match last_reusable(self.pool, need) {
            Some(i) => {
                let region = RegionView { generation: self.pool[i].generation + 1, ..self.pool[i] };
                Some(
                    (
                        region,
                        AllocatorView {
                            pool: self.pool.remove(i),
                            live: self.live.insert(region.base, region.size),
                            ..self
                        },
                    ),
                )
            },
            None => {
                if self.next + GUARD_SIZE + need + GUARD_SIZE <= self.capacity {
                    let region = RegionView {
                        base: (self.next + GUARD_SIZE) as nat,
                        size: need,
                        generation: 0,
                        memory: image_memory(Seq::empty(), need),
                    };
                    Some(
                        (
                            region,
                            AllocatorView {
                                next: (self.next + GUARD_SIZE + need + GUARD_SIZE) as nat,
                                live: self.live.insert(region.base, region.size),
                                ..self
                            },
                        ),
                    )
                } else {
                    None
                }
            },
        }
    }

    /// The allocator after `region` has come back: it is pooled as the most recent one.
    pub open spec fn release(self, region: RegionView) -> AllocatorView {
        AllocatorView {
            pool: self.pool.push(region),
            live: self.live.remove(region.base),
            ..self
        }
    }
}

/// What `last_reusable` finds is reusable and nothing after it is; where it finds nothing,
/// nothing in the pool is reusable.
pub proof fn lemma_last_reusable(pool: Seq<RegionView>, need: nat)
    ensures
        match last_reusable(pool, need) {
            Some(i) => {
                &&& 0 <= i < pool.len()
                &&& reusable(pool[i], need)
                &&& forall|j: int| i < j < pool.len() ==> !reusable(#[trigger] pool[j], need)
            },
            None => forall|j: int| 0 <= j < pool.len() ==> !reusable(#[trigger] pool[j], need),
        },
    decreases pool.len(),
{
    if pool.len() > 0 && !reusable(pool.last(), need) {
        lemma_last_reusable(pool.drop_last(), need);
        match last_reusable(pool.drop_last(), need) {
            Some(i) => {
                assert(pool.drop_last()[i] == pool[i]);
                assert forall|j: int| i < j < pool.len() implies !reusable(
                    #[trigger] pool[j],
                    need,
                ) by {
                    if j < pool.len() - 1 {
                        assert(pool.drop_last()[j] == pool[j]);
                    }
                }
            },
            None => {
                assert forall|j: int| 0 <= j < pool.len() implies !reusable(
                    #[trigger] pool[j],
                    need,
                ) by {
                    if j < pool.len() - 1 {
                        assert(pool.drop_last()[j] == pool[j]);
                    }
                }
            },
        }
    }
}

/// A request that is met keeps the allocator's invariant and yields a well-formed region of
/// the requested size rounded up to whole pages. The allocator then owns that region, and
/// it shares no address with any region that was live before the request.
pub proof fn lemma_acquire_keeps_regions_apart(v: AllocatorView, size: nat)
    requires
        v.wf(),
    ensures
        match v.acquire(size) {
            Some((region, after)) => {
                &&& after.wf()
                &&& region.wf()
                &&& region.size == round_up_to_page(size)
                &&& after.capacity == v.capacity
                &&& after.live == v.live.insert(region.base, region.size)
                &&& after.owns(region)
                &&& !v.live.contains_key(region.base)
                &&& forall|b: nat| #[trigger]
                    v.live.contains_key(b) ==> ranges_disjoint(
                        region.base,
                        region.size,
                        b,
                        v.live[b],
                    )
            },
            None => true,
        },
{
    let need = round_up_to_page(size);
    lemma_round_up_is_least_aligned(size);
    lemma_last_reusable(v.pool, need);
    match v.acquire(size) {
        Some((region, after)) => {
            match last_reusable(v.pool, need) {
                Some(i) => {
                    let taken = v.pool[i];
                    assert(taken.wf() && v.within(taken.base, taken.size));
                    assert forall|b: nat| #[trigger] v.live.contains_key(b) implies ranges_disjoint(
                        region.base,
                        region.size,
                        b,
                        v.live[b],
                    ) by {
                        assert(ranges_disjoint(taken.base, taken.size, b, v.live[b]));
                    }
                    if v.live.contains_key(region.base) {
                        assert(ranges_disjoint(
                            taken.base,
                            taken.size,
                            region.base,
                            v.live[region.base],
                        ));
                    }
                    assert forall|k: int| 0 <= k < after.pool.len() implies (#[trigger] after.pool[k]).wf()
                        && after.within(after.pool[k].base, after.pool[k].size) by {
                        let src = if k < i { k } else { k + 1 };
                        assert(after.pool[k] == v.pool[src]);
                    }
                    assert forall|k: int, l: int| 0 <= k < l < after.pool.len() implies ranges_disjoint(
                        (#[trigger] after.pool[k]).base,
                        after.pool[k].size,
                        (#[trigger] after.pool[l]).base,
                        after.pool[l].size,
                    ) by {
                        let sk = if k < i { k } else { k + 1 };
                        let sl = if l < i { l } else { l + 1 };
                        assert(after.pool[k] == v.pool[sk]);
                        assert(after.pool[l] == v.pool[sl]);
                    }
                    assert forall|k: int, b: nat|
                        0 <= k < after.pool.len() && #[trigger] after.live.contains_key(
                            b,
                        ) implies ranges_disjoint(
                        (#[trigger] after.pool[k]).base,
                        after.pool[k].size,
                        b,
                        after.live[b],
                    ) by {
                        let sk = if k < i { k } else { k + 1 };
                        assert(after.pool[k] == v.pool[sk]);
                        if b == region.base {
                            if sk < i {
                                assert(ranges_disjoint(
                                    v.pool[sk].base,
                                    v.pool[sk].size,
                                    v.pool[i].base,
                                    v.pool[i].size,
                                ));
                            } else {
                                assert(ranges_disjoint(
                                    v.pool[i].base,
                                    v.pool[i].size,
                                    v.pool[sk].base,
                                    v.pool[sk].size,
                                ));
                            }
                        } else {
                            assert(v.live.contains_key(b));
                        }
                    }
                    assert forall|a: nat, b: nat|
                        #[trigger] after.live.contains_key(a) && #[trigger] after.live.contains_key(b)
                            && a != b implies ranges_disjoint(a, after.live[a], b, after.live[b]) by {
                        if a == region.base {
                            assert(v.live.contains_key(b));
                        } else if b == region.base {
                            assert(v.live.contains_key(a));
                        } else {
                            assert(v.live.contains_key(a) && v.live.contains_key(b));
                        }
                    }
                    assert forall|b: nat| #[trigger] after.live.contains_key(b) implies after.within(
                        b,
                        after.live[b],
                    ) by {
                        if b != region.base {
                            assert(v.live.contains_key(b));
                        }
                    }
                },
                None => {
                    assert(region.memory.len() == need);
                    assert forall|k: int| 0 <= k < after.pool.len() implies (#[trigger] after.pool[k]).wf()
                        && after.within(after.pool[k].base, after.pool[k].size) by {
                        assert(v.pool[k].wf() && v.within(v.pool[k].base, v.pool[k].size));
                    }
                    assert forall|b: nat| #[trigger] after.live.contains_key(b) implies after.within(
                        b,
                        after.live[b],
                    ) by {
                        if b != region.base {
                            assert(v.live.contains_key(b));
                        }
                    }
                    assert forall|b: nat| #[trigger] v.live.contains_key(b) implies ranges_disjoint(
                        region.base,
                        region.size,
                        b,
                        v.live[b],
                    ) by {
                        assert(v.within(b, v.live[b]));
                    }
                    if v.live.contains_key(region.base) {
                        assert(v.within(region.base, v.live[region.base]));
                    }
                    assert forall|k: int, b: nat|
                        0 <= k < after.pool.len() && #[trigger] after.live.contains_key(
                            b,
                        ) implies ranges_disjoint(
                        (#[trigger] after.pool[k]).base,
                        after.pool[k].size,
                        b,
                        after.live[b],
                    ) by {
                        assert(v.within(v.pool[k].base, v.pool[k].size));
                        if b != region.base {
                            assert(v.live.contains_key(b));
                        }
                    }
                    assert forall|a: nat, b: nat|
                        #[trigger] after.live.contains_key(a) && #[trigger] after.live.contains_key(b)
                            && a != b implies ranges_disjoint(a, after.live[a], b, after.live[b]) by {
                        if a == region.base {
                            assert(v.live.contains_key(b));
                            assert(v.within(b, v.live[b]));
                        } else if b == region.base {
                            assert(v.live.contains_key(a));
                            assert(v.within(a, v.live[a]));
                        } else {
                            assert(v.live.contains_key(a) && v.live.contains_key(b));
                        }
                    }
                },
            }
        },
        None => {},
    }
}

/// No two live regions share an address, guard areas included.
pub proof fn lemma_live_regions_are_apart(v: AllocatorView, a: nat, b: nat)
    requires
        v.wf(),
        v.live.contains_key(a),
        v.live.contains_key(b),
        a != b,
    ensures
        ranges_disjoint(a, v.live[a], b, v.live[b]),
{
}

/// Taking back a region that the allocator owns keeps the allocator's invariant.
pub proof fn lemma_release_keeps_invariant(v: AllocatorView, region: RegionView)
    requires
        v.wf(),
        region.wf(),
        v.owns(region),
    ensures
        v.release(region).wf(),
        !v.release(region).owns(region),
{
    let after = v.release(region);
    assert(v.within(region.base, region.size));
    assert forall|k: int| 0 <= k < after.pool.len() implies (#[trigger] after.pool[k]).wf()
        && after.within(after.pool[k].base, after.pool[k].size) by {
        if k < v.pool.len() {
            assert(after.pool[k] == v.pool[k]);
        }
    }
    assert forall|b: nat| #[trigger] after.live.contains_key(b) implies after.within(
        b,
        after.live[b],
    ) by {
        assert(v.live.contains_key(b));
    }
    assert forall|k: int, l: int| 0 <= k < l < after.pool.len() implies ranges_disjoint(
        (#[trigger] after.pool[k]).base,
        after.pool[k].size,
        (#[trigger] after.pool[l]).base,
        after.pool[l].size,
    ) by {
        assert(after.pool[k] == v.pool[k]);
        if l < v.pool.len() {
            assert(after.pool[l] == v.pool[l]);
        } else {
            assert(v.live.contains_key(region.base));
            assert(ranges_disjoint(
                v.pool[k].base,
                v.pool[k].size,
                region.base,
                v.live[region.base],
            ));
        }
    }
    assert forall|k: int, b: nat|
        0 <= k < after.pool.len() && #[trigger] after.live.contains_key(b) implies ranges_disjoint(
        (#[trigger] after.pool[k]).base,
        after.pool[k].size,
        b,
        after.live[b],
    ) by {
        assert(v.live.contains_key(b));
        if k < v.pool.len() {
            assert(after.pool[k] == v.pool[k]);
        } else {
            assert(v.live.contains_key(region.base));
            assert(ranges_disjoint(region.base, v.live[region.base], b, v.live[b]));
        }
    }
    assert forall|a: nat, b: nat|
        #[trigger] after.live.contains_key(a) && #[trigger] after.live.contains_key(b) && a != b
            implies ranges_disjoint(a, after.live[a], b, after.live[b]) by {
        assert(v.live.contains_key(a) && v.live.contains_key(b));
    }
}

/// A released region is the first to be issued again for a request of its size: the
/// allocator hands back the same addresses and bytes, one generation on, and stands as it
/// stood before the release.
pub proof fn lemma_released_region_is_reused(v: AllocatorView, region: RegionView)
    requires
        v.wf(),
        region.wf(),
        v.owns(region),
        region.generation < u64::MAX,
    ensures
        v.release(region).acquire(region.size) == Some(
            (RegionView { generation: region.generation + 1, ..region }, v),
        ),
{
    let after = v.release(region);
    lemma_round_up_is_least_aligned(region.size);
    assert(round_up_to_page(region.size) == region.size);
    assert(after.pool.last() == region);
    assert(last_reusable(after.pool, region.size) == Some(after.pool.len() - 1));
    assert(after.pool.remove(after.pool.len() - 1) =~= v.pool);
    assert(after.live.insert(region.base, region.size) =~= v.live);
}

/// The pool of isolated regions of one address space.
pub struct RegionAllocator {
    capacity: usize,
    next: usize,
    pool: Vec<Region>,
    live: Ghost<Map<nat, nat>>,
}

impl View for RegionAllocator {
    type V = AllocatorView;

    closed spec fn view(&self) -> AllocatorView {
        AllocatorView {
            capacity: self.capacity as nat,
            next: self.next as nat,
            pool: self.pool@.map_values(|r: Region| r@),
            live: self.live@,
        }
    }
}

impl RegionAllocator {
    /// The invariant of the allocator; see [`AllocatorView::wf`].
    pub open spec fn wf(&self) -> bool {
        self@.wf()
    }

    /// An allocator that may map the addresses below `capacity` and has mapped none yet.
    pub fn new(capacity: usize) -> (allocator: RegionAllocator)
        ensures
            allocator.wf(),
            allocator@ == (AllocatorView {
                capacity: capacity as nat,
                next: 0,
                pool: Seq::empty(),
                live: Map::empty(),
            }),
    {
        let allocator = RegionAllocator {
            capacity,
            next: 0,
            pool: Vec::new(),
            live: Ghost(Map::empty()),
        };
        assert(allocator@.pool =~= Seq::empty());
        allocator
    }

    /// First address that the allocator may not map.
    pub fn capacity(&self) -> (capacity: usize)
        ensures
            capacity == self@.capacity,
    {
        self.capacity
    }

    /// Number of bytes of the address space that have been mapped so far.
    pub fn mapped(&self) -> (mapped: usize)
        ensures
            mapped == self@.next,
    {
        self.next
    }

    /// Number of released regions that wait in the pool.
    pub fn pooled(&self) -> (pooled: usize)
        ensures
            pooled == self@.pool.len(),
    {
        self.pool.len()
    }

    /// Index of the most recently released pooled region that can be issued for `need`
    /// bytes.
    fn find_reusable(&self, need: usize) -> (found: Option<usize>)
        ensures
            match found {
                Some(i) => last_reusable(self@.pool, need as nat) == Some(i as int),
                None => last_reusable(self@.pool, need as nat) is None,
            },
    {
        let mut i: usize = self.pool.len();
        while i > 0
            invariant
                i <= self.pool.len(),
                self@.pool.len() == self.pool.len(),
                forall|j: int|
                    i <= j < self.pool.len() ==> !reusable(#[trigger] self@.pool[j], need as nat),
            decreases i,
        {
            i = i - 1;
            assert(self@.pool[i as int] == self.pool[i as int]@);
            if self.pool[i].size() == need && self.pool[i].generation() < u64::MAX {
                proof {
                    lemma_last_reusable(self@.pool, need as nat);
                    assert(reusable(self@.pool[i as int], need as nat));
                }
                return Some(i);
            }
        }
        proof {
            lemma_last_reusable(self@.pool, need as nat);
        }
        None
    }

    /// Reserves an isolated region of at least `size` committed bytes, rounded up to whole
    /// pages and bracketed by guard areas.
    ///
    /// The result is exactly what [`AllocatorView::acquire`] describes. Where the request
    /// cannot be met the allocator is left as it was.
    pub fn acquire(&mut self, size: usize) -> (result: Result<Region, Error>)
        requires
            old(self).wf(),
        ensures
            final(self).wf(),
            match old(self)@.acquire(size as nat) {
                Some((region, after)) => {
                    &&& result matches Ok(issued)
                    &&& issued@ == region
                    &&& issued.wf()
                    &&& final(self)@ == after
                },
                None => {
                    &&& result matches Err(e)
                    &&& e == Error::OutOfMemory
                    &&& final(self)@ == old(self)@
                },
            },
            result matches Ok(issued) ==> forall|b: nat| #[trigger]
                old(self)@.live.contains_key(b) ==> ranges_disjoint(
                    issued@.base,
                    issued@.size,
                    b,
                    old(self)@.live[b],
                ),
    {
        proof {
            lemma_acquire_keeps_regions_apart(self@, size as nat);
            lemma_round_up_is_least_aligned(size as nat);
            lemma_last_reusable(self@.pool, round_up_to_page(size as nat));
        }
        let need = match page_round_up(size) {
            Some(need) => need,
            None => {
                proof {
                    let need = round_up_to_page(size as nat);
                    if self@.pool.len() > 0 && last_reusable(self@.pool, need) is Some {
                        let i = last_reusable(self@.pool, need)->Some_0;
                        assert(self@.within(self@.pool[i].base, self@.pool[i].size));
                    }
                }
                return Err(Error::OutOfMemory);
            },
        };
        match self.find_reusable(need) {
            Some(i) => {
                let ghost before = self@;
                let mut region = self.pool.remove(i);
                assert(region@ == before.pool[i as int]);
                region.reissue();
                proof {
                    self.live@ = self.live@.insert(region@.base, region@.size);
                }
                assert(self@.pool =~= before.pool.remove(i as int));
                Ok(region)
            },
            None => {
                if need > self.capacity - self.next || self.capacity - self.next - need < 2
                    * GUARD_SIZE {
                    return Err(Error::OutOfMemory);
                }
                let ghost before = self@;
                let base = self.next + GUARD_SIZE;
                let region = Region::fresh(base, need);
                self.next = base + need + GUARD_SIZE;
                proof {
                    self.live@ = self.live@.insert(region@.base, region@.size);
                }
                assert(self@.pool =~= before.pool);
                Ok(region)
            },
        }
    }

    /// Takes `region` back into the pool. Its bytes stay as they are; it is the first to be
    /// issued again for a request of its size.
    pub fn release(&mut self, region: Region)
        requires
            old(self).wf(),
            region.wf(),
            old(self)@.owns(region@),
        ensures
            final(self).wf(),
            final(self)@ == old(self)@.release(region@),
    {
        proof {
            lemma_release_keeps_invariant(self@, region@);
        }
        let ghost before = self@;
        let ghost released = region@;
        self.pool.push(region);
        proof {
            self.live@ = self.live@.remove(released.base);
        }
        assert(self@.pool =~= before.pool.push(released));
    }
}

} // verus!
