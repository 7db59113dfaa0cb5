//! Geometry allocator: fixed-stride vertex records sub-allocated out of one
//! pre-sized buffer.
//!
//! Every region ever carved out of the buffer has an id, its index in the
//! region table. The table is a partition of the buffer; an id is free when it
//! stands in the free pool and live otherwise.
use vstd::prelude::*;

verus! {

/// A contiguous run of vertex slots: `offset .. offset + length`.
#[derive(Clone, Copy, Debug, PartialEq, Eq)]
pub struct GeometryRegion {
    pub offset: usize,
    pub length: usize,
}

impl GeometryRegion {
    pub open spec fn end(self) -> int {
        self.offset + self.length
    }

    pub open spec fn contains(self, p: int) -> bool {
        self.offset <= p < self.end()
    }

    pub open spec fn disjoint(self, other: GeometryRegion) -> bool {
        self.end() <= other.offset || other.end() <= self.offset
    }
}

/// Opaque identity of one geometry allocation.
#[derive(Debug)]
pub struct MeshHandle {
    id: usize,
}

impl MeshHandle {
    pub closed spec fn view(self) -> nat {
        self.id as nat
    }

    pub fn id(&self) -> (r: usize)
        ensures
            r == self@,
    {
        self.id
    }
}

#[derive(Clone, Copy, Debug, PartialEq, Eq)]
pub enum GeometryError {
    /// No free region is large enough for the request.
    OutOfGeometrySpace,
    /// A write reaches past the end of the handle's region.
    RegionTooSmall,
    /// The handle is not a live allocation of this manager.
    UnknownHandle,
}

pub struct MeshManager {
    vertex_count: usize,
    regions: Vec<GeometryRegion>,
    free_ids: Vec<usize>,
}

/// Point `p` lies in some region of `t`.
pub open spec fn covered(t: Seq<GeometryRegion>, p: int) -> bool {
    exists|i: int| 0 <= i < t.len() && (#[trigger] t[i]).contains(p)
}

/// Every point of `0 .. cap` lies in some region of `t`.
pub open spec fn covers(t: Seq<GeometryRegion>, cap: int) -> bool {
    forall|p: int| 0 <= p < cap ==> #[trigger] covered(t, p)
}

/// No two regions of `t` overlap.
pub open spec fn pairwise_disjoint(t: Seq<GeometryRegion>) -> bool {
    forall|i: int, j: int|
        0 <= i < t.len() && 0 <= j < t.len() && i != j ==> (#[trigger] t[i]).disjoint(#[trigger] t[j])
}

/// Every region of `t` lies inside `0 .. cap`.
pub open spec fn within(t: Seq<GeometryRegion>, cap: int) -> bool {
    forall|i: int| 0 <= i < t.len() ==> (#[trigger] t[i]).end() <= cap
}

impl MeshManager {
    /// Number of vertex slots of the whole buffer.
    pub closed spec fn capacity(self) -> nat {
        self.vertex_count as nat
    }

    /// The region table: entry `i` is the region of id `i`, live or free.
    pub closed spec fn table(self) -> Seq<GeometryRegion> {
        self.regions@
    }

    /// The free pool, in the order in which it is scanned.
    pub closed spec fn free_pool(self) -> Seq<usize> {
        self.free_ids@
    }

    pub open spec fn is_live(self, id: nat) -> bool {
        id < self.table().len() && !self.free_pool().contains(id as usize)
    }

    pub open spec fn region(self, id: nat) -> GeometryRegion {
        self.table()[id as int]
    }

    pub closed spec fn wf(self) -> bool {
        &&& within(self.regions@, self.vertex_count as int)
        &&& pairwise_disjoint(self.regions@)
        &&& covers(self.regions@, self.vertex_count as int)
        &&& self.free_ids@.no_duplicates()
        &&& forall|i: int| 0 <= i < self.free_ids@.len() ==> #[trigger] self.free_ids@[i] < self.regions@.len()
        &&& self.regions@.len() < usize::MAX
    }

    /// The free entry at position `i` of the pool has exactly `size` slots.
    pub open spec fn exact_at(self, i: int, size: nat) -> bool {
        0 <= i < self.free_pool().len() && self.region(self.free_pool()[i] as nat).length == size
    }

    /// The free entry at position `i` of the pool has more than `size` slots.
    pub open spec fn larger_at(self, i: int, size: nat) -> bool {
        0 <= i < self.free_pool().len() && self.region(self.free_pool()[i] as nat).length > size
    }

    /// Some free entry can hold `size` slots.
    pub open spec fn can_fit(self, size: nat) -> bool {
        exists|i: int| self.exact_at(i, size) || self.larger_at(i, size)
    }

    /// Position `i` is the first of the pool whose entry has exactly `size` slots.
    pub open spec fn first_exact(self, i: int, size: nat) -> bool {
        self.exact_at(i, size) && forall|j: int| 0 <= j < i ==> !#[trigger] self.exact_at(j, size)
    }

    /// Position `i` is the first of the pool whose entry has more than `size` slots.
    pub open spec fn first_larger(self, i: int, size: nat) -> bool {
        self.larger_at(i, size) && forall|j: int| 0 <= j < i ==> !#[trigger] self.larger_at(j, size)
    }

    pub open spec fn has_exact(self, size: nat) -> bool {
        exists|i: int| self.exact_at(i, size)
    }

    pub open spec fn has_larger(self, size: nat) -> bool {
        exists|i: int| self.larger_at(i, size)
    }

    /// The table after the free entry of id `k` gives its leading `size` slots
    /// to a new id, appended at the end.
    pub open spec fn split_table(self, k: nat, size: nat) -> Seq<GeometryRegion> {
        let g = self.region(k);
        self.table().update(
            k as int,
            GeometryRegion { offset: (g.offset + size) as usize, length: (g.length - size) as usize },
        ).push(GeometryRegion { offset: g.offset, length: size as usize })
    }

    /// An allocation of `size` slots succeeds: an exact match is free, or a
    /// larger free entry can be split while ids remain.
    pub open spec fn can_alloc(self, size: nat) -> bool {
        self.has_exact(size) || (self.has_larger(size) && self.table().len() + 2 < usize::MAX)
    }

    /// A manager over a buffer of `size` vertex slots, all of it one free region.
    pub fn new(size: usize) -> (r: MeshManager)
        ensures
            r.wf(),
            r.capacity() == size,
            r.table() == seq![GeometryRegion { offset: 0, length: size }],
            r.free_pool() == seq![0usize],
    {
        let mut regions: Vec<GeometryRegion> = Vec::new();
        regions.push(GeometryRegion { offset: 0, length: size });
        let mut free_ids: Vec<usize> = Vec::new();
        free_ids.push(0);
        let r = MeshManager { vertex_count: size, regions, free_ids };
        assert(covers(r.regions@, size as int)) by {
            assert forall|p: int| 0 <= p < size implies #[trigger] covered(r.regions@, p) by {
                assert(r.regions@[0].contains(p));
            }
        }
        r
    }

    /// Reserves `size` contiguous vertex slots. The first free entry of exactly
    /// `size` slots is handed out whole under its own id; failing that, the
    /// first larger one gives up its leading `size` slots to a fresh id and
    /// stays free with the rest.
    pub fn alloc_mesh(&mut self, size: usize) -> (r: Result<MeshHandle, GeometryError>)
        requires
            old(self).wf(),
        ensures
            final(self).wf(),
            final(self).capacity() == old(self).capacity(),
            r is Ok <==> old(self).can_alloc(size as nat),
            forall|id: nat| #[trigger] old(self).is_live(id) ==> final(self).is_live(id) && final(self).region(id) == old(self).region(id),
            match r {
                Ok(h) => !old(self).is_live(h@) && final(self).is_live(h@)
                    && final(self).region(h@).length == size
                    && (forall|id: nat| id < old(self).table().len() && !#[trigger] old(self).is_live(id) && id != h@
                        ==> !final(self).is_live(id))
                    && if old(self).has_exact(size as nat) {
                    exists|i: int|
                        #[trigger] old(self).first_exact(i, size as nat)
                        && h@ == old(self).free_pool()[i]
                        && final(self).table() == old(self).table()
                        && final(self).free_pool() == old(self).free_pool().remove(i)
                } else {
                    exists|i: int|
                        #[trigger] old(self).first_larger(i, size as nat)
                        && h@ == old(self).table().len()
                        && final(self).table() == old(self).split_table(old(self).free_pool()[i] as nat, size as nat)
                        && final(self).free_pool() == old(self).free_pool()
                },
                Err(e) => e == GeometryError::OutOfGeometrySpace && *final(self) == *old(self),
            },
    {
        let n: usize = self.free_ids.len();
        let mut i: usize = 0;
        while i < n
            invariant
                *self == *old(self),
                self.wf(),
                n == self.free_ids@.len(),
                0 <= i <= n,
                forall|j: int| 0 <= j < i ==> !#[trigger] self.exact_at(j, size as nat),
            decreases n - i,
        {
            let id: usize = self.free_ids[i];
            if self.regions[id].length == size {
                assert(self.first_exact(i as int, size as nat));
                self.free_ids.remove(i);
                proof {
                    assert forall|x: nat| #[trigger] old(self).is_live(x) implies self.is_live(x) by {
                        if self.free_ids@.contains(x as usize) {
                            let a = choose|a: int| 0 <= a < self.free_ids@.len() && self.free_ids@[a] == x as usize;
                            let oa = if a < i { a } else { a + 1 };
                            assert(old(self).free_ids@[oa] == x as usize);
                        }
                    }
                    assert(old(self).free_ids@[i as int] == id);
                    assert forall|x: nat| x < old(self).table().len() && !#[trigger] old(self).is_live(x) && x != id
                        implies !self.is_live(x) by {
                        let a = choose|a: int| 0 <= a < old(self).free_ids@.len() && old(self).free_ids@[a] == x as usize;
                        assert(a != i);
                        let na = if a < i { a } else { a - 1 };
                        assert(self.free_ids@[na] == x as usize);
                    }
                    assert(!self.free_ids@.contains(id)) by {
                        if self.free_ids@.contains(id) {
                            let a = choose|a: int| 0 <= a < self.free_ids@.len() && self.free_ids@[a] == id;
                            let oa = if a < i { a } else { a + 1 };
                            assert(old(self).free_ids@[oa] == id);
                        }
                    }
                    let old_pool = old(self).free_ids@;
                    let new_pool = self.free_ids@;
                    assert(new_pool == old_pool.remove(i as int));
                    assert forall|a: int, b: int| 0 <= a < new_pool.len() && 0 <= b < new_pool.len() && a != b
                        implies new_pool[a] != new_pool[b] by {
                        let oa = if a < i { a } else { a + 1 };
                        let ob = if b < i { b } else { b + 1 };
                        assert(new_pool[a] == old_pool[oa]);
                        assert(new_pool[b] == old_pool[ob]);
                    }
                    assert forall|a: int| 0 <= a < new_pool.len() implies #[trigger] new_pool[a] < self.regions@.len() by {
                        let oa = if a < i { a } else { a + 1 };
                        assert(new_pool[a] == old_pool[oa]);
                    }
                }
                return Ok(MeshHandle { id });
            }
            i = i + 1;
        }
        assert(!self.has_exact(size as nat));
        if self.regions.len() >= usize::MAX - 2 {
            return Err(GeometryError::OutOfGeometrySpace);
        }
        let mut i: usize = 0;
        while i < n
            invariant
                *self == *old(self),
                self.wf(),
                !self.has_exact(size as nat),
                n == self.free_ids@.len(),
                self.regions@.len() + 2 < usize::MAX,
                0 <= i <= n,
                forall|j: int| 0 <= j < i ==> !#[trigger] self.larger_at(j, size as nat),
            decreases n - i,
        {
            let id: usize = self.free_ids[i];
            let g: GeometryRegion = self.regions[id];
            if g.length > size {
                assert(self.first_larger(i as int, size as nat));
                let new_id: usize = self.regions.len();
                let ghost t0 = self.regions@;
                let ghost cap = self.vertex_count as int;
                self.regions.set(id, GeometryRegion { offset: g.offset + size, length: g.length - size });
                self.regions.push(GeometryRegion { offset: g.offset, length: size });
                proof {
                    let t1 = self.regions@;
                    assert(t1 == old(self).split_table(id as nat, size as nat));
                    lemma_split_keeps_partition(t0, t1, id as int, size as int, cap);
                    assert(old(self).free_ids@[i as int] == id);
                    assert forall|x: nat| #[trigger] old(self).is_live(x) implies self.is_live(x)
                        && self.region(x) == old(self).region(x) by {
                        assert(x != id);
                    }
                    assert forall|x: nat| x < old(self).table().len() && !#[trigger] old(self).is_live(x) && x != new_id
                        implies !self.is_live(x) by {
                        assert(self.free_ids@ == old(self).free_ids@);
                    }
                    assert(!self.free_ids@.contains(new_id)) by {
                        if self.free_ids@.contains(new_id) {
                            let a = choose|a: int| 0 <= a < self.free_ids@.len() && self.free_ids@[a] == new_id;
                            assert(old(self).free_ids@[a] < t0.len());
                        }
                    }
                    assert forall|a: int| 0 <= a < self.free_ids@.len()
                        implies #[trigger] self.free_ids@[a] < self.regions@.len() by {
                        assert(old(self).free_ids@[a] < t0.len());
                    }
                }
                return Ok(MeshHandle { id: new_id });
            }
            i = i + 1;
        }
        Err(GeometryError::OutOfGeometrySpace)
    }

    fn in_free_pool(&self, id: usize) -> (r: bool)
        ensures
            r == self.free_pool().contains(id),
    {
        let mut i: usize = 0;
        while i < self.free_ids.len()
            invariant
                0 <= i <= self.free_ids@.len(),
                forall|j: int| 0 <= j < i ==> self.free_ids@[j] != id,
            decreases self.free_ids@.len() - i,
        {
            if self.free_ids[i] == id {
                return true;
            }
            i = i + 1;
        }
        false
    }

    /// Whether `handle` is a live allocation of this manager.
    pub fn is_allocated(&self, handle: &MeshHandle) -> (r: bool)
        ensures
            r == self.is_live(handle@),
    {
        handle.id < self.regions.len() && !self.in_free_pool(handle.id)
    }

    /// Returns the handle's region to the free pool, unmerged with its
    /// neighbours. A handle that is not live leaves the manager unchanged.
    pub fn free_mesh(&mut self, handle: MeshHandle)
        requires
            old(self).wf(),
        ensures
            final(self).wf(),
            final(self).capacity() == old(self).capacity(),
            final(self).table() == old(self).table(),
            final(self).free_pool() == if old(self).is_live(handle@) {
                old(self).free_pool().push(handle@ as usize)
            } else {
                old(self).free_pool()
            },
            !final(self).is_live(handle@),
            forall|id: nat| #[trigger] final(self).is_live(id) ==> old(self).is_live(id),
            forall|id: nat| #[trigger] old(self).is_live(id) && id != handle@ ==> final(self).is_live(id)
                && final(self).region(id) == old(self).region(id),
    {
        if self.is_allocated(&handle) {
            self.free_ids.push(handle.id);
            proof {
                assert forall|a: int, b: int| 0 <= a < self.free_ids@.len() && 0 <= b < self.free_ids@.len() && a != b
                    implies self.free_ids@[a] != self.free_ids@[b] by {
                    let last = old(self).free_ids@.len() as int;
                    if a == last {
                        assert(old(self).free_ids@[b] != handle.id);
                    } else if b == last {
                        assert(old(self).free_ids@[a] != handle.id);
                    }
                }
                assert forall|a: int| 0 <= a < self.free_ids@.len() implies #[trigger] self.free_ids@[a] < self.regions@.len() by {
                    if a < old(self).free_ids@.len() {
                        assert(old(self).free_ids@[a] < self.regions@.len());
                    }
                }
                assert forall|x: nat| #[trigger] old(self).is_live(x) && x != handle@ implies self.is_live(x) by {
                    if self.free_ids@.contains(x as usize) {
                        let a = choose|a: int| 0 <= a < self.free_ids@.len() && self.free_ids@[a] == x as usize;
                        if a < old(self).free_ids@.len() {
                            assert(old(self).free_ids@.contains(x as usize));
                        }
                    }
                }
                assert(self.free_ids@[old(self).free_ids@.len() as int] == handle.id);
                assert forall|x: nat| #[trigger] self.is_live(x) implies old(self).is_live(x) by {
                    if old(self).free_ids@.contains(x as usize) {
                        let a = choose|a: int| 0 <= a < old(self).free_ids@.len() && old(self).free_ids@[a] == x as usize;
                        assert(self.free_ids@[a] == x as usize);
                    }
                }
            }
        }
    }

    /// The absolute slots written when `count` vertices go to the handle's
    /// region starting `offset` slots into it; the write must fit the region.
    pub fn set_vertices(&self, handle: &MeshHandle, count: usize, offset: usize) -> (r: Result<
        core::ops::Range<usize>,
        GeometryError,
    >)
        requires
            self.wf(),
        ensures
            match r {
                Ok(w) => self.is_live(handle@) && offset + count <= self.region(handle@).length
                    && w.start == self.region(handle@).offset + offset && w.end == w.start + count,
                Err(e) => if !self.is_live(handle@) {
                    e == GeometryError::UnknownHandle
                } else {
                    e == GeometryError::RegionTooSmall && offset + count > self.region(handle@).length
                },
            },
    {
        if !self.is_allocated(handle) {
            return Err(GeometryError::UnknownHandle);
        }
        let g: GeometryRegion = self.regions[handle.id];
        if offset > g.length || count > g.length - offset {
            return Err(GeometryError::RegionTooSmall);
        }
        proof {
            assert(self.regions@[handle.id as int].end() <= self.vertex_count);
        }
        Ok(core::ops::Range { start: g.offset + offset, end: g.offset + offset + count })
    }

    /// The slots of a live handle's region.
    pub fn get_range(&self, handle: &MeshHandle) -> (r: Option<core::ops::Range<usize>>)
        requires
            self.wf(),
        ensures
            match r {
                Some(w) => self.is_live(handle@) && w.start == self.region(handle@).offset
                    && w.end == self.region(handle@).end(),
                None => !self.is_live(handle@),
            },
    {
        if !self.is_allocated(handle) {
            return None;
        }
        let g: GeometryRegion = self.regions[handle.id];
        proof {
            assert(self.regions@[handle.id as int].end() <= self.vertex_count);
        }
        Some(core::ops::Range { start: g.offset, end: g.offset + g.length })
    }
}

/// Pushing id `k` onto the free pool makes room exactly for what fitted
/// before or fits in the region of `k`.
pub proof fn lemma_can_alloc_after_free(m0: MeshManager, m1: MeshManager, k: nat, size: nat)
    requires
        m0.wf(),
        m1.table() == m0.table(),
        m1.free_pool() == m0.free_pool().push(k as usize),
        k < m0.table().len(),
    ensures
        m1.can_alloc(size) <==> m0.can_alloc(size) || m0.region(k).length == size
            || (m0.region(k).length > size && m0.table().len() + 2 < usize::MAX),
{
    let last = m0.free_pool().len() as int;
    assert(m1.free_pool()[last] == k as usize);
    if m0.region(k).length == size {
        assert(m1.exact_at(last, size));
    }
    if m0.region(k).length > size {
        assert(m1.larger_at(last, size));
    }
    if m0.has_exact(size) {
        let i = choose|i: int| m0.exact_at(i, size);
        assert(m1.exact_at(i, size));
    }
    if m0.has_larger(size) {
        let i = choose|i: int| m0.larger_at(i, size);
        assert(m1.larger_at(i, size));
    }
    if m1.has_exact(size) {
        let i = choose|i: int| m1.exact_at(i, size);
        if i < last {
            assert(m0.exact_at(i, size));
        }
    }
    if m1.has_larger(size) {
        let i = choose|i: int| m1.larger_at(i, size);
        if i < last {
            assert(m0.larger_at(i, size));
        }
    }
}

/// The live and free regions together are exactly the buffer `0 .. capacity`,
/// and no two of them overlap; in particular no two live regions overlap.
pub proof fn lemma_allocator_exactness(m: &MeshManager)
    requires
        m.wf(),
    ensures
        forall|id: nat| id < m.table().len() ==> m.is_live(id) || m.free_pool().contains(id as usize),
        forall|id: nat| id < m.table().len() ==> #[trigger] m.region(id).end() <= m.capacity(),
        forall|p: int| 0 <= p < m.capacity() ==> #[trigger] covered(m.table(), p),
        forall|a: nat, b: nat| #[trigger] m.is_live(a) && #[trigger] m.is_live(b) && a != b
            ==> m.region(a).disjoint(m.region(b)),
        forall|a: nat, b: nat| a < m.table().len() && b < m.table().len() && a != b
            ==> (#[trigger] m.region(a)).disjoint(#[trigger] m.region(b)),
        forall|i: int| 0 <= i < m.free_pool().len() ==> #[trigger] m.free_pool()[i] < m.table().len(),
        m.free_pool().no_duplicates(),
        m.capacity() <= usize::MAX,
        m.table().len() < usize::MAX,
{
    assert forall|id: nat| id < m.table().len() implies #[trigger] m.region(id).end() <= m.capacity() by {
        assert(m.regions@[id as int].end() <= m.vertex_count);
    }
    assert forall|p: int| 0 <= p < m.capacity() implies #[trigger] covered(m.table(), p) by {
        assert(covered(m.regions@, p));
    }
    assert forall|a: nat, b: nat| a < m.table().len() && b < m.table().len() && a != b
        implies (#[trigger] m.region(a)).disjoint(#[trigger] m.region(b)) by {
        assert(m.regions@[a as int].disjoint(m.regions@[b as int]));
    }
}

/// Splitting entry `k` of a partition into a leading part of `size` slots
/// (appended) and the rest (kept at `k`) leaves a partition.
proof fn lemma_split_keeps_partition(t0: Seq<GeometryRegion>, t1: Seq<GeometryRegion>, k: int, size: int, cap: int)
    requires
        within(t0, cap),
        pairwise_disjoint(t0),
        covers(t0, cap),
        cap <= usize::MAX,
        0 <= k < t0.len(),
        0 <= size < t0[k].length,
        t1.len() == t0.len() + 1,
        t1[k] == (GeometryRegion { offset: (t0[k].offset + size) as usize, length: (t0[k].length - size) as usize }),
        t1[t0.len() as int] == (GeometryRegion { offset: t0[k].offset, length: size as usize }),
        forall|j: int| 0 <= j < t0.len() && j != k ==> t1[j] == t0[j],
    ensures
        within(t1, cap),
        pairwise_disjoint(t1),
        covers(t1, cap),
{
    let last = t0.len() as int;
    assert forall|i: int| 0 <= i < t1.len() implies (#[trigger] t1[i]).end() <= cap by {
        assert(t0[k].end() <= cap);
        if i != k && i != last {
            assert(t1[i] == t0[i]);
        }
    }
    assert forall|i: int, j: int| 0 <= i < t1.len() && 0 <= j < t1.len() && i != j
        implies (#[trigger] t1[i]).disjoint(#[trigger] t1[j]) by {
        if i != k && i != last {
            assert(t0[i].disjoint(t0[k]));
        }
        if j != k && j != last {
            assert(t0[j].disjoint(t0[k]));
        }
    }
    assert forall|p: int| 0 <= p < cap implies #[trigger] covered(t1, p) by {
        assert(covered(t0, p));
        let i = choose|i: int| 0 <= i < t0.len() && (#[trigger] t0[i]).contains(p);
        if i == k {
            if p < t0[k].offset + size {
                assert(t1[last].contains(p));
            } else {
                assert(t1[k].contains(p));
            }
        } else {
            assert(t1[i].contains(p));
        }
    }
}

} // verus!
