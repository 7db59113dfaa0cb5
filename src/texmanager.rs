//! Texture array allocator: a bounded, dense array of GPU images behind one
//! bindless descriptor. Handles are minted in increasing order; the array
//! index of a handle is re-derived on every change and must not be cached.
use vstd::prelude::*;
use crate::packed::{PackedArray, lemma_swap_removed_contains, swap_removed};

verus! {

/// Opaque identity of one texture slot.
#[derive(Debug)]
pub struct TexHandle {
    id: u64,
}

impl TexHandle {
    pub closed spec fn view(self) -> u64 {
        self.id
    }

    pub fn id(&self) -> (r: u64)
        ensures
            r == self@,
    {
        self.id
    }
}

#[derive(Clone, Copy, Debug, PartialEq, Eq)]
pub enum TextureError {
    /// Every slot of the array is taken.
    TextureArrayFull,
    /// Every handle id has been handed out.
    HandlesExhausted,
}

/// The committed images, of type `R` (for the renderer, a GPU texture and its
/// view), in array order.
pub struct TexManager<R> {
    committed: PackedArray<R>,
    max_size: usize,
    id_count: u64,
    rebuild_pending: bool,
}

impl<R> TexManager<R> {
    /// The handle id at each array index.
    pub closed spec fn handles(self) -> Seq<u64> {
        self.committed.ids()
    }

    /// The committed images, by array index.
    pub closed spec fn images(self) -> Seq<R> {
        self.committed.items()
    }

    pub closed spec fn capacity(self) -> nat {
        self.max_size as nat
    }

    /// The id that the next allocation hands out.
    pub closed spec fn next_id(self) -> u64 {
        self.id_count
    }

    /// Whether the binding descriptor is stale and must be rebuilt before the
    /// next bind.
    pub closed spec fn stale(self) -> bool {
        self.rebuild_pending
    }

    pub open spec fn is_live(self, id: u64) -> bool {
        self.handles().contains(id)
    }

    /// The current array index of a live handle.
    pub open spec fn index_of(self, id: u64) -> int {
        choose|i: int| 0 <= i < self.handles().len() && self.handles()[i] == id
    }

    pub closed spec fn wf(self) -> bool {
        &&& self.committed.wf()
        &&& self.committed.ids().len() <= self.max_size
        &&& forall|i: int| 0 <= i < self.committed.ids().len() ==> #[trigger] self.committed.ids()[i] < self.id_count
    }

    pub proof fn lemma_wf(self)
        requires
            self.wf(),
        ensures
            self.handles().no_duplicates(),
            self.handles().len() == self.images().len(),
            self.handles().len() <= self.capacity(),
            forall|i: int| 0 <= i < self.handles().len() ==> #[trigger] self.handles()[i] < self.next_id(),
    {
        self.committed.lemma_wf();
    }

    /// An empty array of `size` slots.
    pub fn new(size: usize) -> (r: TexManager<R>)
        ensures
            r.wf(),
            r.capacity() == size,
            r.handles() == Seq::<u64>::empty(),
            r.next_id() == 0,
            r.stale(),
    {
        TexManager { committed: PackedArray::new(), max_size: size, id_count: 0, rebuild_pending: true }
    }

    /// Number of committed images.
    pub fn len(&self) -> (r: usize)
        requires
            self.wf(),
        ensures
            r == self.handles().len(),
    {
        self.committed.len()
    }

    /// The id that the next allocation hands out.
    pub fn next_handle_id(&self) -> (r: u64)
        ensures
            r == self.next_id(),
    {
        self.id_count
    }

    pub fn max_size(&self) -> (r: usize)
        ensures
            r == self.capacity(),
    {
        self.max_size
    }

    /// Commits `image` at the end of the array under a fresh handle.
    pub fn alloc_tex(&mut self, image: R) -> (r: Result<TexHandle, TextureError>)
        requires
            old(self).wf(),
        ensures
            final(self).wf(),
            final(self).capacity() == old(self).capacity(),
            match r {
                Ok(h) => old(self).handles().len() < old(self).capacity()
                    && old(self).next_id() < u64::MAX
                    && h@ == old(self).next_id()
                    && final(self).handles() == old(self).handles().push(h@)
                    && final(self).images() == old(self).images().push(image)
                    && final(self).next_id() == old(self).next_id() + 1
                    && final(self).stale(),
                Err(e) => *final(self) == *old(self) && if old(self).handles().len() >= old(self).capacity() {
                    e == TextureError::TextureArrayFull
                } else {
                    e == TextureError::HandlesExhausted && old(self).next_id() == u64::MAX
                },
            },
    {
        if self.committed.len() >= self.max_size {
            return Err(TextureError::TextureArrayFull);
        }
        if self.id_count == u64::MAX {
            return Err(TextureError::HandlesExhausted);
        }
        let id: u64 = self.id_count;
        proof {
            if self.committed.ids().contains(id) {
                let k = choose|k: int| 0 <= k < self.committed.ids().len() && self.committed.ids()[k] == id;
                assert(self.committed.ids()[k] < self.id_count);
            }
        }
        self.committed.push(id, image);
        self.id_count = id + 1;
        self.rebuild_pending = true;
        proof {
            assert forall|i: int| 0 <= i < self.committed.ids().len() implies #[trigger] self.committed.ids()[i] < self.id_count by {
                if i < old(self).committed.ids().len() {
                    assert(old(self).committed.ids()[i] < old(self).id_count);
                }
            }
        }
        Ok(TexHandle { id })
    }

    /// Releases a slot: the last committed image moves into it, so the handle
    /// that held the last index now holds the freed one. Hands the image back.
    pub fn free_tex(&mut self, handle: TexHandle) -> (r: Option<R>)
        requires
            old(self).wf(),
        ensures
            final(self).wf(),
            final(self).capacity() == old(self).capacity(),
            final(self).next_id() == old(self).next_id(),
            !final(self).is_live(handle@),
            forall|id: u64| #[trigger] final(self).is_live(id) ==> old(self).is_live(id),
            forall|id: u64| #[trigger] old(self).is_live(id) && id != handle@ ==> final(self).is_live(id),
            match r {
                Some(x) => old(self).is_live(handle@)
                    && x == old(self).images()[old(self).index_of(handle@)]
                    && final(self).handles() == swap_removed(old(self).handles(), old(self).index_of(handle@))
                    && final(self).images() == swap_removed(old(self).images(), old(self).index_of(handle@))
                    && final(self).stale(),
                None => !old(self).is_live(handle@) && *final(self) == *old(self),
            },
    {
        let r = self.committed.swap_remove(handle.id);
        if r.is_some() {
            self.rebuild_pending = true;
            proof {
                let o = old(self).committed.ids();
                let p = old(self).committed.position(handle.id);
                old(self).committed.lemma_position(handle.id);
                old(self).committed.lemma_wf();
                lemma_swap_removed_contains(o, p);
                assert forall|i: int| 0 <= i < self.committed.ids().len() implies #[trigger] self.committed.ids()[i] < self.id_count by {
                    if i == p {
                        assert(o[o.len() - 1] < self.id_count);
                    } else {
                        assert(o[i] < self.id_count);
                    }
                }
            }
        }
        r
    }

    /// The current array index of a live handle.
    pub fn get_index(&self, handle: &TexHandle) -> (r: Option<usize>)
        requires
            self.wf(),
        ensures
            match r {
                Some(i) => self.is_live(handle@) && i == self.index_of(handle@),
                None => !self.is_live(handle@),
            },
    {
        self.committed.index(handle.id)
    }

    /// The committed image of a live handle, to re-upload pixels in place.
    pub fn texture(&self, handle: &TexHandle) -> (r: Option<&R>)
        requires
            self.wf(),
        ensures
            match r {
                Some(x) => self.is_live(handle@) && *x == self.images()[self.index_of(handle@)],
                None => !self.is_live(handle@),
            },
    {
        self.committed.get(handle.id)
    }

    /// Every committed image in array order: what the binding descriptor
    /// references.
    pub fn committed(&self) -> (r: &Vec<R>)
        ensures
            r@ == self.images(),
    {
        self.committed.as_vec()
    }

    /// Whether the descriptor must be rebuilt before the next bind; set by
    /// every allocation and every free.
    pub fn needs_rebuild(&self) -> (r: bool)
        ensures
            r == self.stale(),
    {
        self.rebuild_pending
    }

    /// Records that the descriptor was rebuilt from `committed()`.
    pub fn mark_rebuilt(&mut self)
        ensures
            !final(self).stale(),
            final(self).handles() == old(self).handles(),
            final(self).images() == old(self).images(),
            final(self).capacity() == old(self).capacity(),
            final(self).next_id() == old(self).next_id(),
            old(self).wf() ==> final(self).wf(),
    {
        self.rebuild_pending = false;
    }
}

/// Whatever was allocated and freed before, the array indices of the live
/// handles are exactly `0 .. N`, one handle each, where N is their number.
pub proof fn lemma_indices_dense<R>(m: &TexManager<R>)
    requires
        m.wf(),
    ensures
        forall|id: u64| #[trigger] m.is_live(id) ==> 0 <= m.index_of(id) < m.handles().len()
            && m.handles()[m.index_of(id)] == id,
        forall|a: u64, b: u64| #[trigger] m.is_live(a) && #[trigger] m.is_live(b) && a != b
            ==> m.index_of(a) != m.index_of(b),
        forall|i: int| 0 <= i < m.handles().len() ==> #[trigger] m.is_live(m.handles()[i])
            && m.index_of(m.handles()[i]) == i,
{
    m.lemma_wf();
    assert forall|i: int| 0 <= i < m.handles().len() implies #[trigger] m.is_live(m.handles()[i])
        && m.index_of(m.handles()[i]) == i by {
        let h = m.handles();
        assert(h.contains(h[i]));
        let j = m.index_of(h[i]);
        assert(h[j] == h[i]);
    }
}

/// Freeing a handle that is not at the last index moves exactly one other
/// handle, the one that was last, into the freed index; every other live
/// handle keeps its index.
pub proof fn lemma_free_moves_only_last<R>(before: &TexManager<R>, after: &TexManager<R>, h: u64)
    requires
        before.wf(),
        after.wf(),
        before.is_live(h),
        before.index_of(h) < before.handles().len() - 1,
        after.handles() == swap_removed(before.handles(), before.index_of(h)),
    ensures
        !after.is_live(h),
        after.handles().len() == before.handles().len() - 1,
        after.is_live(before.handles().last()),
        before.handles().last() != h,
        after.index_of(before.handles().last()) == before.index_of(h),
        after.index_of(before.handles().last()) != before.index_of(before.handles().last()),
        forall|id: u64| #[trigger] after.is_live(id) && id != before.handles().last()
            ==> before.is_live(id) && after.index_of(id) == before.index_of(id),
        forall|id: u64| #[trigger] before.is_live(id) && id != h ==> after.is_live(id),
{
    lemma_indices_dense(before);
    lemma_indices_dense(after);
    before.lemma_wf();
    after.lemma_wf();
    let o = before.handles();
    let n = after.handles();
    let p = before.index_of(h);
    let last = o.len() - 1;
    assert(o[last] == o.last());
    assert(n[p] == o.last());
    assert(o.last() != h);
    assert(!after.is_live(h)) by {
        if n.contains(h) {
            let j = choose|j: int| 0 <= j < n.len() && n[j] == h;
            if j == p {
                assert(o[last] == h);
            } else {
                assert(o[j] == h);
            }
        }
    }
    assert(after.is_live(o.last())) by {
        assert(n.contains(n[p]));
    }
    assert(before.index_of(o.last()) == last) by {
        assert(o.contains(o[last]));
    }
    assert forall|id: u64| #[trigger] after.is_live(id) && id != o.last()
        implies before.is_live(id) && after.index_of(id) == before.index_of(id) by {
        let j = after.index_of(id);
        assert(n[j] == id);
        assert(j != p);
        assert(o[j] == id);
        assert(o.contains(id));
        assert(before.index_of(id) == j);
    }
    assert forall|id: u64| #[trigger] before.is_live(id) && id != h implies after.is_live(id) by {
        let j = before.index_of(id);
        assert(o[j] == id);
        if j == last {
            assert(n[p] == id);
            assert(n.contains(n[p]));
        } else {
            assert(j != p);
            assert(n[j] == id);
            assert(n.contains(n[j]));
        }
    }
}

} // verus!
