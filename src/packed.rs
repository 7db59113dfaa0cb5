//! Dense storage keyed by id: the items sit without holes at positions
//! `0 .. len`, and a table maps each id to its item's current position.
//! Removal moves the last item into the hole.
use std::collections::HashMap;
use vstd::prelude::*;

verus! {

broadcast use vstd::std_specs::hash::group_hash_axioms;

/// `s` with the element at `i` replaced by the last one, and the last dropped.
pub open spec fn swap_removed<A>(s: Seq<A>, i: int) -> Seq<A> {
    s.update(i, s.last()).drop_last()
}

/// Removing position `i` of a sequence without duplicates removes exactly
/// the element that stood there.
pub proof fn lemma_swap_removed_contains<A>(s: Seq<A>, i: int)
    requires
        0 <= i < s.len(),
        s.no_duplicates(),
    ensures
        swap_removed(s, i).no_duplicates(),
        forall|x: A| #[trigger] swap_removed(s, i).contains(x) <==> (s.contains(x) && x != s[i]),
{
    let n = swap_removed(s, i);
    let last = s.len() - 1;
    assert forall|a: int, b: int| 0 <= a < n.len() && 0 <= b < n.len() && a != b implies n[a] != n[b] by {
        let oa = if a == i { last } else { a };
        let ob = if b == i { last } else { b };
        assert(n[a] == s[oa]);
        assert(n[b] == s[ob]);
    }
    assert forall|x: A| #[trigger] n.contains(x) <==> (s.contains(x) && x != s[i]) by {
        if n.contains(x) {
            let j = choose|j: int| 0 <= j < n.len() && n[j] == x;
            let oj = if j == i { last } else { j };
            assert(s[oj] == x);
        }
        if s.contains(x) && x != s[i] {
            let j = choose|j: int| 0 <= j < s.len() && s[j] == x;
            if j == last {
                assert(n[i] == x);
            } else {
                assert(n[j] == x);
            }
        }
    }
}

pub struct PackedArray<T> {
    items: Vec<T>,
    ids: Vec<u64>,
    index_of: HashMap<u64, usize>,
}

impl<T> PackedArray<T> {
    /// The id of the item at each position.
    pub closed spec fn ids(self) -> Seq<u64> {
        self.ids@
    }

    /// The items, by position.
    pub closed spec fn items(self) -> Seq<T> {
        self.items@
    }

    pub open spec fn has(self, id: u64) -> bool {
        self.ids().contains(id)
    }

    /// The position of a stored id.
    pub open spec fn position(self, id: u64) -> int {
        choose|i: int| 0 <= i < self.ids().len() && self.ids()[i] == id
    }

    pub closed spec fn wf(self) -> bool {
        &&& self.items@.len() == self.ids@.len()
        &&& self.ids@.no_duplicates()
        &&& forall|id: u64| #[trigger] self.index_of@.contains_key(id) <==> self.ids@.contains(id)
        &&& forall|i: int| 0 <= i < self.ids@.len() ==> #[trigger] self.index_of@[self.ids@[i]] == i
    }

    pub proof fn lemma_wf(self)
        requires
            self.wf(),
        ensures
            self.ids().no_duplicates(),
            self.ids().len() == self.items().len(),
    {
    }

    pub proof fn lemma_position(self, id: u64)
        requires
            self.wf(),
            self.has(id),
        ensures
            0 <= self.position(id) < self.ids().len(),
            self.ids()[self.position(id)] == id,
            forall|i: int| 0 <= i < self.ids().len() && self.ids()[i] == id ==> i == self.position(id),
    {
    }

    pub fn new() -> (r: PackedArray<T>)
        ensures
            r.wf(),
            r.ids() == Seq::<u64>::empty(),
            r.items() == Seq::<T>::empty(),
    {
        PackedArray { items: Vec::new(), ids: Vec::new(), index_of: HashMap::new() }
    }

    pub fn len(&self) -> (r: usize)
        requires
            self.wf(),
        ensures
            r == self.ids().len(),
            r == self.items().len(),
    {
        self.ids.len()
    }

    /// The current position of `id`, if it is stored.
    pub fn index(&self, id: u64) -> (r: Option<usize>)
        requires
            self.wf(),
        ensures
            match r {
                Some(i) => self.has(id) && i == self.position(id),
                None => !self.has(id),
            },
    {
        match self.index_of.get(&id) {
            Some(i) => {
                proof {
                    let k = choose|k: int| 0 <= k < self.ids@.len() && self.ids@[k] == id;
                    assert(self.index_of@[self.ids@[k]] == k);
                }
                Some(*i)
            },
            None => None,
        }
    }

    /// The item stored under `id`.
    pub fn get(&self, id: u64) -> (r: Option<&T>)
        requires
            self.wf(),
        ensures
            match r {
                Some(x) => self.has(id) && *x == self.items()[self.position(id)],
                None => !self.has(id),
            },
    {
        match self.index(id) {
            Some(i) => Some(&self.items[i]),
            None => None,
        }
    }

    /// The items in position order.
    pub fn as_vec(&self) -> (r: &Vec<T>)
        ensures
            r@ == self.items(),
    {
        &self.items
    }

    /// Replaces the item of a stored id, in place.
    pub fn set(&mut self, id: u64, item: T) -> (r: bool)
        requires
            old(self).wf(),
        ensures
            final(self).wf(),
            r == old(self).has(id),
            final(self).ids() == old(self).ids(),
            final(self).items() == if r {
                old(self).items().update(old(self).position(id), item)
            } else {
                old(self).items()
            },
    {
        match self.index(id) {
            Some(i) => {
                self.items.set(i, item);
                true
            },
            None => false,
        }
    }

    /// The id stored at position `i`.
    pub fn id_at(&self, i: usize) -> (r: u64)
        requires
            i < self.ids().len(),
        ensures
            r == self.ids()[i as int],
    {
        self.ids[i]
    }

    /// The item at position `i`.
    pub fn item_at(&self, i: usize) -> (r: &T)
        requires
            self.wf(),
            i < self.ids().len(),
        ensures
            *r == self.items()[i as int],
    {
        &self.items[i]
    }

    /// Appends `item` under a new id; it takes position `len`.
    pub fn push(&mut self, id: u64, item: T)
        requires
            old(self).wf(),
            !old(self).has(id),
        ensures
            final(self).wf(),
            final(self).ids() == old(self).ids().push(id),
            final(self).items() == old(self).items().push(item),
    {
        let n: usize = self.ids.len();
        self.items.push(item);
        self.ids.push(id);
        self.index_of.insert(id, n);
        proof {
            assert forall|k: u64| #[trigger] self.index_of@.contains_key(k) <==> self.ids@.contains(k) by {
                if old(self).ids@.contains(k) {
                    let j = choose|j: int| 0 <= j < old(self).ids@.len() && old(self).ids@[j] == k;
                    assert(self.ids@[j] == k);
                }
                if self.ids@.contains(k) && k != id {
                    let j = choose|j: int| 0 <= j < self.ids@.len() && self.ids@[j] == k;
                    assert(old(self).ids@[j] == k);
                }
                assert(self.ids@[n as int] == id);
            }
            assert forall|i: int| 0 <= i < self.ids@.len() implies #[trigger] self.index_of@[self.ids@[i]] == i by {
                if i < n {
                    assert(old(self).ids@[i] != id);
                    assert(old(self).index_of@[old(self).ids@[i]] == i);
                }
            }
        }
    }

    /// Removes the item of `id`: the last item moves into its position.
    pub fn swap_remove(&mut self, id: u64) -> (r: Option<T>)
        requires
            old(self).wf(),
        ensures
            final(self).wf(),
            match r {
                Some(x) => old(self).has(id)
                    && x == old(self).items()[old(self).position(id)]
                    && final(self).ids() == swap_removed(old(self).ids(), old(self).position(id))
                    && final(self).items() == swap_removed(old(self).items(), old(self).position(id)),
                None => !old(self).has(id) && *final(self) == *old(self),
            },
    {
        let idx: usize = match self.index(id) {
            Some(i) => i,
            None => { return None; },
        };
        proof { self.lemma_position(id); }
        let ghost old_ids = self.ids@;
        let last: usize = self.ids.len() - 1;
        let moved: u64 = self.ids[last];
        let item: T = self.items.swap_remove(idx);
        self.ids.swap_remove(idx);
        self.index_of.remove(&id);
        if idx < last {
            self.index_of.insert(moved, idx);
        }
        proof {
            let new_ids = self.ids@;
            assert(new_ids == swap_removed(old_ids, idx as int));
            assert forall|a: int, b: int| 0 <= a < new_ids.len() && 0 <= b < new_ids.len() && a != b
                implies new_ids[a] != new_ids[b] by {
                let oa = if a == idx { last as int } else { a };
                let ob = if b == idx { last as int } else { b };
                assert(new_ids[a] == old_ids[oa]);
                assert(new_ids[b] == old_ids[ob]);
            }
            assert forall|k: u64| #[trigger] self.index_of@.contains_key(k) <==> new_ids.contains(k) by {
                if new_ids.contains(k) {
                    let j = choose|j: int| 0 <= j < new_ids.len() && new_ids[j] == k;
                    let oj = if j == idx { last as int } else { j };
                    assert(old_ids[oj] == k);
                    assert(old_ids.contains(k));
                    assert(k != id);
                }
                if old_ids.contains(k) && k != id {
                    let j = choose|j: int| 0 <= j < old_ids.len() && old_ids[j] == k;
                    if j == last {
                        if idx < last {
                            assert(new_ids[idx as int] == k);
                        }
                    } else {
                        assert(j != idx);
                        assert(new_ids[j] == k);
                    }
                }
            }
            assert forall|i: int| 0 <= i < new_ids.len() implies #[trigger] self.index_of@[new_ids[i]] == i by {
                if i != idx {
                    assert(new_ids[i] == old_ids[i]);
                    assert(old_ids[i] != moved);
                    assert(old(self).index_of@[old_ids[i]] == i);
                }
            }
        }
        Some(item)
    }
}

} // verus!
