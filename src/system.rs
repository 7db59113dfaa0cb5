//! Component storage for entities: each component kind lives in a dense
//! array with an id-to-index map, the same packed idiom as the texture array,
//! with static dispatch on the component type.
use vstd::prelude::*;
use crate::packed::{PackedArray, swap_removed};

verus! {

/// An entity of the component registry.
#[derive(Clone, Copy, Debug, PartialEq, Eq)]
pub struct Entity(u64);

impl Entity {
    pub closed spec fn view(self) -> u64 {
        self.0
    }

    pub fn id(&self) -> (r: u64)
        ensures
            r == self@,
    {
        self.0
    }

    /// A new entity with the named components, all of which must be
    /// registered; `None` when one is not, or when ids have run out.
    pub fn new(comps: &[&str], registry: &mut WorldRegistry) -> (r: Option<Entity>)
        ensures
            final(registry).names() == old(registry).names(),
            match r {
                Some(e) => e@ == old(registry).next_id() && final(registry).next_id() == e@ + 1
                    && forall|i: int| 0 <= i < comps@.len() ==> old(registry).names().contains(#[trigger] comps@[i]@),
                None => final(registry).next_id() == old(registry).next_id() && (old(registry).next_id() == u64::MAX
                    || exists|i: int| 0 <= i < comps@.len() && !old(registry).names().contains(#[trigger] comps@[i]@)),
            },
    {
        let mut i: usize = 0;
        while i < comps.len()
            invariant
                0 <= i <= comps@.len(),
                forall|j: int| 0 <= j < i ==> registry.names().contains(#[trigger] comps@[j]@),
            decreases comps@.len() - i,
        {
            if !registry.is_registered(comps[i]) {
                return None;
            }
            i = i + 1;
        }
        if registry.next_id == u64::MAX {
            return None;
        }
        let id: u64 = registry.next_id;
        registry.next_id = id + 1;
        Some(Entity(id))
    }
}

/// The component kinds known to the world, and the ids handed out so far.
pub struct WorldRegistry {
    next_id: u64,
    names: Vec<String>,
}

/// A dense array of one component kind: a component for each entity that has
/// one, created from the kind's default value.
pub struct ComponentStorage<T: Copy> {
    data: PackedArray<T>,
    default: T,
}

impl WorldRegistry {
    pub closed spec fn next_id(self) -> u64 {
        self.next_id
    }

    /// Names of the registered component kinds.
    pub closed spec fn names(self) -> Seq<Seq<char>> {
        self.names@.map_values(|s: String| s@)
    }

    pub fn new() -> (r: WorldRegistry)
        ensures
            r.next_id() == 0,
            r.names() == Seq::<Seq<char>>::empty(),
    {
        WorldRegistry { next_id: 0, names: Vec::new() }
    }

    pub fn is_registered(&self, name: &str) -> (r: bool)
        ensures
            r == self.names().contains(name@),
    {
        let s: String = name.to_owned();
        let mut i: usize = 0;
        while i < self.names.len()
            invariant
                0 <= i <= self.names@.len(),
                s@ == name@,
                forall|j: int| 0 <= j < i ==> self.names()[j] != name@,
            decreases self.names@.len() - i,
        {
            if self.names[i] == s {
                assert(self.names()[i as int] == name@);
                return true;
            }
            i = i + 1;
        }
        false
    }

    /// Registers a component kind under `name` and returns its empty
    /// storage, whose new components start as `default`.
    #[allow(non_snake_case)]
    pub fn registerComponent<T: Copy>(&mut self, name: &str, default: T) -> (r: ComponentStorage<T>)
        ensures
            r.wf(),
            r.ids() == Seq::<u64>::empty(),
            r.default_value() == default,
            final(self).next_id() == old(self).next_id(),
            final(self).names().to_set() == old(self).names().to_set().insert(name@),
    {
        if !self.is_registered(name) {
            let ghost before = self.names();
            self.names.push(name.to_owned());
            proof {
                assert(self.names() =~= before.push(name@));
                crate::world::lemma_push_to_set(before, name@);
            }
        } else {
            proof {
                assert(self.names().to_set().insert(name@) =~= self.names().to_set());
            }
        }
        ComponentStorage { data: PackedArray::new(), default }
    }
}

impl<T: Copy> ComponentStorage<T> {
    pub closed spec fn wf(self) -> bool {
        self.data.wf()
    }

    /// Ids of the entities that have this component, in array order.
    pub closed spec fn ids(self) -> Seq<u64> {
        self.data.ids()
    }

    /// The components, in array order.
    pub closed spec fn values(self) -> Seq<T> {
        self.data.items()
    }

    /// The array index of the component of entity `id`.
    pub closed spec fn position(self, id: u64) -> int {
        self.data.position(id)
    }

    pub closed spec fn default_value(self) -> T {
        self.default
    }

    pub open spec fn has(self, id: u64) -> bool {
        self.ids().contains(id)
    }

    /// Gives entity `e` the component, set to the default value; an entity
    /// that has it already keeps its own.
    pub fn insert(&mut self, e: Entity)
        requires
            old(self).wf(),
        ensures
            final(self).wf(),
            final(self).default_value() == old(self).default_value(),
            old(self).has(e@) ==> *final(self) == *old(self),
            !old(self).has(e@) ==> final(self).ids() == old(self).ids().push(e@)
                && final(self).values() == old(self).values().push(old(self).default_value()),
    {
        if self.data.index(e.0).is_none() {
            let d: T = self.default;
            self.data.push(e.0, d);
        }
    }

    /// Takes the component away from entity `e`: the last one moves into
    /// its place.
    pub fn delete(&mut self, e: Entity) -> (r: bool)
        requires
            old(self).wf(),
        ensures
            final(self).wf(),
            final(self).default_value() == old(self).default_value(),
            r == old(self).has(e@),
            r ==> final(self).ids() == swap_removed(old(self).ids(), old(self).position(e@))
                && final(self).values() == swap_removed(old(self).values(), old(self).position(e@)),
            !r ==> final(self).ids() == old(self).ids() && final(self).values() == old(self).values(),
    {
        self.data.swap_remove(e.0).is_some()
    }

    /// The component of entity `e`.
    pub fn get(&self, e: Entity) -> (r: Option<&T>)
        requires
            self.wf(),
        ensures
            match r {
                Some(x) => self.has(e@) && *x == self.values()[self.position(e@)],
                None => !self.has(e@),
            },
    {
        self.data.get(e.0)
    }

    /// Replaces the component of entity `e`; returns whether it has one.
    pub fn set(&mut self, e: Entity, value: T) -> (r: bool)
        requires
            old(self).wf(),
        ensures
            final(self).wf(),
            r == old(self).has(e@),
            final(self).ids() == old(self).ids(),
            final(self).default_value() == old(self).default_value(),
            r ==> final(self).values() == old(self).values().update(old(self).position(e@), value),
            !r ==> final(self).values() == old(self).values(),
    {
        self.data.set(e.0, value)
    }

    /// The component at array index `idx`.
    pub fn get_by_idx(&self, idx: usize) -> (r: Option<&T>)
        requires
            self.wf(),
        ensures
            match r {
                Some(x) => idx < self.values().len() && *x == self.values()[idx as int],
                None => idx >= self.values().len(),
            },
    {
        proof {
            self.data.lemma_wf();
        }
        if idx < self.data.len() {
            Some(self.data.item_at(idx))
        } else {
            None
        }
    }

    pub fn len(&self) -> (r: usize)
        requires
            self.wf(),
        ensures
            r == self.ids().len(),
    {
        self.data.len()
    }
}

} // verus!
