//! The world: entity identity, tags, the render object an entity owns, and
//! the per-behavior sets of entities created and deleted since the last
//! frame. `T` is the type of an entity's spatial transform.
use vstd::prelude::*;
use crate::entity_renderer::{EntityRenderer, RenderId};
use crate::packed::{PackedArray, lemma_swap_removed_contains, swap_removed};

verus! {

pub type EntityId = u64;

pub open spec fn string_views(s: Seq<String>) -> Seq<Seq<char>> {
    s.map_values(|x: String| x@)
}

pub open spec fn str_views(s: Seq<&str>) -> Seq<Seq<char>> {
    s.map_values(|x: &str| x@)
}

/// Some tag of `tags` is one of `subscribed`.
pub open spec fn subscribes(subscribed: Seq<Seq<char>>, tags: Seq<Seq<char>>) -> bool {
    exists|t: Seq<char>| subscribed.contains(t) && #[trigger] tags.contains(t)
}

pub proof fn lemma_push_to_set<A>(s: Seq<A>, x: A)
    ensures
        s.push(x).to_set() == s.to_set().insert(x),
{
    assert forall|y: A| s.push(x).to_set().contains(y) <==> s.to_set().insert(x).contains(y) by {
        if s.push(x).contains(y) && y != x {
            let j = choose|j: int| 0 <= j < s.push(x).len() && s.push(x)[j] == y;
            assert(s[j] == y);
        }
        if s.contains(y) {
            let j = choose|j: int| 0 <= j < s.len() && s[j] == y;
            assert(s.push(x)[j] == y);
        }
        assert(s.push(x)[s.len() as int] == x);
    }
    assert(s.push(x).to_set() =~= s.to_set().insert(x));
}

#[derive(Clone, Copy, Debug, PartialEq, Eq)]
pub enum NotificationKind {
    Deleted,
    Created,
    Run,
}

/// One call a frame makes on a behavior: `on_deleted` or `on_created` with
/// `ids`, or `run` (with no ids).
#[derive(Debug)]
pub struct Notification {
    pub kind: NotificationKind,
    pub behavior: usize,
    pub ids: Vec<EntityId>,
}

impl View for Notification {
    type V = (NotificationKind, nat, Seq<EntityId>);

    open spec fn view(&self) -> (NotificationKind, nat, Seq<EntityId>) {
        (self.kind, self.behavior as nat, self.ids@)
    }
}

pub open spec fn notification_views(s: Seq<Notification>) -> Seq<(NotificationKind, nat, Seq<EntityId>)> {
    s.map_values(|x: Notification| x@)
}

/// One notification of `kind` for each of the first `n` behaviors whose set
/// in `sets` is not empty, in behavior order.
pub open spec fn events(kind: NotificationKind, sets: Seq<Seq<EntityId>>, n: nat) -> Seq<
    (NotificationKind, nat, Seq<EntityId>),
>
    decreases n,
{
    if n == 0 {
        Seq::empty()
    } else {
        let prev = events(kind, sets, (n - 1) as nat);
        if sets[n - 1].len() > 0 {
            prev.push((kind, (n - 1) as nat, sets[n - 1]))
        } else {
            prev
        }
    }
}

/// A `run` notification for each of `n` behaviors, in order.
pub open spec fn runs(n: nat) -> Seq<(NotificationKind, nat, Seq<EntityId>)> {
    Seq::new(n, |b: int| (NotificationKind::Run, b as nat, Seq::<EntityId>::empty()))
}

/// The calls of one frame, given each behavior's pending-deleted and
/// pending-created sets: every deletion notice, then every creation notice,
/// then every `run`.
pub open spec fn frame_of(deleted: Seq<Seq<EntityId>>, created: Seq<Seq<EntityId>>) -> Seq<
    (NotificationKind, nat, Seq<EntityId>),
> {
    events(NotificationKind::Deleted, deleted, deleted.len()) + events(NotificationKind::Created, created, created.len())
        + runs(deleted.len())
}

pub open spec fn set_views(s: Seq<Vec<EntityId>>) -> Seq<Seq<EntityId>> {
    s.map_values(|v: Vec<EntityId>| v@)
}

proof fn lemma_events_shape(kind: NotificationKind, sets: Seq<Seq<EntityId>>, n: nat)
    requires
        n <= sets.len(),
    ensures
        forall|k: int| 0 <= k < events(kind, sets, n).len() ==> (#[trigger] events(kind, sets, n)[k]).0 == kind
            && events(kind, sets, n)[k].1 < n
            && events(kind, sets, n)[k].2 == sets[events(kind, sets, n)[k].1 as int],
        forall|k1: int, k2: int| 0 <= k1 < k2 < events(kind, sets, n).len()
            ==> (#[trigger] events(kind, sets, n)[k1]).1 < (#[trigger] events(kind, sets, n)[k2]).1,
        forall|b: int| 0 <= b < n && sets[b].len() > 0 ==> exists|k: int| 0 <= k < events(kind, sets, n).len()
            && (#[trigger] events(kind, sets, n)[k]).1 == b,
    decreases n,
{
    if n > 0 {
        let m = (n - 1) as nat;
        lemma_events_shape(kind, sets, m);
        let prev = events(kind, sets, m);
        let cur = events(kind, sets, n);
        assert forall|b: int| 0 <= b < n && sets[b].len() > 0 implies exists|k: int| 0 <= k < cur.len()
            && (#[trigger] cur[k]).1 == b by {
            if b == m {
                assert(cur[prev.len() as int].1 == b);
            } else {
                let k = choose|k: int| 0 <= k < prev.len() && (#[trigger] prev[k]).1 == b;
                assert(cur[k] == prev[k]);
            }
        }
    }
}

proof fn lemma_events_unique(kind: NotificationKind, sets: Seq<Seq<EntityId>>, n: nat, b: int) -> (i: int)
    requires
        n <= sets.len(),
        0 <= b < n,
        sets[b].len() > 0,
    ensures
        0 <= i < events(kind, sets, n).len(),
        events(kind, sets, n)[i] == (kind, b as nat, sets[b]),
        forall|k: int| 0 <= k < events(kind, sets, n).len() && (#[trigger] events(kind, sets, n)[k]).1 == b ==> k == i,
        forall|k: int| 0 <= k < events(kind, sets, n).len() ==> (#[trigger] events(kind, sets, n)[k]).0 == kind,
{
    lemma_events_shape(kind, sets, n);
    let e = events(kind, sets, n);
    let i = choose|i: int| 0 <= i < e.len() && (#[trigger] e[i]).1 == b;
    assert forall|k: int| 0 <= k < e.len() && (#[trigger] e[k]).1 == b implies k == i by {
        if k < i {
            assert(e[k].1 < e[i].1);
        } else if k > i {
            assert(e[i].1 < e[k].1);
        }
    }
    i
}

/// A behavior told of an id both in its pending-deleted and its
/// pending-created set gets, in one frame, exactly one deletion notice and
/// exactly one creation notice, each holding that id, the deletion first.
/// Returns the positions of the two notices in the frame.
pub proof fn lemma_deleted_before_created(
    deleted: Seq<Seq<EntityId>>,
    created: Seq<Seq<EntityId>>,
    b: int,
    id: EntityId,
) -> (ij: (int, int))
    requires
        deleted.len() == created.len(),
        0 <= b < deleted.len(),
        deleted[b].contains(id),
        created[b].contains(id),
    ensures
        0 <= ij.0 < ij.1 < frame_of(deleted, created).len(),
        frame_of(deleted, created)[ij.0] == (NotificationKind::Deleted, b as nat, deleted[b]),
        frame_of(deleted, created)[ij.1] == (NotificationKind::Created, b as nat, created[b]),
        forall|k: int| 0 <= k < frame_of(deleted, created).len()
            && (#[trigger] frame_of(deleted, created)[k]).0 == NotificationKind::Deleted
            && frame_of(deleted, created)[k].1 == b ==> k == ij.0,
        forall|k: int| 0 <= k < frame_of(deleted, created).len()
            && (#[trigger] frame_of(deleted, created)[k]).0 == NotificationKind::Created
            && frame_of(deleted, created)[k].1 == b ==> k == ij.1,
{
    let n = deleted.len();
    let d = events(NotificationKind::Deleted, deleted, n);
    let c = events(NotificationKind::Created, created, n);
    let r = runs(n);
    let f = frame_of(deleted, created);
    assert(deleted[b].len() > 0);
    assert(created[b].len() > 0);
    let i = lemma_events_unique(NotificationKind::Deleted, deleted, n, b);
    let jc = lemma_events_unique(NotificationKind::Created, created, n, b);
    let j = d.len() + jc;
    assert(f =~= d + c + r);
    assert(f[i] == d[i]);
    assert(f[j] == c[jc]);
    assert forall|k: int| 0 <= k < f.len() && (#[trigger] f[k]).0 == NotificationKind::Deleted && f[k].1 == b
        implies k == i by {
        if k < d.len() {
            assert(f[k] == d[k]);
        } else if k < d.len() + c.len() {
            assert(f[k] == c[k - d.len()]);
        } else {
            assert(f[k] == r[k - d.len() - c.len()]);
        }
    }
    assert forall|k: int| 0 <= k < f.len() && (#[trigger] f[k]).0 == NotificationKind::Created && f[k].1 == b
        implies k == j by {
        if k < d.len() {
            assert(f[k] == d[k]);
        } else if k < d.len() + c.len() {
            assert(f[k] == c[k - d.len()]);
        } else {
            assert(f[k] == r[k - d.len() - c.len()]);
        }
    }
    assert(0 <= i < j < f.len());
    (i, j)
}

/// Every tag that a live entity carries is a key of the tag index.
pub proof fn lemma_tags_indexed<T>(w: &World<T>, id: EntityId, t: Seq<char>)
    requires
        w.wf(),
        w.has_entity(id),
        w.record(id).tags().contains(t),
    ensures
        w.tag_keys().contains(t),
{
    w.entities.lemma_position(id);
    w.entities.lemma_wf();
    assert(w.entities.items()[w.entities.position(id)].tags().contains(t));
}

/// Appends the notices of `kind` for `sets` to `out`.
fn push_events(out: &mut Vec<Notification>, kind: NotificationKind, sets: Vec<Vec<EntityId>>)
    requires
        forall|k: int| 0 <= k < old(out)@.len() ==> (#[trigger] old(out)@[k]).ids@.no_duplicates(),
        forall|b: int| 0 <= b < sets@.len() ==> (#[trigger] sets@[b])@.no_duplicates(),
    ensures
        notification_views(final(out)@) == notification_views(old(out)@) + events(kind, set_views(sets@), sets@.len()),
        forall|k: int| 0 <= k < final(out)@.len() ==> (#[trigger] final(out)@[k]).ids@.no_duplicates(),
{
    let ghost all = set_views(sets@);
    let n: usize = sets.len();
    let mut sets = sets;
    let mut b: usize = 0;
    while b < n
        invariant
            0 <= b <= n,
            n == all.len(),
            set_views(sets@) == all.subrange(b as int, n as int),
            sets@.len() == n - b,
            notification_views(out@) == notification_views(old(out)@) + events(kind, all, b as nat),
            forall|k: int| 0 <= k < out@.len() ==> (#[trigger] out@[k]).ids@.no_duplicates(),
            forall|c: int| 0 <= c < sets@.len() ==> (#[trigger] sets@[c])@.no_duplicates(),
        decreases n - b,
    {
        let ghost before = out@;
        let ghost s0 = sets@;
        let ids: Vec<EntityId> = sets.remove(0);
        proof {
            assert(s0[0]@.no_duplicates());
            assert forall|c: int| 0 <= c < sets@.len() implies (#[trigger] sets@[c])@.no_duplicates() by {
                assert(sets@[c] == s0[c + 1]);
            }
            assert(set_views(s0)[0] == s0[0]@);
            assert(ids@ == all[b as int]);
            assert(sets@ =~= s0.subrange(1, s0.len() as int));
            assert forall|k: int| 0 <= k < sets@.len() implies #[trigger] set_views(sets@)[k] == all[b + 1 + k] by {
                assert(sets@[k] == s0[k + 1]);
                assert(set_views(s0)[k + 1] == all[b + 1 + k]);
            }
            assert(set_views(sets@) =~= all.subrange(b as int + 1, n as int));
        }
        if ids.len() > 0 {
            out.push(Notification { kind, behavior: b, ids });
            proof {
                assert forall|k: int| 0 <= k < out@.len() implies (#[trigger] out@[k]).ids@.no_duplicates() by {
                    if k < before.len() {
                        assert(out@[k] == before[k]);
                    }
                }
                assert(notification_views(out@) =~= notification_views(before).push((kind, b as nat, all[b as int])));
            }
        }
        b = b + 1;
        proof {
            assert(notification_views(out@) =~= notification_views(old(out)@) + events(kind, all, b as nat));
        }
    }
    proof {
        assert(all =~= set_views(sets@).subrange(0, 0) + all);
    }
}

fn empty_sets(n: usize) -> (r: Vec<Vec<EntityId>>)
    ensures
        r@.len() == n,
        forall|b: int| 0 <= b < n ==> (#[trigger] r@[b])@ == Seq::<EntityId>::empty(),
{
    let mut r: Vec<Vec<EntityId>> = Vec::new();
    let mut i: usize = 0;
    while i < n
        invariant
            0 <= i <= n,
            r@.len() == i,
            forall|b: int| 0 <= b < i ==> (#[trigger] r@[b])@ == Seq::<EntityId>::empty(),
        decreases n - i,
    {
        r.push(Vec::new());
        i = i + 1;
    }
    r
}

/// The render object and tags of one entity.
pub struct EntityData {
    render: Option<RenderId>,
    tags: Vec<String>,
}

impl EntityData {
    pub closed spec fn render(self) -> Option<RenderId> {
        self.render
    }

    pub closed spec fn tags(self) -> Seq<Seq<char>> {
        string_views(self.tags@)
    }

    pub fn get_render(&self) -> (r: Option<RenderId>)
        ensures
            r == self.render(),
    {
        self.render
    }

    pub fn tags_vec(&self) -> (r: &Vec<String>)
        ensures
            string_views(r@) == self.tags(),
    {
        &self.tags
    }
}

/// Whether `v` holds a string equal to `s`.
fn holds_string(v: &Vec<String>, s: &String) -> (r: bool)
    ensures
        r == string_views(v@).contains(s@),
{
    let mut i: usize = 0;
    while i < v.len()
        invariant
            0 <= i <= v@.len(),
            forall|j: int| 0 <= j < i ==> string_views(v@)[j] != s@,
        decreases v@.len() - i,
    {
        if v[i] == *s {
            assert(string_views(v@)[i as int] == s@);
            return true;
        }
        i = i + 1;
    }
    false
}

/// Adds `id` to a pending set kept as a vector without duplicates.
fn add_id(v: &mut Vec<EntityId>, id: EntityId)
    requires
        old(v)@.no_duplicates(),
    ensures
        final(v)@.no_duplicates(),
        final(v)@.to_set() == old(v)@.to_set().insert(id),
{
    let mut i: usize = 0;
    while i < v.len()
        invariant
            v@ == old(v)@,
            v@.no_duplicates(),
            0 <= i <= v@.len(),
            forall|j: int| 0 <= j < i ==> v@[j] != id,
        decreases v@.len() - i,
    {
        if v[i] == id {
            proof {
                assert(v@.to_set().contains(id));
                assert(v@.to_set() =~= v@.to_set().insert(id));
            }
            return;
        }
        i = i + 1;
    }
    v.push(id);
    proof {
        assert forall|x: EntityId| v@.to_set().contains(x) <==> old(v)@.to_set().insert(id).contains(x) by {
            if v@.contains(x) && x != id {
                let j = choose|j: int| 0 <= j < v@.len() && v@[j] == x;
                assert(old(v)@[j] == x);
            }
            if old(v)@.contains(x) {
                let j = choose|j: int| 0 <= j < old(v)@.len() && old(v)@[j] == x;
                assert(v@[j] == x);
            }
            assert(v@[old(v)@.len() as int] == id);
        }
        assert(v@.to_set() =~= old(v)@.to_set().insert(id));
        assert forall|a: int, b: int| 0 <= a < v@.len() && 0 <= b < v@.len() && a != b implies v@[a] != v@[b] by {
            if a < old(v)@.len() && b < old(v)@.len() {
                assert(old(v)@[a] != old(v)@[b]);
            }
        }
    }
}

/// Whether `subscribed` holds one of `tags`.
fn subscribes_exec(subscribed: &Vec<String>, tags: &Vec<String>) -> (r: bool)
    ensures
        r == subscribes(string_views(subscribed@), string_views(tags@)),
{
    let mut i: usize = 0;
    while i < tags.len()
        invariant
            0 <= i <= tags@.len(),
            forall|j: int| 0 <= j < i ==> !string_views(subscribed@).contains(#[trigger] string_views(tags@)[j]),
        decreases tags@.len() - i,
    {
        if holds_string(subscribed, &tags[i]) {
            assert(string_views(tags@).contains(string_views(tags@)[i as int]));
            return true;
        }
        i = i + 1;
    }
    proof {
        if subscribes(string_views(subscribed@), string_views(tags@)) {
            let t = choose|t: Seq<char>| string_views(subscribed@).contains(t) && #[trigger] string_views(tags@).contains(t);
            let j = choose|j: int| 0 <= j < string_views(tags@).len() && string_views(tags@)[j] == t;
            assert(!string_views(subscribed@).contains(string_views(tags@)[j]));
        }
    }
    false
}

pub struct World<T> {
    id_counter: u64,
    entities: PackedArray<EntityData>,
    transforms: PackedArray<T>,
    tag_names: Vec<String>,
    subscriptions: Vec<Vec<String>>,
    behavior_to_created: Vec<Vec<EntityId>>,
    behavior_to_deleted: Vec<Vec<EntityId>>,
}

impl<T> World<T> {
    /// Live entity ids, in storage order.
    pub closed spec fn entity_ids(self) -> Seq<EntityId> {
        self.entities.ids()
    }

    pub open spec fn has_entity(self, id: EntityId) -> bool {
        self.entity_ids().contains(id)
    }

    /// The storage position of a live entity.
    pub closed spec fn position(self, id: EntityId) -> int {
        self.entities.position(id)
    }

    pub closed spec fn record(self, id: EntityId) -> EntityData {
        self.entities.items()[self.entities.position(id)]
    }

    pub closed spec fn transform(self, id: EntityId) -> T {
        self.transforms.items()[self.transforms.position(id)]
    }

    /// The id the next created entity gets.
    pub closed spec fn next_id(self) -> u64 {
        self.id_counter
    }

    /// The keys of the tag index: every tag an entity has been given.
    pub closed spec fn tag_keys(self) -> Seq<Seq<char>> {
        string_views(self.tag_names@)
    }

    pub closed spec fn behaviors(self) -> nat {
        self.subscriptions@.len()
    }

    /// The tags behavior `b` is subscribed to.
    pub closed spec fn subscription(self, b: int) -> Seq<Seq<char>> {
        string_views(self.subscriptions@[b]@)
    }

    /// Entities created since the last frame, as seen by behavior `b`.
    pub closed spec fn pending_created(self, b: int) -> Seq<EntityId> {
        self.behavior_to_created@[b]@
    }

    /// Entities deleted since the last frame, as seen by behavior `b`.
    pub closed spec fn pending_deleted(self, b: int) -> Seq<EntityId> {
        self.behavior_to_deleted@[b]@
    }

    /// Every behavior's pending-deleted set, by behavior.
    pub open spec fn deleted_sets(self) -> Seq<Seq<EntityId>> {
        Seq::new(self.behaviors(), |b: int| self.pending_deleted(b))
    }

    /// Every behavior's pending-created set, by behavior.
    pub open spec fn created_sets(self) -> Seq<Seq<EntityId>> {
        Seq::new(self.behaviors(), |b: int| self.pending_created(b))
    }

    /// A pending set holds each id at most once.
    pub proof fn lemma_pending_distinct(self)
        requires
            self.wf(),
        ensures
            forall|b: int| 0 <= b < self.behaviors() ==> (#[trigger] self.pending_created(b)).no_duplicates(),
            forall|b: int| 0 <= b < self.behaviors() ==> (#[trigger] self.pending_deleted(b)).no_duplicates(),
    {
    }

    /// When behavior `b` has been told, since the last frame, of both the
    /// creation and the deletion of entity `id`, the next frame holds exactly
    /// one deletion notice and exactly one creation notice for `b`, each
    /// listing `id` exactly once, and the deletion notice comes first.
    /// Returns the positions of the two notices.
    pub proof fn lemma_frame_orders_notices(self, b: int, id: EntityId) -> (ij: (int, int))
        requires
            self.wf(),
            0 <= b < self.behaviors(),
            self.pending_deleted(b).contains(id),
            self.pending_created(b).contains(id),
        ensures
            0 <= ij.0 < ij.1 < frame_of(self.deleted_sets(), self.created_sets()).len(),
            frame_of(self.deleted_sets(), self.created_sets())[ij.0] == (
                NotificationKind::Deleted,
                b as nat,
                self.pending_deleted(b),
            ),
            frame_of(self.deleted_sets(), self.created_sets())[ij.1] == (
                NotificationKind::Created,
                b as nat,
                self.pending_created(b),
            ),
            self.pending_deleted(b).no_duplicates(),
            self.pending_created(b).no_duplicates(),
            forall|k: int| 0 <= k < frame_of(self.deleted_sets(), self.created_sets()).len()
                && (#[trigger] frame_of(self.deleted_sets(), self.created_sets())[k]).0 == NotificationKind::Deleted
                && frame_of(self.deleted_sets(), self.created_sets())[k].1 == b ==> k == ij.0,
            forall|k: int| 0 <= k < frame_of(self.deleted_sets(), self.created_sets()).len()
                && (#[trigger] frame_of(self.deleted_sets(), self.created_sets())[k]).0 == NotificationKind::Created
                && frame_of(self.deleted_sets(), self.created_sets())[k].1 == b ==> k == ij.1,
    {
        self.lemma_pending_distinct();
        assert(self.deleted_sets()[b] == self.pending_deleted(b));
        assert(self.created_sets()[b] == self.pending_created(b));
        lemma_deleted_before_created(self.deleted_sets(), self.created_sets(), b, id)
    }

    pub closed spec fn wf(self) -> bool {
        &&& self.entities.wf()
        &&& self.transforms.wf()
        &&& self.transforms.ids() == self.entities.ids()
        &&& forall|i: int| 0 <= i < self.entities.ids().len() ==> #[trigger] self.entities.ids()[i] < self.id_counter
        &&& forall|i: int, t: Seq<char>| 0 <= i < self.entities.items().len()
            && (#[trigger] self.entities.items()[i]).tags().contains(t) ==> #[trigger] string_views(self.tag_names@).contains(t)
        &&& self.behavior_to_created@.len() == self.subscriptions@.len()
        &&& self.behavior_to_deleted@.len() == self.subscriptions@.len()
        &&& forall|b: int| 0 <= b < self.subscriptions@.len() ==> (#[trigger] self.behavior_to_created@[b])@.no_duplicates()
        &&& forall|b: int| 0 <= b < self.subscriptions@.len() ==> (#[trigger] self.behavior_to_deleted@[b])@.no_duplicates()
    }

    /// A world without entities, for behaviors subscribed to the given tags.
    pub fn new(subscriptions: Vec<Vec<String>>) -> (r: World<T>)
        ensures
            r.wf(),
            r.entity_ids() == Seq::<EntityId>::empty(),
            r.next_id() == 0,
            r.behaviors() == subscriptions@.len(),
            forall|b: int| 0 <= b < subscriptions@.len() ==> r.subscription(b) == string_views(#[trigger] subscriptions@[b]@),
            forall|b: int| 0 <= b < subscriptions@.len() ==> #[trigger] r.pending_created(b) == Seq::<EntityId>::empty()
                && r.pending_deleted(b) == Seq::<EntityId>::empty(),
    {
        let n: usize = subscriptions.len();
        let mut created: Vec<Vec<EntityId>> = Vec::new();
        let mut deleted: Vec<Vec<EntityId>> = Vec::new();
        let mut i: usize = 0;
        while i < n
            invariant
                0 <= i <= n,
                created@.len() == i,
                deleted@.len() == i,
                forall|b: int| 0 <= b < i ==> (#[trigger] created@[b])@ == Seq::<EntityId>::empty(),
                forall|b: int| 0 <= b < i ==> (#[trigger] deleted@[b])@ == Seq::<EntityId>::empty(),
            decreases n - i,
        {
            created.push(Vec::new());
            deleted.push(Vec::new());
            i = i + 1;
        }
        World {
            id_counter: 0,
            entities: PackedArray::new(),
            transforms: PackedArray::new(),
            tag_names: Vec::new(),
            subscriptions,
            behavior_to_created: created,
            behavior_to_deleted: deleted,
        }
    }

    /// Creates an entity with the given tags (a repeated tag counts once),
    /// paired render object and transform. Every behavior subscribed to one
    /// of its tags gets the new id in its pending-created set.
    pub fn create_entity(&mut self, tags: &[&str], render: Option<RenderId>, transform: T) -> (r: EntityId)
        requires
            old(self).wf(),
            old(self).next_id() < u64::MAX,
        ensures
            final(self).wf(),
            r == old(self).next_id(),
            final(self).next_id() == r + 1,
            !old(self).has_entity(r),
            final(self).entity_ids() == old(self).entity_ids().push(r),
            final(self).record(r).render() == render,
            final(self).record(r).tags().no_duplicates(),
            final(self).record(r).tags().to_set() == str_views(tags@).to_set(),
            final(self).transform(r) == transform,
            forall|id: EntityId| #[trigger] old(self).has_entity(id) ==> final(self).record(id) == old(self).record(id)
                && final(self).transform(id) == old(self).transform(id),
            final(self).tag_keys().to_set() == old(self).tag_keys().to_set() + str_views(tags@).to_set(),
            final(self).behaviors() == old(self).behaviors(),
            forall|b: int| 0 <= b < old(self).behaviors() ==> #[trigger] final(self).subscription(b) == old(self).subscription(b),
            forall|b: int| 0 <= b < old(self).behaviors() ==> #[trigger] final(self).pending_deleted(b) == old(self).pending_deleted(b),
            forall|b: int| 0 <= b < old(self).behaviors() ==> (#[trigger] final(self).pending_created(b)).to_set() == if subscribes(
                old(self).subscription(b),
                str_views(tags@),
            ) {
                old(self).pending_created(b).to_set().insert(r)
            } else {
                old(self).pending_created(b).to_set()
            },
    {
        let id: EntityId = self.id_counter;
        proof {
            if self.entities.ids().contains(id) {
                let k = choose|k: int| 0 <= k < self.entities.ids().len() && self.entities.ids()[k] == id;
                assert(self.entities.ids()[k] < self.id_counter);
            }
        }
        let mut tag_vec: Vec<String> = Vec::new();
        let mut i: usize = 0;
        while i < tags.len()
            invariant
                self.wf(),
                self.entities == old(self).entities,
                self.transforms == old(self).transforms,
                self.id_counter == old(self).id_counter,
                self.subscriptions == old(self).subscriptions,
                self.behavior_to_created == old(self).behavior_to_created,
                self.behavior_to_deleted == old(self).behavior_to_deleted,
                0 <= i <= tags@.len(),
                string_views(tag_vec@).no_duplicates(),
                string_views(tag_vec@).to_set() == str_views(tags@.subrange(0, i as int)).to_set(),
                string_views(self.tag_names@).to_set() == string_views(old(self).tag_names@).to_set()
                    + str_views(tags@.subrange(0, i as int)).to_set(),
            decreases tags@.len() - i,
        {
            let s: String = tags[i].to_owned();
            let ghost sv = s@;
            let ghost prev_names = string_views(self.tag_names@);
            let ghost prev_tags = string_views(tag_vec@);
            proof {
                assert(str_views(tags@.subrange(0, i as int + 1)) =~= str_views(tags@.subrange(0, i as int)).push(sv));
            }
            if !holds_string(&tag_vec, &s) {
                if !holds_string(&self.tag_names, &s) {
                    self.tag_names.push(s.clone());
                    proof {
                        assert(string_views(self.tag_names@) =~= prev_names.push(sv));
                        assert forall|j: int, t: Seq<char>| 0 <= j < self.entities.items().len()
                            && (#[trigger] self.entities.items()[j]).tags().contains(t)
                            implies #[trigger] string_views(self.tag_names@).contains(t) by {
                            assert(prev_names.contains(t));
                            let k = choose|k: int| 0 <= k < prev_names.len() && prev_names[k] == t;
                            assert(string_views(self.tag_names@)[k] == t);
                        }
                    }
                }
                tag_vec.push(s);
                proof {
                    assert(string_views(tag_vec@) =~= prev_tags.push(sv));
                }
            }
            proof {
                let pre = str_views(tags@.subrange(0, i as int));
                lemma_push_to_set(pre, sv);
                lemma_push_to_set(prev_names, sv);
                lemma_push_to_set(prev_tags, sv);
                if prev_names.contains(sv) {
                    assert(prev_names.to_set().contains(sv));
                    assert(prev_names.to_set().insert(sv) =~= prev_names.to_set());
                }
                if prev_tags.contains(sv) {
                    assert(prev_tags.to_set().contains(sv));
                    assert(prev_tags.to_set().insert(sv) =~= prev_tags.to_set());
                }
                assert(string_views(self.tag_names@).to_set() =~= string_views(old(self).tag_names@).to_set()
                    + str_views(tags@.subrange(0, i as int + 1)).to_set());
                assert(string_views(tag_vec@).to_set() =~= str_views(tags@.subrange(0, i as int + 1)).to_set());
            }
            i = i + 1;
        }
        proof {
            assert(tags@.subrange(0, tags@.len() as int) =~= tags@);
        }
        let n: usize = self.subscriptions.len();
        let mut b: usize = 0;
        while b < n
            invariant
                self.wf(),
                self.entities == old(self).entities,
                self.transforms == old(self).transforms,
                self.id_counter == old(self).id_counter,
                self.subscriptions == old(self).subscriptions,
                self.behavior_to_deleted == old(self).behavior_to_deleted,
                n == self.subscriptions@.len(),
                old(self).behavior_to_created@.len() == n,
                0 <= b <= n,
                id == old(self).id_counter,
                string_views(tag_vec@).to_set() == str_views(tags@).to_set(),
                string_views(self.tag_names@).to_set() == string_views(old(self).tag_names@).to_set()
                    + str_views(tags@).to_set(),
                string_views(tag_vec@).no_duplicates(),
                forall|c: int| b <= c < n ==> #[trigger] self.behavior_to_created@[c] == old(self).behavior_to_created@[c],
                forall|c: int| 0 <= c < b ==> (#[trigger] self.behavior_to_created@[c])@.to_set() == if subscribes(
                    old(self).subscription(c),
                    str_views(tags@),
                ) {
                    old(self).pending_created(c).to_set().insert(id)
                } else {
                    old(self).pending_created(c).to_set()
                },
            decreases n - b,
        {
            let hit: bool = subscribes_exec(&self.subscriptions[b], &tag_vec);
            proof {
                let sv = string_views(self.subscriptions@[b as int]@);
                let tv = string_views(tag_vec@);
                let iv = str_views(tags@);
                if subscribes(sv, tv) {
                    let t = choose|t: Seq<char>| sv.contains(t) && #[trigger] tv.contains(t);
                    assert(tv.to_set().contains(t));
                    assert(iv.to_set().contains(t));
                    assert(iv.contains(t));
                }
                if subscribes(sv, iv) {
                    let t = choose|t: Seq<char>| sv.contains(t) && #[trigger] iv.contains(t);
                    assert(iv.to_set().contains(t));
                    assert(tv.to_set().contains(t));
                    assert(tv.contains(t));
                }
            }
            if hit {
                let ghost before = self.behavior_to_created@;
                add_id(&mut self.behavior_to_created[b], id);
                proof {
                    assert forall|c: int| 0 <= c < n && c != b implies #[trigger] self.behavior_to_created@[c] == before[c] by {}
                }
            }
            b = b + 1;
        }
        let ghost e0 = self.entities;
        let ghost x0 = self.transforms;
        let ghost tv = string_views(tag_vec@);
        self.entities.push(id, EntityData { render, tags: tag_vec });
        self.transforms.push(id, transform);
        self.id_counter = id + 1;
        proof {
            e0.lemma_wf();
            x0.lemma_wf();
            self.entities.lemma_wf();
            self.transforms.lemma_wf();
            let last = e0.ids().len() as int;
            assert(self.entities.ids()[last] == id);
            assert(self.entities.ids().contains(id));
            self.entities.lemma_position(id);
            self.transforms.lemma_position(id);
            assert(self.entities.position(id) == last);
            assert(self.transforms.position(id) == last);
            assert forall|x: EntityId| #[trigger] old(self).has_entity(x) implies self.record(x) == old(self).record(x)
                && self.transform(x) == old(self).transform(x) by {
                e0.lemma_position(x);
                x0.lemma_position(x);
                let p = e0.position(x);
                assert(self.entities.ids()[p] == x);
                assert(self.entities.ids().contains(x));
                self.entities.lemma_position(x);
                self.transforms.lemma_position(x);
                assert(self.entities.position(x) == p);
                assert(x0.position(x) == p);
                assert(self.transforms.position(x) == p);
            }
            assert forall|i: int| 0 <= i < self.entities.ids().len() implies #[trigger] self.entities.ids()[i] < self.id_counter by {
                if i < last {
                    assert(e0.ids()[i] < old(self).id_counter);
                }
            }
            assert forall|j: int, t: Seq<char>| 0 <= j < self.entities.items().len()
                && (#[trigger] self.entities.items()[j]).tags().contains(t)
                implies #[trigger] string_views(self.tag_names@).contains(t) by {
                if j < last {
                    assert(string_views(old(self).tag_names@).contains(t));
                    assert(string_views(old(self).tag_names@).to_set().contains(t));
                    assert(string_views(self.tag_names@).to_set().contains(t));
                } else {
                    assert(tv.contains(t));
                    assert(tv.to_set().contains(t));
                    assert(string_views(self.tag_names@).to_set().contains(t));
                }
            }
        }
        id
    }

    /// Deletes an entity: it leaves every tag, and every behavior subscribed
    /// to one of its tags gets its id in its pending-deleted set. Returns the
    /// render object the entity owned, which the caller is to delete too
    /// (see `delete_entity_and_render`). An unknown id changes nothing.
    pub fn delete_entity(&mut self, id: EntityId) -> (r: Option<RenderId>)
        requires
            old(self).wf(),
        ensures
            final(self).wf(),
            final(self).next_id() == old(self).next_id(),
            final(self).tag_keys() == old(self).tag_keys(),
            final(self).behaviors() == old(self).behaviors(),
            !final(self).has_entity(id),
            forall|b: int| 0 <= b < old(self).behaviors() ==> #[trigger] final(self).subscription(b) == old(self).subscription(b),
            forall|b: int| 0 <= b < old(self).behaviors() ==> #[trigger] final(self).pending_created(b) == old(self).pending_created(b),
            forall|x: EntityId| #[trigger] old(self).has_entity(x) && x != id ==> final(self).has_entity(x)
                && final(self).record(x) == old(self).record(x) && final(self).transform(x) == old(self).transform(x),
            forall|x: EntityId| #[trigger] final(self).has_entity(x) ==> old(self).has_entity(x),
            !old(self).has_entity(id) ==> r is None && final(self).entity_ids() == old(self).entity_ids()
                && forall|b: int| 0 <= b < old(self).behaviors() ==> #[trigger] final(self).pending_deleted(b) == old(self).pending_deleted(b),
            old(self).has_entity(id) ==> {
                &&& r == old(self).record(id).render()
                &&& final(self).entity_ids() == swap_removed(old(self).entity_ids(), old(self).position(id))
                &&& forall|b: int| 0 <= b < old(self).behaviors() ==> (#[trigger] final(self).pending_deleted(b)).to_set() == if subscribes(
                    old(self).subscription(b),
                    old(self).record(id).tags(),
                ) {
                    old(self).pending_deleted(b).to_set().insert(id)
                } else {
                    old(self).pending_deleted(b).to_set()
                }
            },
    {
        let ghost e0 = self.entities;
        let ghost x0 = self.transforms;
        let removed: Option<EntityData> = self.entities.swap_remove(id);
        let _ = self.transforms.swap_remove(id);
        let data: EntityData = match removed {
            Some(d) => d,
            None => {
                return None;
            },
        };
        proof {
            e0.lemma_wf();
            x0.lemma_wf();
            self.entities.lemma_wf();
            self.transforms.lemma_wf();
            e0.lemma_position(id);
            let p = e0.position(id);
            lemma_swap_removed_contains(e0.ids(), p);
            let last = e0.ids().len() - 1;
            assert(data == old(self).record(id));
            assert forall|x: EntityId| #[trigger] old(self).has_entity(x) && x != id implies self.has_entity(x)
                && self.record(x) == old(self).record(x) && self.transform(x) == old(self).transform(x) by {
                assert(self.entities.ids().contains(x));
                self.entities.lemma_position(x);
                self.transforms.lemma_position(x);
                e0.lemma_position(x);
                x0.lemma_position(x);
                let q = self.entities.position(x);
                if q == p {
                    assert(e0.ids()[last] == x);
                    assert(e0.position(x) == last);
                } else {
                    assert(e0.ids()[q] == x);
                    assert(e0.position(x) == q);
                }
            }
            assert forall|i: int| 0 <= i < self.entities.ids().len() implies #[trigger] self.entities.ids()[i] < self.id_counter by {
                if i == p {
                    assert(e0.ids()[last] < self.id_counter);
                } else {
                    assert(e0.ids()[i] < self.id_counter);
                }
            }
            assert forall|j: int, t: Seq<char>| 0 <= j < self.entities.items().len()
                && (#[trigger] self.entities.items()[j]).tags().contains(t)
                implies #[trigger] string_views(self.tag_names@).contains(t) by {
                if j == p {
                    assert(e0.items()[last].tags().contains(t));
                } else {
                    assert(e0.items()[j].tags().contains(t));
                }
            }
        }
        let ghost e1 = self.entities;
        let ghost x1 = self.transforms;
        let n: usize = self.subscriptions.len();
        let mut b: usize = 0;
        while b < n
            invariant
                self.wf(),
                self.entities == e1,
                self.transforms == x1,
                self.entities.ids() == swap_removed(e0.ids(), e0.position(id)),
                self.id_counter == old(self).id_counter,
                self.tag_names == old(self).tag_names,
                self.subscriptions == old(self).subscriptions,
                self.behavior_to_created == old(self).behavior_to_created,
                n == self.subscriptions@.len(),
                old(self).behavior_to_deleted@.len() == n,
                0 <= b <= n,
                string_views(data.tags@) == old(self).record(id).tags(),
                forall|c: int| b <= c < n ==> #[trigger] self.behavior_to_deleted@[c] == old(self).behavior_to_deleted@[c],
                forall|c: int| 0 <= c < b ==> (#[trigger] self.behavior_to_deleted@[c])@.to_set() == if subscribes(
                    old(self).subscription(c),
                    old(self).record(id).tags(),
                ) {
                    old(self).pending_deleted(c).to_set().insert(id)
                } else {
                    old(self).pending_deleted(c).to_set()
                },
            decreases n - b,
        {
            if subscribes_exec(&self.subscriptions[b], &data.tags) {
                let ghost before = self.behavior_to_deleted@;
                add_id(&mut self.behavior_to_deleted[b], id);
                proof {
                    assert forall|c: int| 0 <= c < n && c != b implies #[trigger] self.behavior_to_deleted@[c] == before[c] by {}
                }
            }
            b = b + 1;
        }
        data.render
    }

    /// The render object paired with a live entity.
    pub fn get_render(&self, id: EntityId) -> (r: Option<RenderId>)
        requires
            self.wf(),
        ensures
            r == if self.has_entity(id) { self.record(id).render() } else { None },
    {
        match self.entities.get(id) {
            Some(d) => d.get_render(),
            None => None,
        }
    }

    /// The tags of a live entity.
    pub fn tags_by_id(&self, id: EntityId) -> (r: Option<&Vec<String>>)
        requires
            self.wf(),
        ensures
            match r {
                Some(v) => self.has_entity(id) && string_views(v@) == self.record(id).tags(),
                None => !self.has_entity(id),
            },
    {
        match self.entities.get(id) {
            Some(d) => Some(d.tags_vec()),
            None => None,
        }
    }

    /// The live entities that carry `tag`, in storage order.
    pub fn ids_by_tag(&self, tag: &str) -> (r: Vec<EntityId>)
        requires
            self.wf(),
        ensures
            r@.no_duplicates(),
            forall|x: EntityId| #[trigger] r@.contains(x) <==> self.has_entity(x) && self.record(x).tags().contains(tag@),
    {
        let t: String = tag.to_owned();
        let mut r: Vec<EntityId> = Vec::new();
        let n: usize = self.entities.len();
        let mut i: usize = 0;
        proof {
            self.entities.lemma_wf();
        }
        while i < n
            invariant
                self.wf(),
                n == self.entities.ids().len(),
                0 <= i <= n,
                t@ == tag@,
                r@.no_duplicates(),
                forall|x: EntityId| #[trigger] r@.contains(x) <==> self.entities.ids().subrange(0, i as int).contains(x)
                    && self.record(x).tags().contains(tag@),
            decreases n - i,
        {
            proof {
                self.entities.lemma_wf();
            }
            let x: EntityId = self.entities.id_at(i);
            let d: &EntityData = self.entities.item_at(i);
            let ghost pre = self.entities.ids().subrange(0, i as int);
            let ghost r0 = r@;
            proof {
                assert(self.entities.ids().subrange(0, i as int + 1) =~= pre.push(x));
                assert(self.entities.ids().contains(x));
                self.entities.lemma_position(x);
                assert(self.record(x) == *d);
                assert(!pre.contains(x)) by {
                    if pre.contains(x) {
                        let j = choose|j: int| 0 <= j < pre.len() && pre[j] == x;
                        assert(self.entities.ids()[j] == x);
                    }
                }
            }
            if holds_string(&d.tags, &t) {
                r.push(x);
                proof {
                    assert forall|a: int, b: int| 0 <= a < r@.len() && 0 <= b < r@.len() && a != b implies r@[a] != r@[b] by {
                        if a < r0.len() && b < r0.len() {
                        } else if a < r0.len() {
                            assert(r0.contains(r@[a]));
                        } else {
                            assert(r0.contains(r@[b]));
                        }
                    }
                }
            }
            proof {
                assert forall|y: EntityId| #[trigger] r@.contains(y) <==> pre.push(x).contains(y)
                    && self.record(y).tags().contains(tag@) by {
                    if r@.contains(y) && y != x {
                        let j = choose|j: int| 0 <= j < r@.len() && r@[j] == y;
                        assert(r0[j] == y);
                    }
                    if r0.contains(y) {
                        let j = choose|j: int| 0 <= j < r0.len() && r0[j] == y;
                        assert(r@[j] == y);
                    }
                    if pre.push(x).contains(y) && y != x {
                        let j = choose|j: int| 0 <= j < pre.push(x).len() && pre.push(x)[j] == y;
                        assert(pre[j] == y);
                    }
                    if pre.contains(y) {
                        let j = choose|j: int| 0 <= j < pre.len() && pre[j] == y;
                        assert(pre.push(x)[j] == y);
                    }
                    assert(pre.push(x)[pre.len() as int] == x);
                    if r@.len() > r0.len() {
                        assert(r@[r0.len() as int] == x);
                    }
                }
            }
            i = i + 1;
        }
        proof {
            let all = self.entities.ids();
            assert(all.subrange(0, n as int) =~= all);
        }
        r
    }

    /// The transform of a live entity.
    pub fn transform_by_id(&self, id: EntityId) -> (r: Option<&T>)
        requires
            self.wf(),
        ensures
            match r {
                Some(x) => self.has_entity(id) && *x == self.transform(id),
                None => !self.has_entity(id),
            },
    {
        self.transforms.get(id)
    }

    /// Replaces the transform of a live entity; returns whether it is live.
    pub fn set_transform(&mut self, id: EntityId, transform: T) -> (r: bool)
        requires
            old(self).wf(),
        ensures
            final(self).wf(),
            r == old(self).has_entity(id),
            final(self).entity_ids() == old(self).entity_ids(),
            r ==> final(self).transform(id) == transform,
            forall|x: EntityId| #[trigger] old(self).has_entity(x) ==> final(self).record(x) == old(self).record(x),
            forall|x: EntityId| #[trigger] old(self).has_entity(x) && x != id ==> final(self).transform(x) == old(self).transform(x),
    {
        let r = self.transforms.set(id, transform);
        proof {
            old(self).transforms.lemma_wf();
            if r {
                old(self).transforms.lemma_position(id);
            }
            assert forall|x: EntityId| #[trigger] old(self).has_entity(x) && x != id implies self.transform(x) == old(self).transform(x) by {
                old(self).transforms.lemma_position(x);
            }
        }
        r
    }

    /// Starts a frame: drains every behavior's pending sets and returns the
    /// calls to make, in order: deletion notices, then creation notices, then
    /// one `run` per behavior. What the calls do to the world lands in fresh
    /// pending sets, for the next frame.
    pub fn begin_frame(&mut self) -> (r: Vec<Notification>)
        requires
            old(self).wf(),
        ensures
            final(self).wf(),
            notification_views(r@) == frame_of(old(self).deleted_sets(), old(self).created_sets()),
            forall|k: int| 0 <= k < r@.len() ==> (#[trigger] r@[k]).ids@.no_duplicates(),
            final(self).behaviors() == old(self).behaviors(),
            final(self).entity_ids() == old(self).entity_ids(),
            final(self).next_id() == old(self).next_id(),
            final(self).tag_keys() == old(self).tag_keys(),
            forall|x: EntityId| #[trigger] old(self).has_entity(x) ==> final(self).record(x) == old(self).record(x)
                && final(self).transform(x) == old(self).transform(x),
            forall|b: int| 0 <= b < old(self).behaviors() ==> #[trigger] final(self).subscription(b) == old(self).subscription(b),
            forall|b: int| 0 <= b < old(self).behaviors() ==> #[trigger] final(self).pending_created(b) == Seq::<EntityId>::empty()
                && final(self).pending_deleted(b) == Seq::<EntityId>::empty(),
    {
        let n: usize = self.subscriptions.len();
        let mut deleted: Vec<Vec<EntityId>> = empty_sets(n);
        let mut created: Vec<Vec<EntityId>> = empty_sets(n);
        core::mem::swap(&mut self.behavior_to_deleted, &mut deleted);
        core::mem::swap(&mut self.behavior_to_created, &mut created);
        proof {
            assert(set_views(deleted@) =~= old(self).deleted_sets());
            assert(set_views(created@) =~= old(self).created_sets());
        }
        let mut out: Vec<Notification> = Vec::new();
        push_events(&mut out, NotificationKind::Deleted, deleted);
        push_events(&mut out, NotificationKind::Created, created);
        let ghost before = notification_views(out@);
        let mut b: usize = 0;
        while b < n
            invariant
                0 <= b <= n,
                notification_views(out@) == before + runs(b as nat),
                forall|k: int| 0 <= k < out@.len() ==> (#[trigger] out@[k]).ids@.no_duplicates(),
            decreases n - b,
        {
            let ghost o0 = out@;
            let note = Notification { kind: NotificationKind::Run, behavior: b, ids: Vec::new() };
            assert(note@ == (NotificationKind::Run, b as nat, Seq::<EntityId>::empty()));
            out.push(note);
            proof {
                assert forall|k: int| 0 <= k < out@.len() implies (#[trigger] out@[k]).ids@.no_duplicates() by {
                    if k < o0.len() {
                        assert(out@[k] == o0[k]);
                    } else {
                        assert(out@[k].ids@ == Seq::<EntityId>::empty());
                    }
                }
                assert(notification_views(out@) =~= notification_views(o0).push(note@));
                assert(runs(b as nat + 1) =~= runs(b as nat).push(note@));
            }
            b = b + 1;
            proof {
                assert(notification_views(out@) =~= before + runs(b as nat));
            }
        }
        proof {
            assert(notification_views(out@) =~= frame_of(old(self).deleted_sets(), old(self).created_sets()));
        }
        out
    }

    /// Deletes an entity together with the render object it owns, giving
    /// back every texture slot and geometry region of that object.
    pub fn delete_entity_and_render<R>(&mut self, renderer: &mut EntityRenderer<R>, id: EntityId) -> (r: bool)
        requires
            old(self).wf(),
            old(renderer).wf(),
        ensures
            final(self).wf(),
            final(renderer).wf(),
            r == old(self).has_entity(id),
            !final(self).has_entity(id),
            forall|x: EntityId| #[trigger] old(self).has_entity(x) && x != id ==> final(self).has_entity(x)
                && final(self).record(x) == old(self).record(x),
            forall|x: EntityId| #[trigger] final(self).has_entity(x) ==> old(self).has_entity(x),
            match (if r { old(self).record(id).render() } else { None }) {
                Some(rid) => {
                    let e = old(renderer).renders()[rid];
                    &&& final(renderer).renders() == old(renderer).renders().remove(rid)
                    &&& old(renderer).has_render(rid) ==> {
                        &&& forall|t: u64| #[trigger] final(renderer).tex_state().is_live(t)
                            <==> old(renderer).tex_state().is_live(t) && !e.tex_ids().contains(t)
                        &&& forall|m: nat| #[trigger] final(renderer).mesh_state().is_live(m)
                            <==> old(renderer).mesh_state().is_live(m) && e.mesh() != Some(m)
                    }
                },
                None => final(renderer).renders() == old(renderer).renders()
                    && final(renderer).tex_state() == old(renderer).tex_state()
                    && final(renderer).mesh_state() == old(renderer).mesh_state(),
            },
    {
        let had: bool = self.entities.index(id).is_some();
        match self.delete_entity(id) {
            Some(rid) => {
                let _ = renderer.delete_render(rid);
            },
            None => {},
        }
        had
    }

    /// Whether another entity can be created: ids are never reused.
    pub fn can_create(&self) -> (r: bool)
        ensures
            r == (self.next_id() < u64::MAX),
    {
        self.id_counter < u64::MAX
    }

    pub fn behavior_count(&self) -> (r: usize)
        ensures
            r == self.behaviors(),
    {
        self.subscriptions.len()
    }
}

} // verus!
