//! Registry of render objects: each owns the texture slots and the geometry
//! region that were allocated for it, and gives every one of them back when
//! it is deleted.
use std::collections::HashMap;
use vstd::prelude::*;
use crate::meshmanager::{GeometryError, MeshHandle, MeshManager, lemma_can_alloc_after_free};
use crate::texmanager::{TexHandle, TexManager, TextureError};

verus! {

broadcast use vstd::std_specs::hash::group_hash_axioms;

pub type RenderId = u64;

#[derive(Clone, Copy, Debug, PartialEq, Eq)]
pub enum RenderTargetType {
    RGBA32Depth,
    RGBA32,
    Depth,
}

impl RenderTargetType {
    pub open spec fn has_color(self) -> bool {
        !(self is Depth)
    }

    pub open spec fn has_depth(self) -> bool {
        !(self is RGBA32)
    }
}

/// Where the textures of a render object come from.
#[derive(Debug)]
pub enum EntityTexture {
    /// Named image resources, one slot each.
    Resource(Vec<String>),
    /// Dynamically written colour images of the given width and height.
    DynamicRGBA(Vec<(u32, u32)>),
    /// A render target: a colour image (a second one for post-processing
    /// ping-pong) and/or a depth image, as the kind says.
    RenderTarget { width: u32, height: u32, ty: RenderTargetType, post_enabled: bool },
}

/// Where the geometry of a render object comes from.
#[derive(Debug)]
pub enum EntityModel {
    /// A named model resource, sized by its decoded vertex count.
    Resource(String),
    /// Dynamic geometry of an initial vertex count.
    InitialSize(usize),
    /// Shares the geometry of another render object; allocates none.
    Alias(RenderId),
}

/// One image that a texture spec asks for, in allocation order.
#[derive(Clone, Copy, Debug, PartialEq, Eq)]
pub enum TexRequest {
    /// The named resource at this position of `EntityTexture::Resource`.
    Resource(usize),
    Color { width: u32, height: u32 },
    Depth { width: u32, height: u32 },
}

/// A vertex update, by counts: the vertex data itself goes straight to the
/// buffer at the slots that the registry returns.
#[derive(Clone, Copy, Debug, PartialEq, Eq)]
pub enum SetVerticesData {
    /// Replace the whole geometry by `count` vertices.
    Replace(usize),
    /// Overwrite `count` vertices starting at index `at` of the region.
    ModifyAt(usize, usize),
}

#[derive(Clone, Copy, Debug, PartialEq, Eq)]
pub enum RenderError {
    UnknownRender,
    /// The render object owns no geometry.
    NoGeometry,
    /// Every render id has been handed out.
    IdsExhausted,
    Geometry(GeometryError),
    Texture(TextureError),
}

/// The images that `t` asks for, in the order they are allocated: colour
/// images before the depth image.
pub open spec fn requests_of(t: Option<EntityTexture>) -> Seq<TexRequest> {
    match t {
        None => Seq::empty(),
        Some(EntityTexture::Resource(paths)) => Seq::new(paths@.len(), |i: int| TexRequest::Resource(i as usize)),
        Some(EntityTexture::DynamicRGBA(sizes)) => Seq::new(
            sizes@.len(),
            |i: int| TexRequest::Color { width: sizes@[i].0, height: sizes@[i].1 },
        ),
        Some(EntityTexture::RenderTarget { width, height, ty, post_enabled }) => {
            let c = TexRequest::Color { width, height };
            let colors = if !ty.has_color() {
                Seq::empty()
            } else if post_enabled {
                seq![c, c]
            } else {
                seq![c]
            };
            if ty.has_depth() {
                colors.push(TexRequest::Depth { width, height })
            } else {
                colors
            }
        },
    }
}

/// Whether `t` asks for a depth image.
pub open spec fn depth_requested(t: Option<EntityTexture>) -> bool {
    match t {
        Some(EntityTexture::RenderTarget { ty, .. }) => ty.has_depth(),
        _ => false,
    }
}

/// The vertex count to allocate for `model` agrees with it: none for no
/// model or an alias, the initial size for dynamic geometry, some count for a
/// named resource.
pub open spec fn mesh_size_fits(model: Option<EntityModel>, size: Option<usize>) -> bool {
    match model {
        Some(EntityModel::Resource(_)) => size is Some,
        Some(EntityModel::InitialSize(n)) => size == Some(n),
        _ => size is None,
    }
}

/// `n` consecutive ids from `start`.
pub open spec fn fresh_ids(start: u64, n: nat) -> Seq<u64> {
    Seq::new(n, |i: int| (start + i) as u64)
}

proof fn lemma_requests_shape(t: Option<EntityTexture>)
    ensures
        forall|i: int| 0 <= i < requests_of(t).len() - 1 ==> !(#[trigger] requests_of(t)[i] is Depth),
        depth_requested(t) <==> (requests_of(t).len() > 0 && requests_of(t).last() is Depth),
{
}

/// The images that `texture` asks for, in allocation order.
pub fn texture_requests(texture: &Option<EntityTexture>) -> (r: Vec<TexRequest>)
    ensures
        r@ == requests_of(*texture),
{
    let mut r: Vec<TexRequest> = Vec::new();
    match texture {
        None => {},
        Some(EntityTexture::Resource(paths)) => {
            let mut i: usize = 0;
            while i < paths.len()
                invariant
                    0 <= i <= paths@.len(),
                    r@ == Seq::new(i as nat, |j: int| TexRequest::Resource(j as usize)),
                decreases paths@.len() - i,
            {
                r.push(TexRequest::Resource(i));
                i = i + 1;
                assert(r@ =~= Seq::new(i as nat, |j: int| TexRequest::Resource(j as usize)));
            }
            assert(r@ =~= requests_of(*texture));
        },
        Some(EntityTexture::DynamicRGBA(sizes)) => {
            let mut i: usize = 0;
            while i < sizes.len()
                invariant
                    0 <= i <= sizes@.len(),
                    r@ == Seq::new(i as nat, |j: int| TexRequest::Color { width: sizes@[j].0, height: sizes@[j].1 }),
                decreases sizes@.len() - i,
            {
                let (w, h) = sizes[i];
                r.push(TexRequest::Color { width: w, height: h });
                i = i + 1;
                assert(r@ =~= Seq::new(i as nat, |j: int| TexRequest::Color { width: sizes@[j].0, height: sizes@[j].1 }));
            }
            assert(r@ =~= requests_of(*texture));
        },
        Some(EntityTexture::RenderTarget { width, height, ty, post_enabled }) => {
            let color: bool = match ty {
                RenderTargetType::Depth => false,
                _ => true,
            };
            let depth: bool = match ty {
                RenderTargetType::RGBA32 => false,
                _ => true,
            };
            if color {
                r.push(TexRequest::Color { width: *width, height: *height });
                if *post_enabled {
                    r.push(TexRequest::Color { width: *width, height: *height });
                }
            }
            if depth {
                r.push(TexRequest::Depth { width: *width, height: *height });
            }
            assert(r@ =~= requests_of(*texture));
        },
    }
    r
}

/// What a render object owns.
pub struct RenderEntity {
    texture: Option<EntityTexture>,
    model: Option<EntityModel>,
    color_allocations: Vec<TexHandle>,
    depth_allocation: Option<TexHandle>,
    mesh_allocation: Option<MeshHandle>,
}

pub open spec fn handle_ids(hs: Seq<TexHandle>) -> Seq<u64> {
    hs.map_values(|h: TexHandle| h@)
}

impl RenderEntity {
    pub closed spec fn texture(self) -> Option<EntityTexture> {
        self.texture
    }

    pub closed spec fn model(self) -> Option<EntityModel> {
        self.model
    }

    /// Ids of the texture slots owned: the colour images, then the depth image.
    pub closed spec fn tex_ids(self) -> Seq<u64> {
        handle_ids(self.color_allocations@) + match self.depth_allocation {
            Some(h) => seq![h@],
            None => Seq::empty(),
        }
    }

    pub closed spec fn has_depth(self) -> bool {
        self.depth_allocation is Some
    }

    /// Id of the geometry region owned, if any.
    pub closed spec fn mesh(self) -> Option<nat> {
        match self.mesh_allocation {
            Some(h) => Some(h@),
            None => None,
        }
    }
}

pub struct EntityRendererStorage {
    renders: HashMap<RenderId, RenderEntity>,
    id_counter: u64,
}

impl EntityRendererStorage {
    pub closed spec fn view(self) -> Map<RenderId, RenderEntity> {
        self.renders@
    }

    pub closed spec fn next_id(self) -> u64 {
        self.id_counter
    }

    pub closed spec fn wf(self) -> bool {
        forall|k: RenderId| #[trigger] self.renders@.contains_key(k) ==> k < self.id_counter
    }

    pub fn new() -> (r: EntityRendererStorage)
        ensures
            r.wf(),
            r@ == Map::<RenderId, RenderEntity>::empty(),
            r.next_id() == 0,
    {
        EntityRendererStorage { renders: HashMap::new(), id_counter: 0 }
    }
}

/// The registry together with the two allocators it draws on; `R` is the
/// type of a committed texture image.
pub struct EntityRenderer<R> {
    storage: EntityRendererStorage,
    meshes: MeshManager,
    textures: TexManager<R>,
}

impl<R> EntityRenderer<R> {
    pub closed spec fn renders(self) -> Map<RenderId, RenderEntity> {
        self.storage@
    }

    pub closed spec fn next_render_id(self) -> u64 {
        self.storage.next_id()
    }

    pub closed spec fn mesh_state(self) -> MeshManager {
        self.meshes
    }

    pub closed spec fn tex_state(self) -> TexManager<R> {
        self.textures
    }

    pub open spec fn has_render(self, id: RenderId) -> bool {
        self.renders().contains_key(id)
    }

    /// Render object `rid` holds texture slot `t`.
    pub open spec fn holds_tex(self, rid: RenderId, t: u64) -> bool {
        self.has_render(rid) && self.renders()[rid].tex_ids().contains(t)
    }

    /// Render object `rid` holds geometry region `m`.
    pub open spec fn holds_mesh(self, rid: RenderId, m: nat) -> bool {
        self.has_render(rid) && self.renders()[rid].mesh() == Some(m)
    }

    /// Every allocation a render object holds is live, and is held by it
    /// alone.
    pub open spec fn owns_exclusively(self) -> bool {
        &&& forall|rid: RenderId, t: u64| #[trigger] self.holds_tex(rid, t) ==> self.tex_state().is_live(t)
        &&& forall|rid: RenderId, m: nat| #[trigger] self.holds_mesh(rid, m) ==> self.mesh_state().is_live(m)
        &&& forall|r1: RenderId, r2: RenderId, t: u64| #[trigger] self.holds_tex(r1, t) && #[trigger] self.holds_tex(r2, t) ==> r1 == r2
        &&& forall|r1: RenderId, r2: RenderId, m: nat| #[trigger] self.holds_mesh(r1, m) && #[trigger] self.holds_mesh(r2, m) ==> r1 == r2
        &&& forall|rid: RenderId| #[trigger] self.has_render(rid) ==> self.renders()[rid].tex_ids().no_duplicates()
    }

    pub closed spec fn wf(self) -> bool {
        &&& self.storage.wf()
        &&& self.meshes.wf()
        &&& self.textures.wf()
        &&& self.owns_exclusively()
    }

    /// No render object holds a freed allocation, and none shares one with
    /// another.
    pub proof fn lemma_wf(self)
        requires
            self.wf(),
        ensures
            self.mesh_state().wf(),
            self.tex_state().wf(),
            self.owns_exclusively(),
            forall|k: RenderId| #[trigger] self.has_render(k) ==> k < self.next_render_id(),
    {
    }

    /// Exclusive ownership depends only on what the objects hold and on which
    /// handles are live.
    proof fn lemma_same_holdings(a: Self, b: Self)
        requires
            a.owns_exclusively(),
            b.renders() == a.renders(),
            b.tex_state().handles() == a.tex_state().handles(),
            b.mesh_state().table() == a.mesh_state().table(),
            b.mesh_state().free_pool() == a.mesh_state().free_pool(),
        ensures
            b.owns_exclusively(),
    {
        assert forall|rid: RenderId, t: u64| #[trigger] b.holds_tex(rid, t) implies b.tex_state().is_live(t) by {
            assert(a.holds_tex(rid, t));
        }
        assert forall|rid: RenderId, m: nat| #[trigger] b.holds_mesh(rid, m) implies b.mesh_state().is_live(m) by {
            assert(a.holds_mesh(rid, m));
        }
        assert forall|r1: RenderId, r2: RenderId, t: u64| #[trigger] b.holds_tex(r1, t) && #[trigger] b.holds_tex(r2, t)
            implies r1 == r2 by {
            assert(a.holds_tex(r1, t) && a.holds_tex(r2, t));
        }
        assert forall|r1: RenderId, r2: RenderId, m: nat| #[trigger] b.holds_mesh(r1, m) && #[trigger] b.holds_mesh(r2, m)
            implies r1 == r2 by {
            assert(a.holds_mesh(r1, m) && a.holds_mesh(r2, m));
        }
        assert forall|rid: RenderId| #[trigger] b.has_render(rid) implies b.renders()[rid].tex_ids().no_duplicates() by {
            assert(a.has_render(rid));
        }
    }

    /// A registry over a vertex buffer of `vertex_capacity` slots and a
    /// texture array of `texture_capacity` slots.
    pub fn new(vertex_capacity: usize, texture_capacity: usize) -> (r: EntityRenderer<R>)
        ensures
            r.wf(),
            r.renders() == Map::<RenderId, RenderEntity>::empty(),
            r.next_render_id() == 0,
            r.mesh_state().capacity() == vertex_capacity,
            r.mesh_state().table() == seq![crate::meshmanager::GeometryRegion { offset: 0, length: vertex_capacity }],
            r.mesh_state().free_pool() == seq![0usize],
            r.tex_state().capacity() == texture_capacity,
            r.tex_state().handles() == Seq::<u64>::empty(),
            r.tex_state().next_id() == 0,
    {
        EntityRenderer {
            storage: EntityRendererStorage::new(),
            meshes: MeshManager::new(vertex_capacity),
            textures: TexManager::new(texture_capacity),
        }
    }

    pub fn meshes(&self) -> (r: &MeshManager)
        ensures
            *r == self.mesh_state(),
    {
        &self.meshes
    }

    pub fn textures(&self) -> (r: &TexManager<R>)
        ensures
            *r == self.tex_state(),
    {
        &self.textures
    }

    /// Registers a render object. `images` holds one committed image for each
    /// of `texture_requests(&texture)`, in that order; `mesh_size` is the
    /// vertex count to allocate for `model`. Either everything is allocated,
    /// or nothing changes and the error says what ran out.
    pub fn create_render(
        &mut self,
        texture: Option<EntityTexture>,
        model: Option<EntityModel>,
        images: Vec<R>,
        mesh_size: Option<usize>,
    ) -> (r: Result<RenderId, RenderError>)
        requires
            old(self).wf(),
            images@.len() == requests_of(texture).len(),
            mesh_size_fits(model, mesh_size),
        ensures
            final(self).wf(),
            match r {
                Ok(id) => {
                    let e = final(self).renders()[id];
                    let t0 = old(self).tex_state();
                    let t1 = final(self).tex_state();
                    let fresh = fresh_ids(t0.next_id(), images@.len());
                    &&& id == old(self).next_render_id()
                    &&& final(self).next_render_id() == id + 1
                    &&& !old(self).has_render(id)
                    &&& final(self).renders() == old(self).renders().insert(id, e)
                    &&& e.texture() == texture
                    &&& e.model() == model
                    &&& e.tex_ids() == fresh
                    &&& e.has_depth() == depth_requested(texture)
                    &&& t1.handles() == t0.handles() + fresh
                    &&& t1.images() == t0.images() + images@
                    &&& t1.next_id() == t0.next_id() + images@.len()
                    &&& t1.capacity() == t0.capacity()
                    &&& (images@.len() > 0 ==> t1.stale())
                    &&& match mesh_size {
                        None => e.mesh() is None && final(self).mesh_state() == old(self).mesh_state(),
                        Some(s) => {
                            let m0 = old(self).mesh_state();
                            let m1 = final(self).mesh_state();
                            &&& e.mesh() is Some
                            &&& !m0.is_live(e.mesh().unwrap())
                            &&& m1.is_live(e.mesh().unwrap())
                            &&& m1.region(e.mesh().unwrap()).length == s
                            &&& forall|m: nat| #[trigger] m0.is_live(m) ==> m1.is_live(m) && m1.region(m) == m0.region(m)
                        },
                    }
                },
                Err(err) => {
                    &&& *final(self) == *old(self)
                    &&& if old(self).next_render_id() == u64::MAX {
                        err == RenderError::IdsExhausted
                    } else if old(self).tex_state().handles().len() + images@.len() > old(self).tex_state().capacity() {
                        err == RenderError::Texture(TextureError::TextureArrayFull)
                    } else if old(self).tex_state().next_id() + images@.len() > u64::MAX {
                        err == RenderError::Texture(TextureError::HandlesExhausted)
                    } else {
                        &&& mesh_size is Some
                        &&& !old(self).mesh_state().can_alloc(mesh_size.unwrap() as nat)
                        &&& err == RenderError::Geometry(GeometryError::OutOfGeometrySpace)
                    }
                },
            },
            r is Err ==> (old(self).next_render_id() == u64::MAX
                || old(self).tex_state().handles().len() + images@.len() > old(self).tex_state().capacity()
                || old(self).tex_state().next_id() + images@.len() > u64::MAX
                || (mesh_size is Some && !old(self).mesh_state().can_alloc(mesh_size.unwrap() as nat))),
    {
        proof {
            self.textures.lemma_wf();
            lemma_requests_shape(texture);
        }
        let n: usize = images.len();
        if self.storage.id_counter == u64::MAX {
            return Err(RenderError::IdsExhausted);
        }
        if n > self.textures.max_size() - self.textures.len() {
            return Err(RenderError::Texture(TextureError::TextureArrayFull));
        }
        if n as u64 > u64::MAX - self.textures.next_handle_id() {
            return Err(RenderError::Texture(TextureError::HandlesExhausted));
        }
        let mut mesh: Option<MeshHandle> = None;
        match mesh_size {
            Some(s) => {
                match self.meshes.alloc_mesh(s) {
                    Ok(h) => { mesh = Some(h); },
                    Err(_) => { return Err(RenderError::Geometry(GeometryError::OutOfGeometrySpace)); },
                }
            },
            None => {},
        }
        let ghost mid = *self;
        let requests: Vec<TexRequest> = texture_requests(&texture);
        let mut images = images;
        let mut colors: Vec<TexHandle> = Vec::new();
        let mut depth: Option<TexHandle> = None;
        let ghost all_images = images@;
        let ghost t0 = old(self).textures;
        let mut k: usize = 0;
        while k < n
            invariant
                self.storage.wf(),
                self.meshes.wf(),
                self.textures.wf(),
                self.storage == old(self).storage,
                self.meshes == mid.meshes,
                0 <= k <= n,
                n == all_images.len(),
                requests@ == requests_of(texture),
                requests@.len() == n,
                images@ == all_images.subrange(k as int, n as int),
                self.textures.handles() == t0.handles() + fresh_ids(t0.next_id(), k as nat),
                self.textures.images() == t0.images() + all_images.subrange(0, k as int),
                self.textures.next_id() == t0.next_id() + k,
                self.textures.capacity() == t0.capacity(),
                t0.handles().len() + n <= t0.capacity(),
                t0.next_id() + n <= u64::MAX,
                k > 0 ==> self.textures.stale(),
                depth is None ==> handle_ids(colors@) == fresh_ids(t0.next_id(), k as nat),
                depth is Some ==> k == n && handle_ids(colors@).push(depth.unwrap()@) == fresh_ids(t0.next_id(), k as nat)
                    && requests_of(texture).last() is Depth,
                depth is None && k == n && n > 0 ==> !(requests_of(texture).last() is Depth),
                forall|i: int| 0 <= i < requests_of(texture).len() - 1 ==> !(#[trigger] requests_of(texture)[i] is Depth),
            decreases n - k,
        {
            proof { self.textures.lemma_wf(); }
            let image: R = images.remove(0);
            // Room and ids for every image were checked above.
            let h: TexHandle = self.textures.alloc_tex(image).unwrap();
            let ghost kk = k as int;
            match requests[k] {
                TexRequest::Depth { .. } => {
                    assert(kk == n - 1);
                    depth = Some(h);
                },
                _ => {
                    let ghost c0 = colors@;
                    colors.push(h);
                    proof {
                        assert(handle_ids(colors@) =~= handle_ids(c0).push(h@));
                    }
                },
            }
            k = k + 1;
            proof {
                assert(self.textures.handles() =~= t0.handles() + fresh_ids(t0.next_id(), k as nat));
                assert(self.textures.images() =~= t0.images() + all_images.subrange(0, k as int));
                assert(images@ =~= all_images.subrange(k as int, n as int));
                if depth is None {
                    assert(handle_ids(colors@) =~= fresh_ids(t0.next_id(), k as nat));
                } else {
                    assert(handle_ids(colors@).push(depth.unwrap()@) =~= fresh_ids(t0.next_id(), k as nat));
                }
            }
        }
        let id: RenderId = self.storage.id_counter;
        let e = RenderEntity {
            texture,
            model,
            color_allocations: colors,
            depth_allocation: depth,
            mesh_allocation: mesh,
        };
        proof {
            assert(e.tex_ids() =~= fresh_ids(t0.next_id(), n as nat));
            assert(self.textures.images() =~= t0.images() + all_images);
        }
        self.storage.renders.insert(id, e);
        self.storage.id_counter = id + 1;
        proof {
            assert(!old(self).storage.renders@.contains_key(id));
            assert(self.storage.renders@ == old(self).storage.renders@.insert(id, e));
            let o = *old(self);
            let fresh = fresh_ids(t0.next_id(), n as nat);
            t0.lemma_wf();
            old(self).textures.lemma_wf();
            assert forall|rid: RenderId, t: u64| #[trigger] self.holds_tex(rid, t) implies self.tex_state().is_live(t) by {
                if rid == id {
                    let i = choose|i: int| 0 <= i < fresh.len() && fresh[i] == t;
                    assert(self.textures.handles()[t0.handles().len() + i] == t);
                } else {
                    assert(o.holds_tex(rid, t));
                    let i = choose|i: int| 0 <= i < t0.handles().len() && t0.handles()[i] == t;
                    assert(self.textures.handles()[i] == t);
                }
            }
            assert forall|rid: RenderId, m: nat| #[trigger] self.holds_mesh(rid, m) implies self.mesh_state().is_live(m) by {
                if rid != id {
                    assert(o.holds_mesh(rid, m));
                }
            }
            assert forall|r1: RenderId, r2: RenderId, t: u64| #[trigger] self.holds_tex(r1, t) && #[trigger] self.holds_tex(r2, t)
                implies r1 == r2 by {
                if r1 != r2 {
                    if r1 == id || r2 == id {
                        let other = if r1 == id { r2 } else { r1 };
                        assert(o.holds_tex(other, t));
                        assert(t0.is_live(t));
                        let j = choose|j: int| 0 <= j < t0.handles().len() && t0.handles()[j] == t;
                        assert(t < t0.next_id());
                        let i = choose|i: int| 0 <= i < fresh.len() && fresh[i] == t;
                        assert(false);
                    } else {
                        assert(o.holds_tex(r1, t) && o.holds_tex(r2, t));
                    }
                }
            }
            assert forall|r1: RenderId, r2: RenderId, m: nat| #[trigger] self.holds_mesh(r1, m) && #[trigger] self.holds_mesh(r2, m)
                implies r1 == r2 by {
                if r1 != r2 {
                    if r1 == id || r2 == id {
                        let other = if r1 == id { r2 } else { r1 };
                        assert(o.holds_mesh(other, m));
                    } else {
                        assert(o.holds_mesh(r1, m) && o.holds_mesh(r2, m));
                    }
                }
            }
            assert forall|rid: RenderId| #[trigger] self.has_render(rid) implies self.renders()[rid].tex_ids().no_duplicates() by {
                if rid != id {
                    assert(o.has_render(rid));
                }
            }
        }
        Ok(id)
    }

    /// Removes a render object after giving back every texture slot and the
    /// geometry region it owns. Returns whether `id` was registered.
    pub fn delete_render(&mut self, id: RenderId) -> (r: bool)
        requires
            old(self).wf(),
        ensures
            final(self).wf(),
            r == old(self).has_render(id),
            final(self).renders() == old(self).renders().remove(id),
            final(self).next_render_id() == old(self).next_render_id(),
            final(self).tex_state().next_id() == old(self).tex_state().next_id(),
            final(self).tex_state().capacity() == old(self).tex_state().capacity(),
            final(self).mesh_state().capacity() == old(self).mesh_state().capacity(),
            final(self).mesh_state().table() == old(self).mesh_state().table(),
            !r ==> final(self).tex_state() == old(self).tex_state() && final(self).mesh_state() == old(self).mesh_state(),
            r ==> {
                let e = old(self).renders()[id];
                let t0 = old(self).tex_state();
                let t1 = final(self).tex_state();
                let m0 = old(self).mesh_state();
                let m1 = final(self).mesh_state();
                &&& forall|t: u64| #[trigger] t1.is_live(t) <==> t0.is_live(t) && !e.tex_ids().contains(t)
                &&& forall|m: nat| #[trigger] m1.is_live(m) <==> m0.is_live(m) && e.mesh() != Some(m)
            },
    {
        let e: RenderEntity = match self.storage.renders.remove(&id) {
            Some(e) => e,
            None => {
                proof {
                    assert(self.storage.renders@ =~= old(self).storage.renders@);
                    Self::lemma_same_holdings(*old(self), *self);
                }
                return false;
            },
        };
        let ghost ev = e;
        let RenderEntity { texture: _, model: _, color_allocations, depth_allocation, mesh_allocation } = e;
        let mut colors: Vec<TexHandle> = color_allocations;
        let ghost all = handle_ids(colors@);
        let ghost t0 = self.textures;
        let ghost st = self.storage;
        proof {
            assert(st.renders@ == old(self).storage.renders@.remove(id));
            assert(st.wf());
        }
        while colors.len() > 0
            invariant
                self.meshes == old(self).meshes,
                self.storage == st,
                st.renders@ == old(self).storage.renders@.remove(id),
                st.wf(),
                self.textures.wf(),
                self.textures.next_id() == t0.next_id(),
                self.textures.capacity() == t0.capacity(),
                colors@.len() <= all.len(),
                handle_ids(colors@) == all.subrange(0, colors@.len() as int),
                forall|t: u64| #[trigger] self.textures.is_live(t) <==> t0.is_live(t)
                    && !all.subrange(colors@.len() as int, all.len() as int).contains(t),
            decreases colors@.len(),
        {
            let ghost before = colors@;
            let h: TexHandle = colors.pop().unwrap();
            let ghost hid = h@;
            proof {
                assert(handle_ids(before)[before.len() - 1] == hid);
            }
            let ghost tprev = self.textures;
            let _ = self.textures.free_tex(h);
            proof {
                let done0 = all.subrange(before.len() as int, all.len() as int);
                let done1 = all.subrange(colors@.len() as int, all.len() as int);
                assert(done1 =~= seq![hid] + done0);
                assert(handle_ids(colors@) =~= all.subrange(0, colors@.len() as int));
                assert forall|t: u64| #[trigger] self.textures.is_live(t) <==> t0.is_live(t) && !done1.contains(t) by {
                    assert(tprev.is_live(t) <==> t0.is_live(t) && !done0.contains(t));
                    if tprev.is_live(t) && t != hid {
                        assert(self.textures.is_live(t));
                    }
                    if done1.contains(t) && t != hid {
                        let j = choose|j: int| 0 <= j < done1.len() && done1[j] == t;
                        assert(done0[j - 1] == t);
                    }
                    if done0.contains(t) {
                        let j = choose|j: int| 0 <= j < done0.len() && done0[j] == t;
                        assert(done1[j + 1] == t);
                    }
                    assert(done1[0] == hid);
                }
            }
        }
        proof {
            assert(all.subrange(0, all.len() as int) =~= all);
        }
        match depth_allocation {
            Some(h) => {
                let ghost hid = h@;
                let ghost tprev = self.textures;
                let _ = self.textures.free_tex(h);
                proof {
                    assert(ev.tex_ids() =~= all.push(hid));
                    assert forall|t: u64| #[trigger] self.textures.is_live(t) <==> t0.is_live(t)
                        && !ev.tex_ids().contains(t) by {
                        assert(tprev.is_live(t) <==> t0.is_live(t) && !all.contains(t));
                        if tprev.is_live(t) && t != hid {
                            assert(self.textures.is_live(t));
                        }
                        if ev.tex_ids().contains(t) && t != hid {
                            let j = choose|j: int| 0 <= j < ev.tex_ids().len() && ev.tex_ids()[j] == t;
                            assert(all[j] == t);
                        }
                        if all.contains(t) {
                            let j = choose|j: int| 0 <= j < all.len() && all[j] == t;
                            assert(ev.tex_ids()[j] == t);
                        }
                        assert(ev.tex_ids()[all.len() as int] == hid);
                    }
                }
            },
            None => {
                proof {
                    assert(ev.tex_ids() =~= all);
                }
            },
        }
        match mesh_allocation {
            Some(h) => {
                self.meshes.free_mesh(h);
            },
            None => {},
        }
        proof {
            let o = *old(self);
            assert(ev == o.renders()[id]);
            assert forall|rid: RenderId, t: u64| #[trigger] self.holds_tex(rid, t) implies self.tex_state().is_live(t) by {
                assert(o.holds_tex(rid, t));
                if ev.tex_ids().contains(t) {
                    assert(o.holds_tex(id, t));
                }
            }
            assert forall|rid: RenderId, m: nat| #[trigger] self.holds_mesh(rid, m) implies self.mesh_state().is_live(m) by {
                assert(o.holds_mesh(rid, m));
                if ev.mesh() == Some(m) {
                    assert(o.holds_mesh(id, m));
                }
            }
            assert forall|r1: RenderId, r2: RenderId, t: u64| #[trigger] self.holds_tex(r1, t) && #[trigger] self.holds_tex(r2, t)
                implies r1 == r2 by {
                assert(o.holds_tex(r1, t) && o.holds_tex(r2, t));
            }
            assert forall|r1: RenderId, r2: RenderId, m: nat| #[trigger] self.holds_mesh(r1, m) && #[trigger] self.holds_mesh(r2, m)
                implies r1 == r2 by {
                assert(o.holds_mesh(r1, m) && o.holds_mesh(r2, m));
            }
            assert forall|rid: RenderId| #[trigger] self.has_render(rid) implies self.renders()[rid].tex_ids().no_duplicates() by {
                assert(o.has_render(rid));
            }
        }
        true
    }

    /// Updates the vertex count of a render object's geometry and returns the
    /// absolute slots that the vertex data is to be written to. A full
    /// replacement reallocates the region when the count differs; a partial
    /// update must fit the current region, which it never grows.
    pub fn set_vertices(&mut self, id: RenderId, data: SetVerticesData) -> (r: Result<
        core::ops::Range<usize>,
        RenderError,
    >)
        requires
            old(self).wf(),
        ensures
            final(self).wf(),
            final(self).next_render_id() == old(self).next_render_id(),
            final(self).tex_state() == old(self).tex_state(),
            final(self).renders().dom() == old(self).renders().dom(),
            forall|k: RenderId| k != id && #[trigger] old(self).has_render(k) ==> final(self).renders()[k] == old(self).renders()[k],
            !old(self).has_render(id) ==> r == Err::<core::ops::Range<usize>, RenderError>(RenderError::UnknownRender)
                && final(self).mesh_state() == old(self).mesh_state(),
            old(self).has_render(id) ==> {
                let e0 = old(self).renders()[id];
                let e1 = final(self).renders()[id];
                let m0 = old(self).mesh_state();
                let m1 = final(self).mesh_state();
                &&& e1.texture() == e0.texture()
                &&& e1.model() == e0.model()
                &&& e1.tex_ids() == e0.tex_ids()
                &&& e1.has_depth() == e0.has_depth()
                &&& if e0.mesh() is None {
                    r == Err::<core::ops::Range<usize>, RenderError>(RenderError::NoGeometry) && e1 == e0 && m1 == m0
                } else {
                    let m = e0.mesh().unwrap();
                    let g = m0.region(m);
                    match data {
                        SetVerticesData::Replace(count) => if count == g.length {
                            &&& e1 == e0
                            &&& m1 == m0
                            &&& r is Ok
                            &&& r.unwrap().start == g.offset
                            &&& r.unwrap().end == g.offset + count
                        } else {
                            &&& m1.capacity() == m0.capacity()
                            &&& !m1.is_live(m)
                            &&& forall|x: nat| #[trigger] m0.is_live(x) && x != m ==> m1.is_live(x) && m1.region(x) == m0.region(x)
                            &&& (r is Ok <==> (m0.can_alloc(count as nat)
                                || (g.length > count && m0.table().len() + 2 < usize::MAX)))
                            &&& match r {
                                Ok(w) => {
                                    &&& e1.mesh() is Some
                                    &&& !m0.is_live(e1.mesh().unwrap())
                                    &&& m1.is_live(e1.mesh().unwrap())
                                    &&& m1.region(e1.mesh().unwrap()).length == count
                                    &&& w.start == m1.region(e1.mesh().unwrap()).offset
                                    &&& w.end == w.start + count
                                },
                                Err(err) => err == RenderError::Geometry(GeometryError::OutOfGeometrySpace)
                                    && e1.mesh() is None,
                            }
                        },
                        SetVerticesData::ModifyAt(at, count) => {
                            &&& e1 == e0
                            &&& m1 == m0
                            &&& if at + count <= g.length {
                                r is Ok && r.unwrap().start == g.offset + at && r.unwrap().end == g.offset + at + count
                            } else {
                                r == Err::<core::ops::Range<usize>, RenderError>(RenderError::Geometry(GeometryError::RegionTooSmall))
                            }
                        },
                    }
                }
            },
    {
        let mut e: RenderEntity = match self.storage.renders.remove(&id) {
            Some(e) => e,
            None => {
                proof {
                    assert(self.storage.renders@ =~= old(self).storage.renders@);
                    Self::lemma_same_holdings(*old(self), *self);
                }
                return Err(RenderError::UnknownRender);
            },
        };
        let ghost e0 = e;
        proof {
            assert(self.storage.renders@.insert(id, e0) == old(self).storage.renders@);
        }
        let r: Result<core::ops::Range<usize>, RenderError> = match e.mesh_allocation.take() {
            None => Err(RenderError::NoGeometry),
            Some(h) => {
                proof {
                    assert(old(self).holds_mesh(id, h@));
                }
                match self.meshes.get_range(&h) {
                    None => {
                        e.mesh_allocation = Some(h);
                        Err(RenderError::Geometry(GeometryError::UnknownHandle))
                    },
                    Some(range) => {
                        let len: usize = range.end - range.start;
                        match data {
                            SetVerticesData::Replace(count) => {
                                if count == len {
                                    e.mesh_allocation = Some(h);
                                    Ok(core::ops::Range { start: range.start, end: range.start + count })
                                } else {
                                    let ghost hid = h@;
                                    let ghost m0 = self.meshes;
                                    self.meshes.free_mesh(h);
                                    proof {
                                        lemma_can_alloc_after_free(m0, self.meshes, hid, count as nat);
                                    }
                                    let ghost m1 = self.meshes;
                                    match self.meshes.alloc_mesh(count) {
                                        Ok(h2) => {
                                            let w = self.meshes.get_range(&h2);
                                            let w = w.unwrap();
                                            proof {
                                                if h2@ == hid {
                                                    if m0.has_exact(count as nat) || m1.has_exact(count as nat) {
                                                        assert(self.meshes.region(hid) == m1.region(hid));
                                                    }
                                                }
                                                assert(h2@ != hid);
                                                assert(!self.meshes.is_live(hid));
                                                assert(!m0.is_live(h2@)) by {
                                                    if m0.is_live(h2@) {
                                                        if h2@ != hid {
                                                            assert(m1.is_live(h2@));
                                                        }
                                                    }
                                                }
                                            }
                                            e.mesh_allocation = Some(h2);
                                            Ok(w)
                                        },
                                        Err(_) => Err(RenderError::Geometry(GeometryError::OutOfGeometrySpace)),
                                    }
                                }
                            },
                            SetVerticesData::ModifyAt(at, count) => {
                                let w = self.meshes.set_vertices(&h, count, at);
                                e.mesh_allocation = Some(h);
                                match w {
                                    Ok(w) => Ok(w),
                                    Err(_) => Err(RenderError::Geometry(GeometryError::RegionTooSmall)),
                                }
                            },
                        }
                    },
                }
            },
        };
        self.storage.renders.insert(id, e);
        proof {
            assert(self.storage.renders@ == old(self).storage.renders@.insert(id, e));
            assert(self.storage.renders@.dom() =~= old(self).storage.renders@.dom());
            let o = *old(self);
            assert(e0 == o.renders()[id]);
            assert(e.tex_ids() == e0.tex_ids());
            assert forall|rid: RenderId, t: u64| #[trigger] self.holds_tex(rid, t) implies self.tex_state().is_live(t) by {
                assert(o.holds_tex(rid, t));
            }
            assert forall|rid: RenderId, m: nat| #[trigger] self.holds_mesh(rid, m) implies self.mesh_state().is_live(m) by {
                if rid != id {
                    assert(o.holds_mesh(rid, m));
                    if e0.mesh() == Some(m) {
                        assert(o.holds_mesh(id, m));
                    }
                } else if e.mesh() == e0.mesh() {
                    assert(o.holds_mesh(id, m));
                }
            }
            assert forall|r1: RenderId, r2: RenderId, t: u64| #[trigger] self.holds_tex(r1, t) && #[trigger] self.holds_tex(r2, t)
                implies r1 == r2 by {
                assert(o.holds_tex(r1, t) && o.holds_tex(r2, t));
            }
            assert forall|r1: RenderId, r2: RenderId, m: nat| #[trigger] self.holds_mesh(r1, m) && #[trigger] self.holds_mesh(r2, m)
                implies r1 == r2 by {
                if r1 != r2 {
                    if r1 == id || r2 == id {
                        let other = if r1 == id { r2 } else { r1 };
                        assert(o.holds_mesh(other, m));
                        if e.mesh() == e0.mesh() {
                            assert(o.holds_mesh(id, m));
                        }
                    } else {
                        assert(o.holds_mesh(r1, m) && o.holds_mesh(r2, m));
                    }
                }
            }
            assert forall|rid: RenderId| #[trigger] self.has_render(rid) implies self.renders()[rid].tex_ids().no_duplicates() by {
                assert(o.has_render(rid));
            }
        }
        r
    }

    /// The `k`-th committed image of a render object (its colour images, then
    /// its depth image), to re-upload pixels into it in place.
    pub fn render_texture(&self, id: RenderId, k: usize) -> (r: Option<&R>)
        requires
            self.wf(),
        ensures
            match r {
                Some(x) => self.has_render(id) && k < self.renders()[id].tex_ids().len()
                    && self.tex_state().is_live(self.renders()[id].tex_ids()[k as int])
                    && *x == self.tex_state().images()[self.tex_state().index_of(self.renders()[id].tex_ids()[k as int])],
                None => !self.has_render(id) || k >= self.renders()[id].tex_ids().len()
                    || !self.tex_state().is_live(self.renders()[id].tex_ids()[k as int]),
            },
    {
        match self.storage.renders.get(&id) {
            Some(e) => {
                let n: usize = e.color_allocations.len();
                if k < n {
                    proof {
                        assert(e.tex_ids()[k as int] == e.color_allocations@[k as int]@);
                    }
                    self.textures.texture(&e.color_allocations[k])
                } else if k == n {
                    match &e.depth_allocation {
                        Some(h) => {
                            proof {
                                assert(e.tex_ids()[k as int] == h@);
                            }
                            self.textures.texture(h)
                        },
                        None => None,
                    }
                } else {
                    None
                }
            },
            None => None,
        }
    }

    /// The slots of the render object's geometry region.
    pub fn mesh_range(&self, id: RenderId) -> (r: Option<core::ops::Range<usize>>)
        requires
            self.wf(),
        ensures
            match r {
                Some(w) => self.has_render(id) && self.renders()[id].mesh() is Some
                    && self.mesh_state().is_live(self.renders()[id].mesh().unwrap())
                    && w.start == self.mesh_state().region(self.renders()[id].mesh().unwrap()).offset
                    && w.end == self.mesh_state().region(self.renders()[id].mesh().unwrap()).end(),
                None => !self.has_render(id) || self.renders()[id].mesh() is None,
            },
    {
        match self.storage.renders.get(&id) {
            Some(e) => match &e.mesh_allocation {
                Some(h) => {
                    proof {
                        assert(self.holds_mesh(id, h@));
                    }
                    self.meshes.get_range(h)
                },
                None => None,
            },
            None => None,
        }
    }

    /// Records that the texture binding descriptor was rebuilt.
    pub fn mark_textures_rebuilt(&mut self)
        requires
            old(self).wf(),
        ensures
            final(self).wf(),
            !final(self).tex_state().stale(),
            final(self).tex_state().handles() == old(self).tex_state().handles(),
            final(self).tex_state().images() == old(self).tex_state().images(),
            final(self).renders() == old(self).renders(),
            final(self).mesh_state() == old(self).mesh_state(),
    {
        self.textures.mark_rebuilt();
        proof {
            Self::lemma_same_holdings(*old(self), *self);
        }
    }
}

} // verus!
