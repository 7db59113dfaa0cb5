//! The resource catalog: files found under the resource root, keyed by their
//! path relative to it and classified by extension (`.obj` models, `.png`
//! textures), each behind a load-once cache.
use std::rc::Rc;
use vstd::prelude::*;
use vstd::string::StringSliceAdditionalSpecFns;
use crate::entity_renderer::{EntityModel, EntityTexture};
use crate::loadable::{Loadable, ResourceBox};

verus! {

#[derive(Clone, Copy, Debug, PartialEq, Eq)]
pub enum ResourceKind {
    Model,
    Texture,
}

/// `.obj`
pub open spec fn obj_ext() -> Seq<u8> {
    seq![46u8, 111u8, 98u8, 106u8]
}

/// `.png`
pub open spec fn png_ext() -> Seq<u8> {
    seq![46u8, 112u8, 110u8, 103u8]
}

/// The file name in `path` has extension `ext` (given with its dot) after a
/// non-empty stem.
pub open spec fn has_ext(path: Seq<u8>, ext: Seq<u8>) -> bool {
    &&& path.len() > ext.len()
    &&& path.subrange(path.len() - ext.len(), path.len() as int) == ext
    &&& path[path.len() - ext.len() - 1] != 47u8
}

pub open spec fn kind_of(path: Seq<u8>) -> Option<ResourceKind> {
    if has_ext(path, obj_ext()) {
        Some(ResourceKind::Model)
    } else if has_ext(path, png_ext()) {
        Some(ResourceKind::Texture)
    } else {
        None
    }
}

fn ends_with(path: &[u8], ext: [u8; 4]) -> (r: bool)
    ensures
        r == has_ext(path@, ext@),
{
    let n: usize = path.len();
    if n <= 4 {
        return false;
    }
    let mut i: usize = 0;
    while i < 4
        invariant
            n == path@.len(),
            n > 4,
            0 <= i <= 4,
            forall|j: int| 0 <= j < i ==> path@[n - 4 + j] == ext@[j],
        decreases 4 - i,
    {
        if path[n - 4 + i] != ext[i] {
            proof {
                assert(path@.subrange(n - 4, n as int)[i as int] != ext@[i as int]);
            }
            return false;
        }
        i = i + 1;
    }
    proof {
        assert(path@.subrange(n - 4, n as int) =~= ext@);
    }
    path[n - 5] != 47u8
}

/// The kind of resource a file is, by its extension.
pub fn classify(path: &str) -> (r: Option<ResourceKind>)
    ensures
        r == kind_of(path.spec_bytes()),
{
    let b: &[u8] = path.as_bytes();
    let obj: [u8; 4] = [46u8, 111u8, 98u8, 106u8];
    let png: [u8; 4] = [46u8, 112u8, 110u8, 103u8];
    proof {
        assert(obj@ =~= obj_ext());
        assert(png@ =~= png_ext());
    }
    if ends_with(b, obj) {
        Some(ResourceKind::Model)
    } else if ends_with(b, png) {
        Some(ResourceKind::Texture)
    } else {
        None
    }
}

/// The path of `path` relative to `root`, as text, when there is one.
pub uninterp spec fn relative_path_of(path: Seq<char>, root: Seq<char>) -> Option<Seq<char>>;

/// Relies on `pathdiff::diff_paths`: the relative path from `root` to
/// `path`, taken as text when it is valid Unicode.
#[verifier::external_body]
fn relative_path(path: &str, root: &str) -> (r: Option<String>)
    ensures
        match r {
            Some(s) => relative_path_of(path@, root@) == Some(s@),
            None => relative_path_of(path@, root@) is None,
        },
{
    match pathdiff::diff_paths(path, root) {
        Some(p) => p.to_str().map(String::from),
        None => None,
    }
}

#[derive(Debug)]
pub enum ResourceError {
    /// No resource is registered under the path.
    NotFound,
    /// Reading or decoding the file failed.
    Io(std::io::Error),
}

pub open spec fn key_views<B>(entries: Seq<(String, B)>) -> Seq<Seq<char>> {
    entries.map_values(|e: (String, B)| e.0@)
}

/// The position of `key` in `keys`.
pub open spec fn key_position(keys: Seq<Seq<char>>, key: Seq<char>) -> int {
    choose|i: int| 0 <= i < keys.len() && keys[i] == key
}

proof fn lemma_key_position(keys: Seq<Seq<char>>, i: int)
    requires
        keys.no_duplicates(),
        0 <= i < keys.len(),
    ensures
        key_position(keys, keys[i]) == i,
{
    assert(keys.contains(keys[i]));
}

/// Every path of `paths` is one of `keys`.
pub open spec fn all_known(keys: Seq<Seq<char>>, paths: Seq<String>) -> bool {
    forall|i: int| 0 <= i < paths.len() ==> keys.contains(#[trigger] paths[i]@)
}

/// Position of `key` among `entries`, if there.
fn find_key<B>(entries: &Vec<(String, B)>, key: &String) -> (r: Option<usize>)
    ensures
        match r {
            Some(i) => i < entries@.len() && entries@[i as int].0@ == key@ && key_views(entries@).contains(key@),
            None => !key_views(entries@).contains(key@),
        },
{
    let mut i: usize = 0;
    while i < entries.len()
        invariant
            0 <= i <= entries@.len(),
            forall|j: int| 0 <= j < i ==> key_views(entries@)[j] != key@,
        decreases entries@.len() - i,
    {
        if entries[i].0 == *key {
            assert(key_views(entries@)[i as int] == key@);
            return Some(i);
        }
        i = i + 1;
    }
    None
}

/// Models of type `M` and textures of type `X`, each registered once under
/// its path relative to the resource root.
pub struct ResourceManager<M: Loadable<M>, X: Loadable<X>> {
    models: Vec<(String, ResourceBox<M>)>,
    textures: Vec<(String, ResourceBox<X>)>,
}

impl<M: Loadable<M>, X: Loadable<X>> ResourceManager<M, X> {
    pub closed spec fn model_keys(self) -> Seq<Seq<char>> {
        key_views(self.models@)
    }

    pub closed spec fn texture_keys(self) -> Seq<Seq<char>> {
        key_views(self.textures@)
    }

    /// The path a registered model is loaded from.
    pub closed spec fn model_source(self, key: Seq<char>) -> Seq<char> {
        self.models@[key_position(key_views(self.models@), key)].1.path()
    }

    pub closed spec fn texture_source(self, key: Seq<char>) -> Seq<char> {
        self.textures@[key_position(key_views(self.textures@), key)].1.path()
    }

    /// The cached model registered under `key`, once loaded.
    pub closed spec fn model_cache(self, key: Seq<char>) -> Option<Rc<M>> {
        self.models@[key_position(key_views(self.models@), key)].1.cached()
    }

    pub closed spec fn texture_cache(self, key: Seq<char>) -> Option<Rc<X>> {
        self.textures@[key_position(key_views(self.textures@), key)].1.cached()
    }

    pub closed spec fn wf(self) -> bool {
        &&& key_views(self.models@).no_duplicates()
        &&& key_views(self.textures@).no_duplicates()
    }

    pub fn new() -> (r: ResourceManager<M, X>)
        ensures
            r.wf(),
            r.model_keys() == Seq::<Seq<char>>::empty(),
            r.texture_keys() == Seq::<Seq<char>>::empty(),
    {
        ResourceManager { models: Vec::new(), textures: Vec::new() }
    }

    /// Every named resource that the texture and model specs of a render
    /// object ask for is registered.
    pub open spec fn knows_paths(self, texture: Option<EntityTexture>, model: Option<EntityModel>) -> bool {
        &&& match texture {
            Some(EntityTexture::Resource(paths)) => all_known(self.texture_keys(), paths@),
            _ => true,
        }
        &&& match model {
            Some(EntityModel::Resource(path)) => self.model_keys().contains(path@),
            _ => true,
        }
    }

    /// Looks up every named resource of a render object's specs before any
    /// of them is loaded or allocated: `NotFound` when one is not registered.
    pub fn resolve_render(&self, texture: &Option<EntityTexture>, model: &Option<EntityModel>) -> (r: Result<
        (),
        ResourceError,
    >)
        ensures
            r is Ok <==> self.knows_paths(*texture, *model),
            r is Err ==> (r matches Err(ResourceError::NotFound)),
    {
        match texture {
            Some(EntityTexture::Resource(paths)) => {
                let mut i: usize = 0;
                while i < paths.len()
                    invariant
                        *texture == Some(EntityTexture::Resource(*paths)),
                        0 <= i <= paths@.len(),
                        forall|j: int| 0 <= j < i ==> self.texture_keys().contains(#[trigger] paths@[j]@),
                    decreases paths@.len() - i,
                {
                    if find_key(&self.textures, &paths[i]).is_none() {
                        assert(!self.texture_keys().contains(paths@[i as int]@));
                        assert(!all_known(self.texture_keys(), paths@));
                        return Err(ResourceError::NotFound);
                    }
                    i = i + 1;
                }
            },
            _ => {},
        }
        match model {
            Some(EntityModel::Resource(path)) => {
                match find_key(&self.models, path) {
                    Some(k) => {
                        proof {
                            assert(key_views(self.models@)[k as int] == path@);
                        }
                    },
                    None => {
                        return Err(ResourceError::NotFound);
                    },
                }
            },
            _ => {},
        }
        Ok(())
    }

    /// The model registered under `key`, decoded on first use and shared
    /// afterwards.
    pub fn load_model(&mut self, key: &str) -> (r: Result<Rc<M>, ResourceError>)
        requires
            old(self).wf(),
        ensures
            final(self).wf(),
            final(self).model_keys() == old(self).model_keys(),
            final(self).texture_keys() == old(self).texture_keys(),
            r matches Err(ResourceError::NotFound) <==> !old(self).model_keys().contains(key@),
            old(self).model_keys().contains(key@) ==> {
                &&& final(self).model_source(key@) == old(self).model_source(key@)
                &&& old(self).model_cache(key@) is Some ==> (r matches Ok(v) && v == old(self).model_cache(key@).unwrap())
                &&& r matches Ok(v) ==> final(self).model_cache(key@) == Some(v)
            },
    {
        let k: String = key.to_owned();
        match find_key(&self.models, &k) {
            Some(i) => {
                let ghost before = self.models@;
                proof {
                    lemma_key_position(key_views(before), i as int);
                    assert(key_views(before)[i as int] == key@);
                }
                let r = self.models[i].1.load();
                proof {
                    assert(key_views(self.models@) =~= key_views(before));
                }
                match r {
                    Ok(v) => Ok(v),
                    Err(e) => Err(ResourceError::Io(e)),
                }
            },
            None => Err(ResourceError::NotFound),
        }
    }

    /// The texture registered under `key`, decoded on first use and shared
    /// afterwards.
    pub fn load_texture(&mut self, key: &str) -> (r: Result<Rc<X>, ResourceError>)
        requires
            old(self).wf(),
        ensures
            final(self).wf(),
            final(self).model_keys() == old(self).model_keys(),
            final(self).texture_keys() == old(self).texture_keys(),
            r matches Err(ResourceError::NotFound) <==> !old(self).texture_keys().contains(key@),
            old(self).texture_keys().contains(key@) ==> {
                &&& final(self).texture_source(key@) == old(self).texture_source(key@)
                &&& old(self).texture_cache(key@) is Some ==> (r matches Ok(v) && v == old(self).texture_cache(key@).unwrap())
                &&& r matches Ok(v) ==> final(self).texture_cache(key@) == Some(v)
            },
    {
        let k: String = key.to_owned();
        match find_key(&self.textures, &k) {
            Some(i) => {
                let ghost before = self.textures@;
                proof {
                    lemma_key_position(key_views(before), i as int);
                    assert(key_views(before)[i as int] == key@);
                }
                let r = self.textures[i].1.load();
                proof {
                    assert(key_views(self.textures@) =~= key_views(before));
                }
                match r {
                    Ok(v) => Ok(v),
                    Err(e) => Err(ResourceError::Io(e)),
                }
            },
            None => Err(ResourceError::NotFound),
        }
    }

    /// Registers the file at `path`, found under `root`, by its extension
    /// and under its path relative to `root`; nothing is loaded yet. A file
    /// of another kind, or without a relative path, is skipped.
    pub fn register(&mut self, root: &str, path: &str) -> (r: Option<ResourceKind>)
        requires
            old(self).wf(),
        ensures
            final(self).wf(),
            r == (if relative_path_of(path@, root@) is Some { kind_of(path.spec_bytes()) } else { None }),
            r is None ==> final(self).model_keys() == old(self).model_keys()
                && final(self).texture_keys() == old(self).texture_keys(),
            r == Some(ResourceKind::Model) ==> {
                let key = relative_path_of(path@, root@).unwrap();
                &&& final(self).model_keys().to_set() == old(self).model_keys().to_set().insert(key)
                &&& final(self).model_source(key) == path@
                &&& final(self).model_cache(key) is None
                &&& final(self).texture_keys() == old(self).texture_keys()
            },
            r == Some(ResourceKind::Texture) ==> {
                let key = relative_path_of(path@, root@).unwrap();
                &&& final(self).texture_keys().to_set() == old(self).texture_keys().to_set().insert(key)
                &&& final(self).texture_source(key) == path@
                &&& final(self).texture_cache(key) is None
                &&& final(self).model_keys() == old(self).model_keys()
            },
    {
        let kind: Option<ResourceKind> = classify(path);
        if kind.is_none() {
            return None;
        }
        let rel: String = match relative_path(path, root) {
            Some(s) => s,
            None => { return None; },
        };
        match kind {
            Some(ResourceKind::Model) => {
                let ghost before = self.models@;
                match find_key(&self.models, &rel) {
                    Some(i) => {
                        self.models.set(i, (rel, ResourceBox::new(path)));
                        proof {
                            assert(key_views(self.models@) =~= key_views(before));
                            assert(key_views(before)[i as int] == rel@);
                            assert(key_views(before).to_set().insert(rel@) =~= key_views(before).to_set());
                            lemma_key_position(key_views(self.models@), i as int);
                        }
                    },
                    None => {
                        let ghost k = rel@;
                        self.models.push((rel, ResourceBox::new(path)));
                        proof {
                            assert(key_views(self.models@) =~= key_views(before).push(k));
                            crate::world::lemma_push_to_set(key_views(before), k);
                            lemma_push_keeps_unique(key_views(before), k);
                            assert(key_views(self.models@)[before.len() as int] == k);
                            lemma_key_position(key_views(self.models@), before.len() as int);
                        }
                    },
                }
                Some(ResourceKind::Model)
            },
            _ => {
                let ghost before = self.textures@;
                match find_key(&self.textures, &rel) {
                    Some(i) => {
                        self.textures.set(i, (rel, ResourceBox::new(path)));
                        proof {
                            assert(key_views(self.textures@) =~= key_views(before));
                            assert(key_views(before)[i as int] == rel@);
                            assert(key_views(before).to_set().insert(rel@) =~= key_views(before).to_set());
                            lemma_key_position(key_views(self.textures@), i as int);
                        }
                    },
                    None => {
                        let ghost k = rel@;
                        self.textures.push((rel, ResourceBox::new(path)));
                        proof {
                            assert(key_views(self.textures@) =~= key_views(before).push(k));
                            crate::world::lemma_push_to_set(key_views(before), k);
                            lemma_push_keeps_unique(key_views(before), k);
                            assert(key_views(self.textures@)[before.len() as int] == k);
                            lemma_key_position(key_views(self.textures@), before.len() as int);
                        }
                    },
                }
                Some(ResourceKind::Texture)
            },
        }
    }
}

proof fn lemma_push_keeps_unique<A>(s: Seq<A>, x: A)
    requires
        s.no_duplicates(),
        !s.contains(x),
    ensures
        s.push(x).no_duplicates(),
{
    let t = s.push(x);
    assert forall|a: int, b: int| 0 <= a < t.len() && 0 <= b < t.len() && a != b implies t[a] != t[b] by {
        if a < s.len() && b < s.len() {
            assert(t[a] == s[a] && t[b] == s[b]);
        } else if a < s.len() {
            assert(s.contains(t[a]));
        } else {
            assert(s.contains(t[b]));
        }
    }
}

} // verus!
