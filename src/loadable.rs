//! Load-once cache of a resource: the first `load` decodes it, later ones
//! share what was decoded.
use std::rc::Rc;
use vstd::prelude::*;

verus! {

#[verifier::external_type_specification]
#[verifier::external_body]
pub struct ExIoError(std::io::Error);

/// A resource that can be decoded from a file path.
pub trait Loadable<T> {
    fn load(path: &str) -> Result<T, std::io::Error>;
}

/// Relies on `Rc::clone`: the new pointer shares the value of the old one.
#[verifier::external_body]
fn share<T>(r: &Rc<T>) -> (s: Rc<T>)
    ensures
        s == *r,
{
    Rc::clone(r)
}

pub struct ResourceBox<T: Loadable<T>> {
    resource: Option<Rc<T>>,
    path: String,
}

impl<T: Loadable<T>> ResourceBox<T> {
    /// The path the resource is loaded from.
    pub closed spec fn path(self) -> Seq<char> {
        self.path@
    }

    /// The decoded resource, once loaded.
    pub closed spec fn cached(self) -> Option<Rc<T>> {
        self.resource
    }

    /// A box for the resource at `path`; nothing is loaded yet.
    pub fn new(path: &str) -> (r: ResourceBox<T>)
        ensures
            r.path() == path@,
            r.cached() is None,
    {
        ResourceBox { resource: None, path: path.to_owned() }
    }

    /// The decoded resource: decoded from the path on the first call, shared
    /// from the cache afterwards. A failed decode caches nothing.
    pub fn load(&mut self) -> (r: Result<Rc<T>, std::io::Error>)
        ensures
            final(self).path() == old(self).path(),
            old(self).cached() is Some ==> r == Ok::<Rc<T>, std::io::Error>(old(self).cached().unwrap())
                && final(self).cached() == old(self).cached(),
            old(self).cached() is None ==> match r {
                Ok(v) => final(self).cached() == Some(v),
                Err(_) => final(self).cached() is None,
            },
    {
        match &self.resource {
            Some(r) => {
                return Ok(share(r));
            },
            None => {},
        }
        match T::load(self.path.as_str()) {
            Ok(v) => {
                let rc: Rc<T> = Rc::new(v);
                let out: Rc<T> = share(&rc);
                self.resource = Some(rc);
                Ok(out)
            },
            Err(e) => Err(e),
        }
    }

    /// Drops the cached resource; the next `load` decodes it again.
    pub fn unload(&mut self)
        ensures
            final(self).path() == old(self).path(),
            final(self).cached() is None,
    {
        self.resource = None;
    }

    pub fn is_loaded(&self) -> (r: bool)
        ensures
            r == self.cached() is Some,
    {
        self.resource.is_some()
    }
}

} // verus!
