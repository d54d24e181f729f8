//! The method vocabulary and the per-route mapping from methods to handlers.

use vstd::prelude::*;

verus! {

/// The request methods a route can answer.
#[derive(Clone, Copy, Debug, PartialEq, Eq, Structural)]
pub enum Method {
    Get,
    Post,
    Put,
    Patch,
    Delete,
}

/// A set of methods. `PUT` and `PATCH` always travel together, so the set has a
/// single flag for the pair.
#[derive(Clone, Copy, Debug, PartialEq, Eq, Structural)]
pub struct MethodSet {
    pub get: bool,
    pub post: bool,
    pub put_patch: bool,
    pub delete: bool,
}

impl MethodSet {
    /// Whether `method` belongs to the set.
    pub open spec fn has(self, method: Method) -> bool {
        match method {
            Method::Get => self.get,
            Method::Post => self.post,
            Method::Put => self.put_patch,
            Method::Patch => self.put_patch,
            Method::Delete => self.delete,
        }
    }

    /// The set as a mathematical set of methods.
    pub open spec fn view(self) -> Set<Method> {
        Set::new(|m: Method| self.has(m))
    }

    pub open spec fn spec_none() -> MethodSet {
        MethodSet { get: false, post: false, put_patch: false, delete: false }
    }

    pub open spec fn spec_is_empty(self) -> bool {
        !self.get && !self.post && !self.put_patch && !self.delete
    }

    pub open spec fn spec_union(self, other: MethodSet) -> MethodSet {
        MethodSet {
            get: self.get || other.get,
            post: self.post || other.post,
            put_patch: self.put_patch || other.put_patch,
            delete: self.delete || other.delete,
        }
    }

    pub open spec fn spec_intersect(self, other: MethodSet) -> MethodSet {
        MethodSet {
            get: self.get && other.get,
            post: self.post && other.post,
            put_patch: self.put_patch && other.put_patch,
            delete: self.delete && other.delete,
        }
    }

    /// The empty set.
    #[verifier::when_used_as_spec(spec_none)]
    pub fn none() -> (out: MethodSet)
        ensures
            out == MethodSet::spec_none(),
            out@ == Set::<Method>::empty(),
    {
        let out = MethodSet { get: false, post: false, put_patch: false, delete: false };
        assert(out@ =~= Set::<Method>::empty());
        out
    }

    /// Whether the set holds no method.
    #[verifier::when_used_as_spec(spec_is_empty)]
    pub fn is_empty(self) -> (out: bool)
        ensures
            out == self.spec_is_empty(),
            out == (self@ == Set::<Method>::empty()),
    {
        proof {
            if self.spec_is_empty() {
                assert(self@ =~= Set::<Method>::empty());
            } else {
                assert(self@.contains(Method::Get) || self@.contains(Method::Post)
                    || self@.contains(Method::Put) || self@.contains(Method::Delete));
            }
        }
        !self.get && !self.post && !self.put_patch && !self.delete
    }

    /// Whether `method` belongs to the set.
    pub fn contains(self, method: Method) -> (out: bool)
        ensures
            out == self.has(method),
            out == self@.contains(method),
    {
        match method {
            Method::Get => self.get,
            Method::Post => self.post,
            Method::Put => self.put_patch,
            Method::Patch => self.put_patch,
            Method::Delete => self.delete,
        }
    }

    /// The methods of either set.
    #[verifier::when_used_as_spec(spec_union)]
    pub fn union(self, other: MethodSet) -> (out: MethodSet)
        ensures
            out == self.spec_union(other),
            out@ == self@.union(other@),
    {
        let out = MethodSet {
            get: self.get || other.get,
            post: self.post || other.post,
            put_patch: self.put_patch || other.put_patch,
            delete: self.delete || other.delete,
        };
        assert(out@ =~= self@.union(other@));
        out
    }

    /// The methods of both sets.
    #[verifier::when_used_as_spec(spec_intersect)]
    pub fn intersect(self, other: MethodSet) -> (out: MethodSet)
        ensures
            out == self.spec_intersect(other),
            out@ == self@.intersect(other@),
    {
        let out = MethodSet {
            get: self.get && other.get,
            post: self.post && other.post,
            put_patch: self.put_patch && other.put_patch,
            delete: self.delete && other.delete,
        };
        assert(out@ =~= self@.intersect(other@));
        out
    }
}

/// The handlers of one route, by method. `PUT` and `PATCH` share a handler.
#[derive(Debug)]
pub struct Handlers<H> {
    pub get: Option<H>,
    pub post: Option<H>,
    pub put_patch: Option<H>,
    pub delete: Option<H>,
}

impl<H> Handlers<H> {
    /// The handler that answers `method`, if the route has one.
    pub open spec fn handler(self, method: Method) -> Option<H> {
        match method {
            Method::Get => self.get,
            Method::Post => self.post,
            Method::Put => self.put_patch,
            Method::Patch => self.put_patch,
            Method::Delete => self.delete,
        }
    }

    /// The methods that have a handler.
    pub open spec fn spec_methods(&self) -> MethodSet {
        MethodSet {
            get: self.get is Some,
            post: self.post is Some,
            put_patch: self.put_patch is Some,
            delete: self.delete is Some,
        }
    }

    /// The handlers of `self` and of `other` together; where both answer a
    /// method, the handler of `self` stays.
    pub open spec fn spec_union(self, other: Handlers<H>) -> Handlers<H> {
        Handlers {
            get: if self.get is Some { self.get } else { other.get },
            post: if self.post is Some { self.post } else { other.post },
            put_patch: if self.put_patch is Some { self.put_patch } else { other.put_patch },
            delete: if self.delete is Some { self.delete } else { other.delete },
        }
    }

    /// The methods that have a handler.
    #[verifier::when_used_as_spec(spec_methods)]
    pub fn methods(&self) -> (out: MethodSet)
        ensures
            out == self.spec_methods(),
            forall|m: Method| out.has(m) == (#[trigger] self.handler(m) is Some),
    {
        MethodSet {
            get: self.get.is_some(),
            post: self.post.is_some(),
            put_patch: self.put_patch.is_some(),
            delete: self.delete.is_some(),
        }
    }

    /// The handler that answers `method`, if the route has one.
    pub fn get_handler(&self, method: Method) -> (out: Option<&H>)
        ensures
            match out {
                Some(h) => self.handler(method) == Some(*h),
                None => self.handler(method) is None,
            },
    {
        match method {
            Method::Get => self.get.as_ref(),
            Method::Post => self.post.as_ref(),
            Method::Put => self.put_patch.as_ref(),
            Method::Patch => self.put_patch.as_ref(),
            Method::Delete => self.delete.as_ref(),
        }
    }

    /// Puts the handlers of two routes together. Where both answer a method,
    /// the handler of `self` stays and that of `other` is dropped: a merge
    /// looks for such methods first and joins routes only where there are
    /// none, so this is not for use outside the crate.
    #[verifier::when_used_as_spec(spec_union)]
    pub(crate) fn union(self, other: Handlers<H>) -> (out: Handlers<H>)
        ensures
            out == self.spec_union(other),
            out.spec_methods() == self.spec_methods().spec_union(other.spec_methods()),
            forall|m: Method| #[trigger]
                out.handler(m) == if self.handler(m) is Some {
                    self.handler(m)
                } else {
                    other.handler(m)
                },
    {
        Handlers {
            get: pick(self.get, other.get),
            post: pick(self.post, other.post),
            put_patch: pick(self.put_patch, other.put_patch),
            delete: pick(self.delete, other.delete),
        }
    }
}

/// The first of two optional values that is present.
fn pick<H>(first: Option<H>, second: Option<H>) -> (out: Option<H>)
    ensures
        out == if first is Some { first } else { second },
{
    match first {
        Some(h) => Some(h),
        None => second,
    }
}

/// Whether `b` is a clone of `a`: both absent, or both present and one the
/// clone of the other.
pub open spec fn cloned_option<H: Clone>(a: Option<H>, b: Option<H>) -> bool {
    match (a, b) {
        (Some(x), Some(y)) => cloned(x, y),
        (None, None) => true,
        _ => false,
    }
}

/// Whether `b` holds, method by method, clones of the handlers of `a`.
pub open spec fn cloned_handlers<H: Clone>(a: Handlers<H>, b: Handlers<H>) -> bool {
    &&& cloned_option(a.get, b.get)
    &&& cloned_option(a.post, b.post)
    &&& cloned_option(a.put_patch, b.put_patch)
    &&& cloned_option(a.delete, b.delete)
}

/// A clone of an optional handler.
fn clone_option<H: Clone>(handler: &Option<H>) -> (out: Option<H>)
    ensures
        cloned_option(*handler, out),
{
    match handler {
        Some(h) => Some(h.clone()),
        None => None,
    }
}

impl<H: Clone> Clone for Handlers<H> {
    /// Clones each handler.
    fn clone(&self) -> (out: Self)
        ensures
            cloned_handlers(*self, out),
    {
        Handlers {
            get: clone_option(&self.get),
            post: clone_option(&self.post),
            put_patch: clone_option(&self.put_patch),
            delete: clone_option(&self.delete),
        }
    }
}

} // verus!
