//! What can go wrong while a routing table is put together.

use vstd::prelude::*;
use crate::method::MethodSet;

verus! {

/// The nine things a resource can have attached.
#[derive(Clone, Copy, Debug, PartialEq, Eq, Structural)]
pub enum Action {
    Index,
    Create,
    New,
    Show,
    Edit,
    Update,
    Destroy,
    Nest,
    NestCollection,
}

/// The ways in which building a table fails. All of them are mistakes in the
/// configuration, found before any request is served.
#[derive(Debug, PartialEq, Eq)]
pub enum ResourceError {
    /// The name is empty or holds a character that cannot stand in a path
    /// segment. A prefix to mount at that is no path template is refused
    /// with this error too.
    InvalidResourceName,
    /// The action already has a handler or a nested table.
    DuplicateActionSlot(Action),
    /// The path is already routed for these methods. Where a router is built
    /// and it is the router's matcher that refuses the path, no method is
    /// named.
    RouteCollision { path: String, methods: MethodSet },
}

impl ResourceError {
    /// Whether this is the collision on `path` for exactly `methods`.
    pub open spec fn is_collision(self, path: Seq<char>, methods: MethodSet) -> bool {
        self matches ResourceError::RouteCollision { path: p, methods: m } && p@ == path && m
            == methods
    }
}

} // verus!
