//! Installing a table in an axum router.
//!
//! The handlers of such a table are axum method routers. Each route of the
//! table is registered under its full path; a route that sits in a mount is
//! nested under the prefixes of its mounts, so that its handlers see the path
//! without them. Routes that come to the same full path share it, as long as
//! no method is asked for twice.
//!
//! axum panics when it is handed a path that its matcher refuses. The matcher
//! is the matchit crate, so every path is first offered to a matcher of our
//! own that holds the same paths, and axum is called only with what that one
//! took.
//!
//! The types, names and wrappers at the start of this file are not proved:
//! they state what the code of axum 0.5 and matchit 0.5 does.

use vstd::prelude::*;
use crate::error::ResourceError;
use crate::laws::lemma_compile_covers;
use crate::lemmas::{lemma_claimed_has, lemma_compiled_parts, lemma_some_method, part, part_start};
use crate::merge::is_route_at;
use crate::method::{Handlers, Method, MethodSet};
use crate::path::{is_template, lemma_template_concat, lemma_template_shape, valid_name};
use crate::resource::{compiled, Resource, ResourceView};
use crate::table::{
    claimed, claimed_in, clash, clash_free, flat, flat_entry, keys_match, reversed, routes_match,
    EntryView, FlatRoute, Key, MountedRoute, Table,
};

verus! {

/// `axum::Router`, opaque.
#[verifier::external_type_specification]
#[verifier::external_body]
#[verifier::reject_recursive_types(B)]
pub struct ExRouter<B>(axum::Router<B>);

/// `axum::routing::MethodRouter`, opaque.
#[verifier::external_type_specification]
#[verifier::external_body]
#[verifier::reject_recursive_types(B)]
#[verifier::reject_recursive_types(E)]
pub struct ExMethodRouter<B, E>(axum::routing::MethodRouter<B, E>);

/// `axum::body::Body`, opaque.
#[verifier::external_type_specification]
#[verifier::external_body]
pub struct ExBody(axum::body::Body);

/// `matchit::Router`, opaque.
#[verifier::external_type_specification]
#[verifier::external_body]
#[verifier::reject_recursive_types(T)]
pub struct ExMatcher<T>(matchit::Router<T>);

/// The handlers of a table that can be installed: axum method routers over
/// the default request body.
pub type Endpoint = axum::routing::MethodRouter<axum::body::Body, core::convert::Infallible>;

/// The axum router that a table is installed in.
pub type HostRouter = axum::Router<axum::body::Body>;

/// The matcher that mirrors a router.
type Matcher = matchit::Router<()>;

/// A service of a router: the method router that was attached, and how many
/// characters of the path template are the prefixes that are stripped from a
/// request before the service sees it.
pub type Service = (Endpoint, nat);

/// The paths that were registered in an axum router, in the order of their
/// registration.
pub uninterp spec fn router_paths(router: HostRouter) -> Seq<Seq<char>>;

/// For each path that was registered in an axum router with a plain method
/// router, and for each of the five methods that the method router has a
/// service for: that service, and how much of the path is stripped from a
/// request before the service sees it.
pub uninterp spec fn router_services(router: HostRouter) -> Map<Seq<char>, Map<Method, Service>>;

/// Whether an axum router was given a fallback of its own.
pub uninterp spec fn router_has_fallback(router: HostRouter) -> bool;

/// The paths that a matcher took, in the order in which it took them.
pub uninterp spec fn matcher_paths(matcher: Matcher) -> Seq<Seq<char>>;

/// Whether a matcher that took exactly `paths`, in this order, takes `path`
/// next: what `matchit::Router::insert` answers.
pub uninterp spec fn insert_accepts(paths: Seq<Seq<char>>, path: Seq<char>) -> bool;

/// The service that a method router has for each of the five methods this
/// crate knows, where it has one.
pub uninterp spec fn route_services(route: Endpoint) -> Map<Method, Endpoint>;

/// Whether a method router is plain: it has no service for a method other
/// than the five, and no fallback of its own.
pub uninterp spec fn route_is_plain(route: Endpoint) -> bool;

/// The services of a method router without services.
pub open spec fn no_services() -> Map<Method, Endpoint> {
    Map::empty()
}

/// The services of a router without routes.
pub open spec fn no_routes() -> Map<Seq<char>, Map<Method, Service>> {
    Map::empty()
}

/// The services of a method router as a router holds them when `stripped`
/// characters of the path are stripped.
pub open spec fn stripping(services: Map<Method, Endpoint>, stripped: nat) -> Map<Method, Service> {
    Map::new(|m: Method| services.dom().contains(m), |m: Method| (services[m], stripped))
}

/// The services of a route after it was nested under a prefix of `more`
/// characters: that much more is stripped.
pub open spec fn stripping_more(services: Map<Method, Service>, more: nat) -> Map<Method, Service> {
    Map::new(
        |m: Method| services.dom().contains(m),
        |m: Method| (services[m].0, services[m].1 + more),
    )
}

/// The services that a router holds for a path; none where the path is not
/// registered.
pub open spec fn services_at(all: Map<Seq<char>, Map<Method, Service>>, path: Seq<char>) -> Map<
    Method,
    Service,
> {
    if all.dom().contains(path) {
        all[path]
    } else {
        Map::empty()
    }
}

/// The services of a router after `added` joined those of `path`.
pub open spec fn with_services(
    all: Map<Seq<char>, Map<Method, Service>>,
    path: Seq<char>,
    added: Map<Method, Service>,
) -> Map<Seq<char>, Map<Method, Service>> {
    all.insert(path, services_at(all, path).union_prefer_right(added))
}

/// The paths of a router after `path` was registered: as they were where the
/// path was there, else with the path at the end.
pub open spec fn with_path(paths: Seq<Seq<char>>, path: Seq<char>) -> Seq<Seq<char>> {
    if paths.contains(path) {
        paths
    } else {
        paths.push(path)
    }
}

/// Whether a router that holds `paths` and `all` can take a method router
/// with the services `added` under `path`: a path that is registered must be
/// registered with a plain method router that has none of the methods of
/// `added`; a path that is not must be one that the matcher takes.
pub open spec fn can_take(
    paths: Seq<Seq<char>>,
    all: Map<Seq<char>, Map<Method, Service>>,
    path: Seq<char>,
    added: Set<Method>,
) -> bool {
    if paths.contains(path) {
        all.dom().contains(path) && all[path].dom().disjoint(added)
    } else {
        insert_accepts(paths, path)
    }
}

/// `axum::Router::new`: a router without routes and with the default
/// fallback.
#[verifier::external_body]
fn router_new() -> (out: HostRouter)
    ensures
        router_paths(out) == Seq::<Seq<char>>::empty(),
        router_services(out) == no_routes(),
        !router_has_fallback(out),
{
    axum::Router::new()
}

/// `axum::Router::route` with a plain method router. It panics on a path
/// that is empty or does not begin with `/`. A path that is not registered
/// goes to the matcher, and axum panics when the matcher refuses it;
/// otherwise the path is registered after those that were there, with the
/// method router as it is. On a path that is registered with a method router
/// the two method routers are merged, and axum panics when both have a
/// service for one method or a fallback of their own; otherwise the services
/// of both stand under the path. The fallback of the router is not touched.
/// (axum numbers its routes and panics once 2^32 of them were made in one
/// process; no contract of this file can rule that out.)
#[verifier::external_body]
fn router_route(router: HostRouter, path: &str, route: Endpoint) -> (out: HostRouter)
    requires
        path@.len() > 0,
        path@[0] == '/',
        route_is_plain(route),
        can_take(router_paths(router), router_services(router), path@, route_services(route).dom()),
    ensures
        router_paths(out) == with_path(router_paths(router), path@),
        router_services(out) == with_services(
            router_services(router),
            path@,
            stripping(route_services(route), 0),
        ),
        router_has_fallback(out) == router_has_fallback(router),
{
    router.route(path, route)
}

/// `axum::Router::nest` with a router that holds one route, registered with
/// a plain method router. It panics on a prefix with a `*` and on a nested
/// router with a fallback of its own. It then puts the method router of the
/// nested route behind a layer that strips the prefix from the request,
/// which leaves each service behind its method, and registers it under the
/// prefix followed by the route's path, as `route` does and with the same
/// panics. The prefix and the path are joined as they are when the prefix
/// does not end with `/` and neither is `/` alone.
#[verifier::external_body]
fn router_nest(router: HostRouter, prefix: &str, nested: HostRouter) -> (out: HostRouter)
    requires
        prefix@.len() > 0,
        prefix@[0] == '/',
        prefix@.last() != '/',
        !prefix@.contains('*'),
        router_paths(nested).len() == 1,
        router_paths(nested)[0] != seq!['/'],
        router_services(nested).dom().contains(router_paths(nested)[0]),
        !router_has_fallback(nested),
        can_take(
            router_paths(router),
            router_services(router),
            prefix@ + router_paths(nested)[0],
            router_services(nested)[router_paths(nested)[0]].dom(),
        ),
    ensures
        router_paths(out) == with_path(router_paths(router), prefix@ + router_paths(nested)[0]),
        router_services(out) == with_services(
            router_services(router),
            prefix@ + router_paths(nested)[0],
            stripping_more(router_services(nested)[router_paths(nested)[0]], prefix@.len()),
        ),
        router_has_fallback(out) == router_has_fallback(router),
{
    router.nest(prefix, nested)
}

/// `matchit::Router::new`: a matcher that took nothing yet.
#[verifier::external_body]
fn matcher_new() -> (out: Matcher)
    ensures
        matcher_paths(out) == Seq::<Seq<char>>::empty(),
{
    matchit::Router::new()
}

/// `matchit::Router::insert`, for a path template. It answers whether the
/// matcher takes the path; when it does, the matcher holds the path after
/// those it held. Of a matcher that refused nothing more is said.
#[verifier::external_body]
fn matcher_insert(matcher: &mut Matcher, path: &str) -> (ok: bool)
    requires
        is_template(path@),
    ensures
        ok == insert_accepts(matcher_paths(*old(matcher)), path@),
        ok ==> matcher_paths(*final(matcher)) == matcher_paths(*old(matcher)).push(path@),
{
    matcher.insert(path, ()).is_ok()
}

/// `axum::routing::MethodRouter::new`: a plain method router without
/// services.
#[verifier::external_body]
fn method_router_new() -> (out: Endpoint)
    ensures
        route_services(out) == no_services(),
        route_is_plain(out),
{
    axum::routing::MethodRouter::new()
}

/// `axum::routing::MethodRouter::on_service` with the filter of one method.
/// It panics when the method router has a service for that method already;
/// otherwise it puts the service behind that method and touches nothing
/// else.
#[verifier::external_body]
fn method_router_on(route: Endpoint, method: Method, service: Endpoint) -> (out: Endpoint)
    requires
        !route_services(route).dom().contains(method),
    ensures
        route_services(out) == route_services(route).insert(method, service),
        route_is_plain(out) == route_is_plain(route),
{
    let filter = match method {
        Method::Get => axum::routing::MethodFilter::GET,
        Method::Post => axum::routing::MethodFilter::POST,
        Method::Put => axum::routing::MethodFilter::PUT,
        Method::Patch => axum::routing::MethodFilter::PATCH,
        Method::Delete => axum::routing::MethodFilter::DELETE,
    };
    route.on_service(filter, service)
}

/// `Clone::clone` of a method router: the result is a clone of it.
#[verifier::external_body]
fn method_router_clone(route: &Endpoint) -> (out: Endpoint)
    ensures
        cloned(*route, out),
{
    route.clone()
}


/// The full paths of the routes, in order.
pub open spec fn full_paths<H>(routes: Seq<FlatRoute<H>>) -> Seq<Seq<char>> {
    Seq::new(routes.len(), |i: int| routes[i].path)
}

/// The full paths of the routes in the order in which they come first, each
/// once: what a router holds after the routes were registered.
pub open spec fn registered<H>(routes: Seq<FlatRoute<H>>) -> Seq<Seq<char>>
    decreases routes.len(),
{
    if routes.len() == 0 {
        Seq::empty()
    } else {
        with_path(registered(routes.drop_last()), routes.last().path)
    }
}

/// The methods of the route at `j` that a route before it has for the same
/// full path.
pub open spec fn taken<H>(routes: Seq<FlatRoute<H>>, j: int) -> MethodSet {
    routes[j].handlers.spec_methods().spec_intersect(claimed(routes.take(j), routes[j].path))
}

/// What is to be done with a route.
#[derive(Clone, Copy, Debug, PartialEq, Eq, Structural)]
pub enum Step {
    /// Stop: these methods of the route are routed for its path already.
    Clash(MethodSet),
    /// Stop: the matcher refuses the path.
    Refused,
    /// The path is registered: the route joins what is there.
    Join,
    /// The path is new: the route is registered under it.
    Register,
}

/// What is to be done with a route, given its methods, the methods that are
/// routed for its full path already, whether that path is registered, whether
/// the route is mounted, and what the matcher answers: `alone` for the
/// route's own path as a first path, asked for a mounted route, and `accepted`
/// for the full path after those that are registered, asked for a path that
/// is not registered.
pub open spec fn spec_decide(
    methods: MethodSet,
    claimed: MethodSet,
    registered: bool,
    mounted: bool,
    alone: bool,
    accepted: bool,
) -> Step {
    if !methods.spec_intersect(claimed).spec_is_empty() {
        Step::Clash(methods.spec_intersect(claimed))
    } else if mounted && !alone {
        Step::Refused
    } else if registered {
        Step::Join
    } else if accepted {
        Step::Register
    } else {
        Step::Refused
    }
}

/// Decides what is to be done with a route. A method that is routed already
/// stops the route, whatever the matcher says; then a refusal of the matcher
/// does; a route that passes joins its path where the path is registered and
/// is registered where it is not.
#[verifier::when_used_as_spec(spec_decide)]
pub fn decide(
    methods: MethodSet,
    claimed: MethodSet,
    registered: bool,
    mounted: bool,
    alone: bool,
    accepted: bool,
) -> (out: Step)
    ensures
        out == spec_decide(methods, claimed, registered, mounted, alone, accepted),
{
    let both = methods.intersect(claimed);
    if !both.is_empty() {
        Step::Clash(both)
    } else if mounted && !alone {
        Step::Refused
    } else if registered {
        Step::Join
    } else if accepted {
        Step::Register
    } else {
        Step::Refused
    }
}

/// What is to be done with the route at `j` once the routes before it are
/// registered.
pub open spec fn step_at<H>(routes: Seq<FlatRoute<H>>, j: int) -> Step {
    spec_decide(
        routes[j].handlers.spec_methods(),
        claimed(routes.take(j), routes[j].path),
        registered(routes.take(j)).contains(routes[j].path),
        routes[j].mounted > 0,
        insert_accepts(Seq::empty(), routes[j].path.skip(routes[j].mounted as int)),
        insert_accepts(registered(routes.take(j)), routes[j].path),
    )
}

/// Whether the route at `j` cannot be registered after the routes before it:
/// one of its methods is routed for its full path already, or the matcher
/// refuses its path.
pub open spec fn refused<H>(routes: Seq<FlatRoute<H>>, j: int) -> bool {
    step_at(routes, j) is Clash || step_at(routes, j) is Refused
}

/// Whether `service` is what answers `method` for `handler`: the handler
/// itself, and for `PATCH` the clone of the handler that was made for it.
pub open spec fn same_service(method: Method, handler: Endpoint, service: Endpoint) -> bool {
    if method == Method::Patch {
        cloned(handler, service)
    } else {
        service == handler
    }
}

/// Whether `services` are those of `handlers`: a service for exactly the
/// methods that have a handler, and behind each method its own handler.
pub open spec fn serves_all(services: Map<Method, Endpoint>, handlers: Handlers<Endpoint>) -> bool {
    forall|m: Method|
        {
            &&& #[trigger] services.dom().contains(m) <==> handlers.handler(m) is Some
            &&& handlers.handler(m) matches Some(h) ==> same_service(m, h, services[m])
        }
}

/// Whether a router with the services `all` carries `routes`: it has
/// services for exactly their full paths; under each path it answers exactly
/// the methods that the routes of that path have between them; and behind each
/// method of each route stands the handler of that route, which sees the path
/// without the prefixes of the mounts around the route.
pub open spec fn carries(
    all: Map<Seq<char>, Map<Method, Service>>,
    routes: Seq<FlatRoute<Endpoint>>,
) -> bool {
    &&& forall|path: Seq<char>| #[trigger]
        all.dom().contains(path) <==> full_paths(routes).contains(path)
    &&& forall|path: Seq<char>, m: Method|
        all.dom().contains(path) ==> (#[trigger] all[path].dom().contains(m) <==> claimed(
            routes,
            path,
        ).has(m))
    &&& forall|j: int, m: Method|
        0 <= j < routes.len() && (#[trigger] routes[j].handlers.handler(m)) is Some ==> {
            &&& all.dom().contains(routes[j].path)
            &&& all[routes[j].path].dom().contains(m)
            &&& all[routes[j].path][m].1 == routes[j].mounted
            &&& same_service(m, routes[j].handlers.handler(m)->0, all[routes[j].path][m].0)
        }
}

/// The paths of the list, as sequences of characters.
pub open spec fn path_views(paths: Seq<String>) -> Seq<Seq<char>> {
    Seq::new(paths.len(), |i: int| paths[i]@)
}

/// A router under construction, the matcher that mirrors it, the paths that
/// both hold, and the path and methods of every route that went in.
struct Install {
    router: HostRouter,
    matcher: Matcher,
    paths: Vec<String>,
    keys: Vec<Key>,
}

impl Install {
    /// Whether the router and what goes with it stand for `done`.
    spec fn holds(self, done: Seq<FlatRoute<Endpoint>>) -> bool {
        &&& router_paths(self.router) == registered(done)
        &&& matcher_paths(self.matcher) == registered(done)
        &&& path_views(self.paths@) == registered(done)
        &&& keys_match(self.keys@, done)
        &&& carries(router_services(self.router), done)
        &&& !router_has_fallback(self.router)
    }
}

/// A path is among the registered ones exactly when it is the full path of a
/// route.
pub proof fn lemma_registered_paths<H>(routes: Seq<FlatRoute<H>>, path: Seq<char>)
    ensures
        registered(routes).contains(path) <==> full_paths(routes).contains(path),
    decreases routes.len(),
{
    if routes.len() > 0 {
        let init = routes.drop_last();
        let last = routes.last().path;
        lemma_registered_paths(init, path);
        lemma_registered_paths(init, last);
        let before = registered(init);
        if !before.contains(last) {
            assert(before.push(last)[before.len() as int] == last);
            if before.push(last).contains(path) && path != last {
                let after = before.push(last);
                let k = choose|k: int| 0 <= k < after.len() && after[k] == path;
                assert(before[k] == path);
            }
            if before.contains(path) {
                let k = choose|k: int| 0 <= k < before.len() && before[k] == path;
                assert(before.push(last)[k] == path);
            }
        }
        if full_paths(routes).contains(path) {
            let k = choose|k: int| 0 <= k < routes.len() && full_paths(routes)[k] == path;
            if k < init.len() {
                assert(full_paths(init)[k] == path);
            }
        }
        if full_paths(init).contains(path) {
            let k = choose|k: int| 0 <= k < init.len() && full_paths(init)[k] == path;
            assert(full_paths(routes)[k] == path);
        }
        if last == path {
            assert(full_paths(routes)[routes.len() - 1] == path);
        }
    }
}

/// Nothing is claimed for a path that is not the full path of a route.
pub proof fn lemma_unclaimed<H>(routes: Seq<FlatRoute<H>>, path: Seq<char>, m: Method)
    requires
        !full_paths(routes).contains(path),
    ensures
        !claimed(routes, path).has(m),
{
    lemma_claimed_has(routes, path, m);
    if claimed(routes, path).has(m) {
        let i = choose|i: int|
            0 <= i < routes.len() && (#[trigger] routes[i]).path == path
                && routes[i].handlers.handler(m) is Some;
        assert(full_paths(routes)[i] == path);
    }
}

/// A router that carries some routes and takes the services of one more
/// route under the full path of that route, none of them for a method that
/// is routed for the path already, carries the routes and the new one.
pub proof fn lemma_carries_one_more(
    all: Map<Seq<char>, Map<Method, Service>>,
    done: Seq<FlatRoute<Endpoint>>,
    route: FlatRoute<Endpoint>,
    services: Map<Method, Endpoint>,
)
    requires
        carries(all, done),
        serves_all(services, route.handlers),
        route.handlers.spec_methods().spec_intersect(claimed(done, route.path)).spec_is_empty(),
    ensures
        carries(
            with_services(all, route.path, stripping(services, route.mounted)),
            done.push(route),
        ),
{
    let added = stripping(services, route.mounted);
    let new = with_services(all, route.path, added);
    let more = done.push(route);
    let p = route.path;
    assert(more.drop_last() =~= done);
    assert(full_paths(more)[done.len() as int] == p);
    assert forall|m: Method| #[trigger] added.dom().contains(m) <==> route.handlers.handler(
        m,
    ) is Some by {
        assert(services.dom().contains(m) <==> route.handlers.handler(m) is Some);
    }
    assert forall|path: Seq<char>| #[trigger]
        new.dom().contains(path) <==> full_paths(more).contains(path) by {
        assert(all.dom().contains(path) <==> full_paths(done).contains(path));
        if full_paths(more).contains(path) {
            let k = choose|k: int| 0 <= k < more.len() && full_paths(more)[k] == path;
            if k < done.len() {
                assert(full_paths(done)[k] == path);
            }
        }
        if full_paths(done).contains(path) {
            let k = choose|k: int| 0 <= k < done.len() && full_paths(done)[k] == path;
            assert(full_paths(more)[k] == path);
        }
    }
    assert forall|path: Seq<char>, m: Method| new.dom().contains(path) implies (
    #[trigger] new[path].dom().contains(m) <==> claimed(more, path).has(m)) by {
        if path == p {
            assert(added.dom().contains(m) <==> route.handlers.handler(m) is Some);
            if all.dom().contains(p) {
                assert(all[p].dom().contains(m) <==> claimed(done, p).has(m));
            } else {
                assert(all.dom().contains(p) <==> full_paths(done).contains(p));
                lemma_unclaimed(done, p, m);
            }
        } else {
            assert(all.dom().contains(path));
            assert(all[path].dom().contains(m) <==> claimed(done, path).has(m));
        }
    }
    assert forall|j: int, m: Method|
        0 <= j < more.len() && (#[trigger] more[j].handlers.handler(m)) is Some implies {
        &&& new.dom().contains(more[j].path)
        &&& new[more[j].path].dom().contains(m)
        &&& new[more[j].path][m].1 == more[j].mounted
        &&& same_service(m, more[j].handlers.handler(m)->0, new[more[j].path][m].0)
    } by {
        if j < done.len() {
            assert(more[j] == done[j]);
            assert(done[j].handlers.handler(m) is Some);
            if done[j].path == p {
                lemma_claimed_has(done, p, m);
                assert(claimed(done, p).has(m));
                assert(!route.handlers.spec_methods().has(m));
                assert(!added.dom().contains(m));
            }
        } else {
            assert(more[j] == route);
            assert(services.dom().contains(m) <==> route.handlers.handler(m) is Some);
            assert(added.dom().contains(m));
        }
    }
}

/// Whether `path` is among `paths`.
fn seen(paths: &Vec<String>, path: &String) -> (out: bool)
    ensures
        out == path_views(paths@).contains(path@),
{
    let n = paths.len();
    let mut i: usize = 0;
    while i < n
        invariant
            n == paths@.len(),
            i <= n,
            forall|k: int| 0 <= k < i ==> path_views(paths@)[k] != path@,
        decreases n - i,
    {
        if paths[i] == *path {
            assert(path_views(paths@)[i as int] == path@);
            return true;
        }
        i = i + 1;
    }
    false
}

/// The method router of one route: each handler behind the filter of its
/// method, the handler for updates behind `PUT` and a clone of it behind
/// `PATCH`.
fn method_router_of(handlers: Handlers<Endpoint>) -> (out: Endpoint)
    ensures
        serves_all(route_services(out), handlers),
        route_is_plain(out),
{
    let Handlers { get, post, put_patch, delete } = handlers;
    let mut out = method_router_new();
    match get {
        Some(service) => {
            out = method_router_on(out, Method::Get, service);
        },
        None => {},
    }
    match post {
        Some(service) => {
            out = method_router_on(out, Method::Post, service);
        },
        None => {},
    }
    match put_patch {
        Some(service) => {
            let again = method_router_clone(&service);
            out = method_router_on(out, Method::Put, service);
            out = method_router_on(out, Method::Patch, again);
        },
        None => {},
    }
    match delete {
        Some(service) => {
            out = method_router_on(out, Method::Delete, service);
        },
        None => {},
    }
    out
}

/// Registers one route after those of `done`, unless it cannot be: it joins
/// its full path where that is registered and is registered under it where
/// it is not.
fn install_route(
    state: Install,
    route: MountedRoute<Endpoint>,
    Ghost(done): Ghost<Seq<FlatRoute<Endpoint>>>,
) -> (out: Result<Install, ResourceError>)
    requires
        state.holds(done),
        is_template(route.path@),
        route.prefix@.len() == 0 || is_template(route.prefix@),
    ensures
        match out {
            Ok(next) => {
                &&& next.holds(done.push(route@))
                &&& !refused(done.push(route@), done.len() as int)
            },
            Err(e) => {
                &&& refused(done.push(route@), done.len() as int)
                &&& e.is_collision(route@.path, taken(done.push(route@), done.len() as int))
            },
        },
{
    let ghost flat_route = route@;
    let ghost more = done.push(flat_route);
    let Install { router, mut matcher, mut paths, mut keys } = state;
    let MountedRoute { prefix, path, handlers } = route;
    let methods = handlers.methods();
    let mounted = prefix.as_str().unicode_len() > 0;
    let mut full = prefix.clone();
    full.append(path.as_str());
    proof {
        lemma_template_shape(path@);
        assert(flat_route.path.skip(flat_route.mounted as int) =~= path@);
        if prefix@.len() == 0 {
            assert(full@ =~= path@);
        } else {
            lemma_template_concat(prefix@, path@);
            lemma_template_shape(prefix@);
        }
        assert(more.take(done.len() as int) =~= done);
        assert(more.drop_last() =~= done);
        lemma_registered_paths(done, full@);
    }
    let claimed = claimed_in::<Endpoint>(&keys, &full, Ghost(done));
    let registered = seen(&paths, &full);
    let alone = if mounted {
        let mut fresh = matcher_new();
        matcher_insert(&mut fresh, path.as_str())
    } else {
        true
    };
    let accepted = if registered {
        true
    } else {
        matcher_insert(&mut matcher, full.as_str())
    };
    let step = decide(methods, claimed, registered, mounted, alone, accepted);
    assert(step == step_at(more, done.len() as int));
    match step {
        Step::Clash(both) => Err(ResourceError::RouteCollision { path: full, methods: both }),
        Step::Refused => Err(
            ResourceError::RouteCollision { path: full, methods: MethodSet::none() },
        ),
        _ => {
            let route = method_router_of(handlers);
            let ghost services = route_services(route);
            let ghost all = router_services(router);
            proof {
                assert forall|m: Method| services.dom().contains(m) implies !services_at(
                    all,
                    full@,
                ).dom().contains(m) by {
                    assert(services.dom().contains(m) <==> flat_route.handlers.handler(m) is Some);
                    if all.dom().contains(full@) {
                        assert(all[full@].dom().contains(m) <==> claimed.has(m));
                    }
                }
                lemma_carries_one_more(all, done, flat_route, services);
            }
            let router = if mounted {
                let nested = router_route(router_new(), path.as_str(), route);
                proof {
                    let inner = router_services(nested);
                    assert(router_paths(nested) =~= seq![path@]);
                    assert(path@ != seq!['/']);
                    assert(inner.dom().contains(path@));
                    assert(inner[path@] =~= stripping(services, 0));
                    assert(stripping_more(inner[path@], prefix@.len()) =~= stripping(
                        services,
                        flat_route.mounted,
                    ));
                }
                router_nest(router, prefix.as_str(), nested)
            } else {
                router_route(router, path.as_str(), route)
            };
            keys.push(Key { path: full.clone(), methods });
            if !registered {
                let ghost before = paths@;
                paths.push(full);
                assert(path_views(paths@) =~= path_views(before).push(full@));
            }
            Ok(Install { router, matcher, paths, keys })
        },
    }
}

/// Whether `router` is the router of `routes`: it holds their full paths, in
/// the order in which they come first; it carries the routes; it has no
/// fallback of its own; and none of the routes was refused.
pub open spec fn installed(routes: Seq<FlatRoute<Endpoint>>, router: HostRouter) -> bool {
    &&& router_paths(router) == registered(routes)
    &&& carries(router_services(router), routes)
    &&& !router_has_fallback(router)
    &&& forall|j: int| 0 <= j < routes.len() ==> !refused(routes, j)
}

/// Whether `error` is what the first route that is refused leads to: the
/// collision on its full path, for those of its methods that are routed for
/// the path already; for none where it is the matcher that refuses the path.
pub open spec fn stopped<H>(routes: Seq<FlatRoute<H>>, error: ResourceError) -> bool {
    exists|j: int|
        {
            &&& 0 <= j < routes.len()
            &&& forall|i: int| 0 <= i < j ==> !refused(routes, i)
            &&& #[trigger] refused(routes, j)
            &&& error.is_collision(routes[j].path, taken(routes, j))
        }
}

/// Whether the route at `j` is refused does not depend on the routes after
/// it.
pub proof fn lemma_refused_early<H>(routes: Seq<FlatRoute<H>>, n: int, j: int)
    requires
        0 <= j < n <= routes.len(),
    ensures
        refused(routes.take(n), j) == refused(routes, j),
        taken(routes.take(n), j) == taken(routes, j),
{
    assert(routes.take(n).take(j) =~= routes.take(j));
}

/// A table whose routes can join the empty table one after the other, as a
/// merge asks, is never stopped by a clash when its router is built: what a
/// merge calls a clash is what stops the building of a router, and nothing
/// else does but the matcher.
pub proof fn lemma_merged_routes_never_clash<H>(routes: Seq<FlatRoute<H>>, j: int)
    requires
        0 <= j < routes.len(),
        clash_free(Seq::<FlatRoute<H>>::empty(), routes, routes.len() as int),
    ensures
        taken(routes, j).spec_is_empty(),
        !(step_at(routes, j) is Clash),
{
    assert(Seq::<FlatRoute<H>>::empty() + routes.take(j) =~= routes.take(j));
    assert(clash(Seq::<FlatRoute<H>>::empty(), routes, j).spec_is_empty());
}

/// A table without mounts has as many routes as entries.
pub proof fn lemma_count_of_routes<H>(table: Seq<EntryView<H>>)
    requires
        forall|k: int| 0 <= k < table.len() ==> (#[trigger] table[k]) is Route,
    ensures
        flat(table).len() == table.len(),
    decreases table.len(),
{
    if table.len() > 0 {
        let init = table.drop_last();
        assert forall|k: int| 0 <= k < init.len() implies (#[trigger] init[k]) is Route by {
            assert(init[k] == table[k]);
        }
        lemma_count_of_routes(init);
        assert(table[table.len() - 1] is Route);
        assert(flat_entry(table.last()).len() == 1);
    }
}

/// The routes of a table without mounts are its entries.
pub proof fn lemma_flat_of_routes<H>(table: Seq<EntryView<H>>, i: int)
    requires
        forall|k: int| 0 <= k < table.len() ==> (#[trigger] table[k]) is Route,
        0 <= i < table.len(),
    ensures
        flat(table).len() == table.len(),
        flat(table)[i].path == table[i]->path,
        flat(table)[i].handlers == table[i]->handlers,
        flat(table)[i].mounted == 0,
    decreases table.len(),
{
    let init = table.drop_last();
    assert forall|k: int| 0 <= k < init.len() implies (#[trigger] init[k]) is Route by {
        assert(init[k] == table[k]);
    }
    lemma_count_of_routes(table);
    lemma_count_of_routes(init);
    assert(table[table.len() - 1] is Route);
    assert(flat_entry(table.last()).len() == 1);
    if i < init.len() {
        lemma_flat_of_routes(init, i);
        assert(init[i] == table[i]);
        assert(flat(table)[i] == flat(init)[i]);
    } else {
        assert(flat(table)[i] == flat_entry(table.last())[0]);
    }
}

/// The router of a resource without nested tables is never stopped by a
/// clash: the building fails only where the matcher refuses a path.
pub proof fn lemma_plain_resource_never_clashes<H>(r: ResourceView<H>, j: int)
    requires
        r.nest is None,
        r.nest_collection is None,
        0 <= j < flat(compiled(r)).len(),
    ensures
        taken(flat(compiled(r)), j).spec_is_empty(),
        !(step_at(flat(compiled(r)), j) is Clash),
{
    let t = compiled(r);
    let routes = flat(t);
    lemma_compiled_parts(r);
    assert forall|k: int| 0 <= k < t.len() implies (#[trigger] t[k]) is Route by {
        let at = choose|p: int|
            0 <= p < 6 && (#[trigger] part(r, p)).len() > 0 && part_start(r, p) == k;
        assert(t[k] == part(r, at)[0]);
    }
    lemma_count_of_routes(t);
    lemma_flat_of_routes(t, j);
    if !taken(routes, j).spec_is_empty() {
        let m = lemma_some_method(taken(routes, j));
        let path = routes[j].path;
        lemma_claimed_has(routes.take(j), path, m);
        let i = choose|i: int|
            0 <= i < routes.take(j).len() && (#[trigger] routes.take(j)[i]).path == path
                && routes.take(j)[i].handlers.handler(m) is Some;
        lemma_flat_of_routes(t, i);
        assert(routes.take(j)[i] == routes[i]);
        assert(is_route_at(t, i, path));
        assert(is_route_at(t, j, path));
        lemma_compile_covers(r, path);
    }
}

impl Table<Endpoint> {
    /// Builds the axum router of this table. The routes are registered one by
    /// one, in order, mounts spelled out; each handler is put behind the
    /// filter of its method. A route that is mounted is nested under the
    /// prefixes of its mounts, so that its handlers see the path without them.
    /// Routes that come to the same full path share it.
    ///
    /// The build fails at the first route that cannot be registered. Either
    /// a method of the route is routed for its full path already: the error
    /// names the path and those methods. Or axum's matcher refuses the path:
    /// the error names the path and no method. The table without routes
    /// always gives a router.
    pub fn into_router(self) -> (out: Result<HostRouter, ResourceError>)
        ensures
            match out {
                Ok(router) => installed(flat(self@), router),
                Err(e) => stopped(flat(self@), e),
            },
    {
        let ghost routes = flat(self@);
        let list = self.into_routes();
        let ghost orig = list@;
        let n = list.len();
        let mut rest = reversed(list);
        let mut state = Install {
            router: router_new(),
            matcher: matcher_new(),
            paths: Vec::new(),
            keys: Vec::new(),
        };
        let mut j: usize = 0;
        proof {
            assert(routes.take(0) =~= Seq::<FlatRoute<Endpoint>>::empty());
            assert(path_views(state.paths@) =~= Seq::<Seq<char>>::empty());
            assert(full_paths(routes.take(0)) =~= Seq::<Seq<char>>::empty());
        }
        while j < n
            invariant
                n == orig.len(),
                j <= n,
                routes == flat(self@),
                routes_match(orig, routes),
                rest@.len() == n - j,
                forall|k: int| 0 <= k < rest@.len() ==> rest@[k] == orig[n - 1 - k],
                state.holds(routes.take(j as int)),
                forall|i: int| 0 <= i < j ==> !refused(routes, i),
            decreases n - j,
        {
            let next = rest.pop();
            match next {
                Some(route) => {
                    proof {
                        assert(route == orig[j as int]);
                        assert(route@ == routes[j as int]);
                        assert(routes.take(j as int).push(routes[j as int]) =~= routes.take(
                            j as int + 1,
                        ));
                        lemma_refused_early(routes, j as int + 1, j as int);
                    }
                    match install_route(state, route, Ghost(routes.take(j as int))) {
                        Ok(after) => {
                            state = after;
                        },
                        Err(e) => {
                            assert(refused(routes, j as int));
                            return Err(e);
                        },
                    }
                },
                None => {},
            }
            j = j + 1;
        }
        assert(routes.take(n as int) =~= routes);
        Ok(state.router)
    }
}

impl Resource<Endpoint> {
    /// Compiles the resource and builds the axum router of its table.
    pub fn into_router(self) -> (out: Result<HostRouter, ResourceError>)
        ensures
            match out {
                Ok(router) => installed(flat(compiled(self@)), router),
                Err(e) => stopped(flat(compiled(self@)), e),
            },
    {
        self.compile().into_router()
    }
}

/// Builds the resource called `name` by handing it, with nothing attached, to
/// `f`, and gives the axum router of what `f` hands back. It fails when the
/// name is refused, with the error of `f` when `f` fails, and as
/// [`Resource::into_router`] does when the router cannot be built.
pub fn resource<F>(name: &str, f: F) -> (out: Result<HostRouter, ResourceError>) where
    F: FnOnce(Resource<Endpoint>) -> Result<Resource<Endpoint>, ResourceError>,

    requires
        forall|start: Resource<Endpoint>|
            start@ == ResourceView::<Endpoint>::bare(name@) ==> call_requires(f, (start,)),
    ensures
        !valid_name(name@) ==> out == Err::<HostRouter, ResourceError>(
            ResourceError::InvalidResourceName,
        ),
        valid_name(name@) ==> exists|start: Resource<Endpoint>|
            start@ == ResourceView::<Endpoint>::bare(name@) && #[trigger] built_by(f, start, out),
{
    let start = match Resource::named(name) {
        Ok(start) => start,
        Err(e) => {
            return Err(e);
        },
    };
    let out = match f(start) {
        Ok(built) => built.into_router(),
        Err(e) => Err(e),
    };
    assert(built_by(f, start, out));
    out
}

/// Whether `out` is what comes of handing `start` to `f`: the error of `f`,
/// or else the router of the resource that `f` gave, or the error that
/// building it led to.
pub open spec fn built_by<F>(
    f: F,
    start: Resource<Endpoint>,
    out: Result<HostRouter, ResourceError>,
) -> bool where F: FnOnce(Resource<Endpoint>) -> Result<Resource<Endpoint>, ResourceError> {
    exists|given: Result<Resource<Endpoint>, ResourceError>|
        {
            &&& #[trigger] call_ensures(f, (start,), given)
            &&& match given {
                Ok(built) => match out {
                    Ok(router) => installed(flat(compiled(built@)), router),
                    Err(e) => stopped(flat(compiled(built@)), e),
                },
                Err(e) => out == Err::<HostRouter, ResourceError>(e),
            }
        }
}

} // verus!
