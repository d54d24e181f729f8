//! Routing tables: what a resource compiles to.

use vstd::prelude::*;
use crate::method::{cloned_handlers, Handlers, Method, MethodSet};
use crate::path::{is_template, lemma_template_concat};

verus! {

/// One entry of a table.
#[derive(Debug)]
pub enum Entry<H> {
    /// Requests for `path` go to the handler of their method.
    Route { path: String, handlers: Handlers<H> },
    /// Requests whose path starts with `prefix` go to `table`, which sees the
    /// rest of the path.
    Mount { prefix: String, table: Table<H> },
}

/// An ordered list of routes and mounts. Every path and every prefix in it is
/// a path template.
#[derive(Debug)]
pub struct Table<H> {
    entries: Vec<Entry<H>>,
}

/// An entry as a mathematical value.
pub enum EntryView<H> {
    Route { path: Seq<char>, handlers: Handlers<H> },
    Mount { prefix: Seq<char>, table: Seq<EntryView<H>> },
}

/// One route of a table after its mounts have been spelled out: the full path,
/// how much of it is the prefixes of the mounts around the route, and the
/// handlers behind it.
pub struct FlatRoute<H> {
    pub path: Seq<char>,
    pub mounted: nat,
    pub handlers: Handlers<H>,
}

impl<H> Entry<H> {
    /// The template of a route, the prefix of a mount.
    pub open spec fn template(self) -> Seq<char> {
        match self {
            Entry::Route { path, .. } => path@,
            Entry::Mount { prefix, .. } => prefix@,
        }
    }

    pub open spec fn view(self) -> EntryView<H>
        decreases self,
    {
        match self {
            Entry::Route { path, handlers } => EntryView::Route { path: path@, handlers },
            Entry::Mount { prefix, table } => EntryView::Mount { prefix: prefix@, table: table@ },
        }
    }
}

/// The views of a list of entries, in order.
pub open spec fn views<H>(entries: Seq<Entry<H>>) -> Seq<EntryView<H>>
    decreases entries,
{
    if entries.len() == 0 {
        Seq::empty()
    } else {
        views(entries.drop_last()).push(entries.last()@)
    }
}

/// Whether every entry of the list has a path template for its path or prefix.
pub open spec fn templates_ok<H>(entries: Seq<Entry<H>>) -> bool {
    forall|i: int| 0 <= i < entries.len() ==> is_template((#[trigger] entries[i]).template())
}

impl<H> Table<H> {
    #[verifier::type_invariant]
    spec fn inv(self) -> bool {
        templates_ok(self.entries@)
    }

    /// The entries of the table, in order.
    pub closed spec fn view(self) -> Seq<EntryView<H>>
        decreases self,
    {
        views(self.entries@)
    }
}

/// The routes of `routes` as they look from outside a mount at `prefix`.
pub open spec fn under<H>(prefix: Seq<char>, routes: Seq<FlatRoute<H>>) -> Seq<FlatRoute<H>> {
    Seq::new(
        routes.len(),
        |i: int|
            FlatRoute {
                path: prefix + routes[i].path,
                mounted: prefix.len() + routes[i].mounted,
                handlers: routes[i].handlers,
            },
    )
}

/// The routes that an entry stands for: itself, or those of the mounted table
/// with the prefix in front of each path.
pub open spec fn flat_entry<H>(entry: EntryView<H>) -> Seq<FlatRoute<H>>
    decreases entry,
{
    match entry {
        EntryView::Route { path, handlers } => seq![FlatRoute { path, mounted: 0, handlers }],
        EntryView::Mount { prefix, table } => under(prefix, flat(table)),
    }
}

/// All routes of a table, mounts spelled out, in the order of the entries.
pub open spec fn flat<H>(table: Seq<EntryView<H>>) -> Seq<FlatRoute<H>>
    decreases table,
{
    if table.len() == 0 {
        Seq::empty()
    } else {
        flat(table.drop_last()) + flat_entry(table.last())
    }
}

/// Whether one of `routes` has `path` for its path and `handler` for
/// `method`.
pub open spec fn serves<H>(
    routes: Seq<FlatRoute<H>>,
    path: Seq<char>,
    method: Method,
    handler: H,
) -> bool {
    exists|i: int|
        0 <= i < routes.len() && (#[trigger] routes[i]).path == path && routes[i].handlers.handler(
            method,
        ) == Some(handler)
}

/// Whether requests for `path` with `method` reach `handler` somewhere in the
/// table, mounts spelled out.
pub open spec fn provides<H>(
    table: Seq<EntryView<H>>,
    path: Seq<char>,
    method: Method,
    handler: H,
) -> bool {
    serves(flat(table), path, method, handler)
}

/// The methods for which `path` is routed by some of `routes`.
pub open spec fn claimed<H>(routes: Seq<FlatRoute<H>>, path: Seq<char>) -> MethodSet
    decreases routes.len(),
{
    if routes.len() == 0 {
        MethodSet::spec_none()
    } else if routes.last().path == path {
        claimed(routes.drop_last(), path).spec_union(routes.last().handlers.spec_methods())
    } else {
        claimed(routes.drop_last(), path)
    }
}

impl<H> Table<H> {
    /// The table without entries. It routes nothing.
    pub fn empty() -> (out: Table<H>)
        ensures
            out@ == Seq::<EntryView<H>>::empty(),
    {
        Table { entries: Vec::new() }
    }

    /// Makes a table of a list of entries whose paths and prefixes are
    /// templates.
    pub(crate) fn from_entries(entries: Vec<Entry<H>>) -> (out: Table<H>)
        requires
            templates_ok(entries@),
        ensures
            out@ == views(entries@),
    {
        Table { entries }
    }

    /// Takes the table apart.
    pub(crate) fn into_entries(self) -> (out: Vec<Entry<H>>)
        ensures
            views(out@) == self@,
            templates_ok(out@),
    {
        proof {
            use_type_invariant(&self);
        }
        self.entries
    }

    /// The entries, to look at.
    pub(crate) fn entries(&self) -> (out: &Vec<Entry<H>>)
        ensures
            views(out@) == self@,
            templates_ok(out@),
    {
        proof {
            use_type_invariant(self);
        }
        &self.entries
    }

    /// How many entries the table has.
    pub fn len(&self) -> (out: usize)
        ensures
            out == self@.len(),
    {
        proof {
            lemma_views_len(self.entries@);
        }
        self.entries.len()
    }

    /// Whether the table has no entry.
    pub fn is_empty(&self) -> (out: bool)
        ensures
            out == (self@.len() == 0),
    {
        proof {
            lemma_views_len(self.entries@);
        }
        self.entries.len() == 0
    }

    /// The entry at `index`, if there is one. Its path, or its prefix, is a
    /// path template.
    pub fn get(&self, index: usize) -> (out: Option<&Entry<H>>)
        ensures
            match out {
                Some(entry) => {
                    &&& index < self@.len()
                    &&& entry@ == self@[index as int]
                    &&& is_template(entry.template())
                },
                None => index >= self@.len(),
            },
    {
        proof {
            use_type_invariant(self);
            lemma_views_len(self.entries@);
        }
        if index < self.entries.len() {
            proof {
                lemma_views_index(self.entries@, index as int);
            }
            Some(&self.entries[index])
        } else {
            None
        }
    }
}

/// A list of views is as long as the list of entries.
pub proof fn lemma_views_len<H>(entries: Seq<Entry<H>>)
    ensures
        views(entries).len() == entries.len(),
    decreases entries.len(),
{
    if entries.len() > 0 {
        lemma_views_len(entries.drop_last());
    }
}

/// The view at an index is the view of the entry at that index.
pub proof fn lemma_views_index<H>(entries: Seq<Entry<H>>, i: int)
    requires
        0 <= i < entries.len(),
    ensures
        views(entries).len() == entries.len(),
        views(entries)[i] == entries[i]@,
    decreases entries.len(),
{
    lemma_views_len(entries);
    lemma_views_len(entries.drop_last());
    if i < entries.len() - 1 {
        lemma_views_index(entries.drop_last(), i);
    }
}

/// Adding an entry at the end adds its view at the end.
pub proof fn lemma_views_push<H>(entries: Seq<Entry<H>>, entry: Entry<H>)
    ensures
        views(entries.push(entry)) == views(entries).push(entry@),
{
    assert(entries.push(entry).drop_last() =~= entries);
}

/// The methods for which the route at `j` of `added` is already claimed, by
/// `base` or by a route of `added` before it.
pub open spec fn clash<H>(base: Seq<FlatRoute<H>>, added: Seq<FlatRoute<H>>, j: int) -> MethodSet {
    added[j].handlers.spec_methods().spec_intersect(
        claimed(base + added.take(j), added[j].path),
    )
}

/// Whether the first `n` routes of `added` can join `base` one after the other
/// without claiming a path and method twice.
pub open spec fn clash_free<H>(base: Seq<FlatRoute<H>>, added: Seq<FlatRoute<H>>, n: int) -> bool {
    forall|j: int| 0 <= j < n ==> (#[trigger] clash(base, added, j)).spec_is_empty()
}

/// A path with the methods it is routed for: what is kept of a route to look
/// for clashes.
pub(crate) struct Key {
    pub path: String,
    pub methods: MethodSet,
}

/// Whether the keys are those of the routes, one for one.
pub(crate) open spec fn keys_match<H>(keys: Seq<Key>, routes: Seq<FlatRoute<H>>) -> bool {
    &&& keys.len() == routes.len()
    &&& forall|i: int|
        0 <= i < keys.len() ==> (#[trigger] keys[i]).path@ == routes[i].path && keys[i].methods
            == routes[i].handlers.spec_methods()
}

/// The routes of the first entries and of the next one are the routes of both.
pub proof fn lemma_flat_take<H>(table: Seq<EntryView<H>>, i: int)
    requires
        0 <= i < table.len(),
    ensures
        flat(table.take(i + 1)) == flat(table.take(i)) + flat_entry(table[i]),
{
    assert(table.take(i + 1).drop_last() =~= table.take(i));
}

/// The views of the first entries are the first views.
pub proof fn lemma_views_take<H>(entries: Seq<Entry<H>>, i: int)
    requires
        0 <= i <= entries.len(),
    ensures
        views(entries.take(i)) == views(entries).take(i),
    decreases i,
{
    lemma_views_len(entries);
    lemma_views_len(entries.take(i));
    if i > 0 {
        lemma_views_take(entries, i - 1);
        assert(entries.take(i).drop_last() =~= entries.take(i - 1));
        lemma_views_index(entries, i - 1);
        assert(views(entries.take(i)) =~= views(entries).take(i));
    } else {
        assert(views(entries.take(i)) =~= views(entries).take(i));
    }
}

/// Seen from outside a mount, two lists in a row are the two lists seen from
/// outside, in a row.
pub proof fn lemma_under_concat<H>(
    prefix: Seq<char>,
    a: Seq<FlatRoute<H>>,
    b: Seq<FlatRoute<H>>,
)
    ensures
        under(prefix, a + b) == under(prefix, a) + under(prefix, b),
{
    assert(under(prefix, a + b) =~= under(prefix, a) + under(prefix, b));
}

/// A mount inside a mount is a mount at both prefixes in a row.
pub proof fn lemma_under_under<H>(outer: Seq<char>, inner: Seq<char>, routes: Seq<FlatRoute<H>>)
    ensures
        under(outer, under(inner, routes)) == under(outer + inner, routes),
{
    assert forall|i: int| 0 <= i < routes.len() implies under(outer, under(inner, routes))[i]
        == under(outer + inner, routes)[i] by {
        assert(outer + (inner + routes[i].path) =~= (outer + inner) + routes[i].path);
    }
    assert(under(outer, under(inner, routes)) =~= under(outer + inner, routes));
}

/// A mount at the empty prefix changes nothing.
pub proof fn lemma_under_empty<H>(routes: Seq<FlatRoute<H>>)
    ensures
        under(Seq::<char>::empty(), routes) == routes,
{
    assert forall|i: int| 0 <= i < routes.len() implies under(Seq::<char>::empty(), routes)[i]
        == routes[i] by {
        assert(Seq::<char>::empty() + routes[i].path =~= routes[i].path);
    }
    assert(under(Seq::<char>::empty(), routes) =~= routes);
}

/// Adds to `keys` the key of every route of `entries`, with `prefix` in front
/// of each path.
pub(crate) fn collect_keys<H>(
    entries: &Vec<Entry<H>>,
    prefix: &str,
    keys: &mut Vec<Key>,
    Ghost(base): Ghost<Seq<FlatRoute<H>>>,
)
    requires
        keys_match(old(keys)@, base),
    ensures
        keys_match(final(keys)@, base + under(prefix@, flat(views(entries@)))),
    decreases entries,
{
    let n = entries.len();
    let mut i: usize = 0;
    proof {
        assert(entries@.take(0) =~= Seq::<Entry<H>>::empty());
        assert(base + under(prefix@, flat(views(entries@.take(0)))) =~= base);
    }
    while i < n
        invariant
            n == entries.len(),
            i <= n,
            keys_match(keys@, base + under(prefix@, flat(views(entries@.take(i as int))))),
        decreases n - i,
    {
        let ghost before = flat(views(entries@.take(i as int)));
        proof {
            lemma_views_take(entries@, i as int);
            lemma_views_take(entries@, i as int + 1);
            lemma_views_index(entries@, i as int);
            lemma_flat_take(views(entries@), i as int);
            lemma_under_concat(prefix@, before, flat_entry(entries@[i as int]@));
        }
        match &entries[i] {
            Entry::Route { path, handlers } => {
                let mut full = String::from_str(prefix);
                full.append(path.as_str());
                keys.push(Key { path: full, methods: handlers.methods() });
                assert(keys_match(
                    keys@,
                    base + under(prefix@, flat(views(entries@.take(i as int + 1)))),
                ));
            },
            Entry::Mount { prefix: inner, table } => {
                let mut full = String::from_str(prefix);
                full.append(inner.as_str());
                proof {
                    lemma_under_under(prefix@, inner@, flat(table@));
                }
                collect_keys(
                    &table.entries,
                    full.as_str(),
                    keys,
                    Ghost(base + under(prefix@, before)),
                );
                assert(base + under(prefix@, before) + under(full@, flat(table@)) =~= base
                    + under(prefix@, flat(views(entries@.take(i as int + 1)))));
            },
        }
        i = i + 1;
    }
    assert(entries@.take(n as int) =~= entries@);
}

/// The methods for which `path` is claimed by the keys.
pub(crate) fn claimed_in<H>(
    keys: &Vec<Key>,
    path: &String,
    Ghost(routes): Ghost<Seq<FlatRoute<H>>>,
) -> (out: MethodSet)
    requires
        keys_match(keys@, routes),
    ensures
        out == claimed(routes, path@),
{
    let n = keys.len();
    let mut out = MethodSet::none();
    let mut i: usize = 0;
    assert(routes.take(0) =~= Seq::<FlatRoute<H>>::empty());
    while i < n
        invariant
            n == keys.len(),
            i <= n,
            keys_match(keys@, routes),
            out == claimed(routes.take(i as int), path@),
        decreases n - i,
    {
        assert(routes.take(i as int + 1).drop_last() =~= routes.take(i as int));
        if keys[i].path == *path {
            out = out.union(keys[i].methods);
        }
        i = i + 1;
    }
    assert(routes.take(n as int) =~= routes);
    out
}

/// The entries in the opposite order.
pub(crate) fn reversed<T>(v: Vec<T>) -> (out: Vec<T>)
    ensures
        out@.len() == v@.len(),
        forall|i: int| 0 <= i < out@.len() ==> out@[i] == v@[v@.len() - 1 - i],
{
    let ghost orig = v@;
    let mut v = v;
    let mut out: Vec<T> = Vec::new();
    while v.len() > 0
        invariant
            v@.len() + out@.len() == orig.len(),
            v@ == orig.take(v@.len() as int),
            forall|i: int| 0 <= i < out@.len() ==> out@[i] == orig[orig.len() - 1 - i],
        decreases v@.len(),
    {
        let x = v.pop();
        match x {
            Some(x) => {
                out.push(x);
            },
            None => {},
        }
    }
    out
}


/// A route together with the prefixes of the mounts around it, in a row: what
/// a host needs to know to register the route.
#[derive(Debug)]
pub struct MountedRoute<H> {
    /// The prefixes of the mounts around the route, outermost first, in a
    /// row; empty for a route that is not mounted.
    pub prefix: String,
    /// The path of the route in its own table.
    pub path: String,
    pub handlers: Handlers<H>,
}

impl<H> View for MountedRoute<H> {
    type V = FlatRoute<H>;

    open spec fn view(&self) -> FlatRoute<H> {
        FlatRoute {
            path: self.prefix@ + self.path@,
            mounted: self.prefix@.len(),
            handlers: self.handlers,
        }
    }
}

/// Whether the list holds exactly `routes`, in order, and each of its paths is
/// a template, as is each prefix that is not empty.
pub open spec fn routes_match<H>(list: Seq<MountedRoute<H>>, routes: Seq<FlatRoute<H>>) -> bool {
    &&& list.len() == routes.len()
    &&& forall|i: int|
        0 <= i < list.len() ==> {
            &&& (#[trigger] list[i])@ == routes[i]
            &&& is_template(list[i].path@)
            &&& list[i].prefix@.len() == 0 || is_template(list[i].prefix@)
        }
}

/// Adds to `out` every route of `entries`, mounts spelled out, with `prefix`
/// in front of each.
fn flatten_into<H>(
    entries: Vec<Entry<H>>,
    prefix: &String,
    out: &mut Vec<MountedRoute<H>>,
    Ghost(base): Ghost<Seq<FlatRoute<H>>>,
)
    requires
        templates_ok(entries@),
        prefix@.len() == 0 || is_template(prefix@),
        routes_match(old(out)@, base),
    ensures
        routes_match(final(out)@, base + under(prefix@, flat(views(entries@)))),
    decreases entries,
{
    let ghost orig = entries@;
    let n = entries.len();
    let mut rest = reversed(entries);
    let mut i: usize = 0;
    proof {
        assert(orig.take(0) =~= Seq::<Entry<H>>::empty());
        assert(base + under(prefix@, flat(views(orig.take(0)))) =~= base);
    }
    while i < n
        invariant
            n == orig.len(),
            i <= n,
            orig == entries@,
            templates_ok(orig),
            prefix@.len() == 0 || is_template(prefix@),
            rest@.len() == n - i,
            forall|k: int| 0 <= k < rest@.len() ==> rest@[k] == orig[n - 1 - k],
            routes_match(out@, base + under(prefix@, flat(views(orig.take(i as int))))),
        decreases n - i,
    {
        let ghost before = flat(views(orig.take(i as int)));
        proof {
            lemma_views_take(orig, i as int);
            lemma_views_take(orig, i as int + 1);
            lemma_views_index(orig, i as int);
            lemma_flat_take(views(orig), i as int);
            lemma_under_concat(prefix@, before, flat_entry(orig[i as int]@));
            assert(is_template(orig[i as int].template()));
        }
        let next = rest.pop();
        match next {
            Some(Entry::Route { path, handlers }) => {
                out.push(MountedRoute { prefix: prefix.clone(), path, handlers });
                assert(routes_match(
                    out@,
                    base + under(prefix@, flat(views(orig.take(i as int + 1)))),
                ));
            },
            Some(Entry::Mount { prefix: inner, table }) => {
                let mut full = prefix.clone();
                full.append(inner.as_str());
                proof {
                    lemma_under_under(prefix@, inner@, flat(table@));
                    if prefix@.len() == 0 {
                        assert(full@ =~= inner@);
                    } else {
                        lemma_template_concat(prefix@, inner@);
                    }
                    use_type_invariant(&table);
                    assert(next == Some(entries@[i as int]));
                }
                flatten_into(table.entries, &full, out, Ghost(base + under(prefix@, before)));
                assert(base + under(prefix@, before) + under(full@, flat(table@)) =~= base
                    + under(prefix@, flat(views(orig.take(i as int + 1)))));
            },
            None => {},
        }
        i = i + 1;
    }
    assert(orig.take(n as int) =~= orig);
}

impl<H> Table<H> {
    /// Takes the table apart into its routes, mounts spelled out, in the order
    /// of the entries. Each route comes with the prefixes of the mounts that
    /// were around it.
    pub fn into_routes(self) -> (out: Vec<MountedRoute<H>>)
        ensures
            routes_match(out@, flat(self@)),
    {
        let mut out: Vec<MountedRoute<H>> = Vec::new();
        let prefix = String::new();
        proof {
            use_type_invariant(&self);
            lemma_under_empty(flat(self@));
            assert(Seq::<FlatRoute<H>>::empty() + flat(self@) =~= flat(self@));
        }
        flatten_into(self.entries, &prefix, &mut out, Ghost(Seq::<FlatRoute<H>>::empty()));
        out
    }
}

/// Whether `b` is `a` with a clone in the place of each handler.
pub open spec fn cloned_entries<H: Clone>(a: Seq<EntryView<H>>, b: Seq<EntryView<H>>) -> bool
    decreases a,
{
    if a.len() == 0 {
        b.len() == 0
    } else {
        &&& b.len() > 0
        &&& cloned_entries(a.drop_last(), b.drop_last())
        &&& match (a.last(), b.last()) {
            (
                EntryView::Route { path: p, handlers: h },
                EntryView::Route { path: q, handlers: g },
            ) => p == q && cloned_handlers(h, g),
            (
                EntryView::Mount { prefix: p, table: t },
                EntryView::Mount { prefix: q, table: u },
            ) => p == q && cloned_entries(t, u),
            _ => false,
        }
    }
}

impl<H: Clone> Clone for Table<H> {
    /// Clones the table entry by entry, and each handler in it.
    fn clone(&self) -> (out: Self)
        ensures
            cloned_entries(self@, out@),
        decreases self,
    {
        proof {
            use_type_invariant(self);
        }
        let n = self.entries.len();
        let mut entries: Vec<Entry<H>> = Vec::new();
        let mut i: usize = 0;
        proof {
            assert(self.entries@.take(0) =~= Seq::<Entry<H>>::empty());
        }
        while i < n
            invariant
                n == self.entries@.len(),
                i <= n,
                entries@.len() == i,
                templates_ok(self.entries@),
                templates_ok(entries@),
                cloned_entries(views(self.entries@.take(i as int)), views(entries@)),
            decreases n - i,
        {
            let ghost before = entries@;
            let entry = match &self.entries[i] {
                Entry::Route { path, handlers } => Entry::Route {
                    path: path.clone(),
                    handlers: handlers.clone(),
                },
                Entry::Mount { prefix, table } => Entry::Mount {
                    prefix: prefix.clone(),
                    table: table.clone(),
                },
            };
            proof {
                lemma_views_push(before, entry);
                lemma_views_push(self.entries@.take(i as int), self.entries@[i as int]);
                assert(self.entries@.take(i as int + 1) =~= self.entries@.take(i as int).push(
                    self.entries@[i as int],
                ));
                assert(views(before).push(entry@).drop_last() =~= views(before));
                assert(views(self.entries@.take(i as int)).push(
                    self.entries@[i as int]@,
                ).drop_last() =~= views(self.entries@.take(i as int)));
                assert(is_template(self.entries@[i as int].template()));
            }
            entries.push(entry);
            i = i + 1;
        }
        assert(self.entries@.take(n as int) =~= self.entries@);
        Table { entries }
    }
}

} // verus!
