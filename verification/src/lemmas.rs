//! The steps behind the laws: how the routes of a table, what they claim and
//! what they serve change when tables are put together, and where the parts of
//! a compiled table stand.

use vstd::prelude::*;
use crate::error::Action;
use crate::laws::{
    action_path, answers, apart, compatible, is_nesting, lemma_apart_means,
    lemma_paths_are_distinct, slot, unambiguous,
};
use crate::merge::{absorb, first_route, is_first_route_at, merged};
use crate::method::{Method, MethodSet};
use crate::path::{collection_path, edit_path, member_path, new_path};
use crate::resource::{compiled, mount_if, route_if, ResourceView};
use crate::table::{claimed, flat, flat_entry, serves, EntryView, FlatRoute};

verus! {

/// The four paths of a name have the length of the name and of what is put
/// around it.
pub proof fn lemma_path_lengths(name: Seq<char>)
    ensures
        collection_path(name).len() == name.len() + 1,
        member_path(name).len() == name.len() + 5,
        new_path(name).len() == name.len() + 5,
        edit_path(name).len() == name.len() + 10,
{
}

/// Where the six parts of a compiled table begin.
pub open spec fn part_start<H>(r: ResourceView<H>, part: int) -> int {
    let c = route_if(collection_path(r.name), r.collection_handlers()).len() as int;
    let mc = mount_if(collection_path(r.name), r.nest_collection).len() as int;
    let n = route_if(new_path(r.name), r.new_handlers()).len() as int;
    let e = route_if(edit_path(r.name), r.edit_handlers()).len() as int;
    let m = route_if(member_path(r.name), r.member_handlers()).len() as int;
    if part == 0 {
        0
    } else if part == 1 {
        c
    } else if part == 2 {
        c + mc
    } else if part == 3 {
        c + mc + n
    } else if part == 4 {
        c + mc + n + e
    } else {
        c + mc + n + e + m
    }
}

/// The part of a compiled table with the given number: nothing or one entry.
pub open spec fn part<H>(r: ResourceView<H>, part: int) -> Seq<EntryView<H>> {
    if part == 0 {
        route_if(collection_path(r.name), r.collection_handlers())
    } else if part == 1 {
        mount_if(collection_path(r.name), r.nest_collection)
    } else if part == 2 {
        route_if(new_path(r.name), r.new_handlers())
    } else if part == 3 {
        route_if(edit_path(r.name), r.edit_handlers())
    } else if part == 4 {
        route_if(member_path(r.name), r.member_handlers())
    } else {
        mount_if(member_path(r.name), r.nest)
    }
}

/// Six lists of at most one item each, in a row: every item of the row is the
/// item of one of the lists, at the place where that list begins.
pub proof fn lemma_row_of_six<T>(a: Seq<T>, b: Seq<T>, c: Seq<T>, d: Seq<T>, e: Seq<T>, f: Seq<T>)
    requires
        a.len() <= 1,
        b.len() <= 1,
        c.len() <= 1,
        d.len() <= 1,
        e.len() <= 1,
        f.len() <= 1,
    ensures
        ({
            let row = a + b + c + d + e + f;
            let sb = a.len() as int;
            let sc = sb + b.len();
            let sd = sc + c.len();
            let se = sd + d.len();
            let sf = se + e.len();
            &&& row.len() == sf + f.len()
            &&& a.len() > 0 ==> row[0] == a[0]
            &&& b.len() > 0 ==> row[sb] == b[0]
            &&& c.len() > 0 ==> row[sc] == c[0]
            &&& d.len() > 0 ==> row[sd] == d[0]
            &&& e.len() > 0 ==> row[se] == e[0]
            &&& f.len() > 0 ==> row[sf] == f[0]
        }),
{
}

/// Every entry of a compiled table is the entry of one of its six parts, and
/// every part that is not empty has its entry in the table.
pub proof fn lemma_compiled_parts<H>(r: ResourceView<H>)
    ensures
        forall|k: int|
            0 <= k < 6 && (#[trigger] part(r, k)).len() > 0 ==> 0 <= part_start(r, k) < compiled(
                r,
            ).len() && compiled(r)[part_start(r, k)] == part(r, k)[0],
        forall|i: int|
            #![trigger compiled(r)[i]]
            0 <= i < compiled(r).len() ==> exists|k: int|
                0 <= k < 6 && (#[trigger] part(r, k)).len() > 0 && part_start(r, k) == i,
        forall|k: int, l: int|
            0 <= k < l < 6 && part(r, k).len() > 0 && part(r, l).len() > 0 ==> part_start(r, k)
                < part_start(r, l),
{
    lemma_row_of_six(part(r, 0), part(r, 1), part(r, 2), part(r, 3), part(r, 4), part(r, 5));
    assert(compiled(r) == part(r, 0) + part(r, 1) + part(r, 2) + part(r, 3) + part(r, 4) + part(
        r,
        5,
    ));
    let t = compiled(r);
    assert forall|i: int| #![trigger t[i]] 0 <= i < t.len() implies exists|k: int|
        0 <= k < 6 && (#[trigger] part(r, k)).len() > 0 && part_start(r, k) == i by {
        if part(r, 0).len() > 0 && part_start(r, 0) == i {
        } else if part(r, 1).len() > 0 && part_start(r, 1) == i {
        } else if part(r, 2).len() > 0 && part_start(r, 2) == i {
        } else if part(r, 3).len() > 0 && part_start(r, 3) == i {
        } else if part(r, 4).len() > 0 && part_start(r, 4) == i {
        } else {
            assert(part(r, 5).len() > 0 && part_start(r, 5) == i);
        }
    }
}

/// The number of the part in which what is attached for an action stands.
pub open spec fn part_of(action: Action) -> int {
    match action {
        Action::Index => 0,
        Action::Create => 0,
        Action::NestCollection => 1,
        Action::New => 2,
        Action::Edit => 3,
        Action::Show => 4,
        Action::Update => 4,
        Action::Destroy => 4,
        Action::Nest => 5,
    }
}

/// The part of an action holds an entry exactly when one of the actions of
/// that part is populated, and the entry is a route at the action's path for a
/// plain action, a mount at it for a nesting action.
pub proof fn lemma_part_of_action<H>(r: ResourceView<H>, action: Action)
    ensures
        r.populated(action) ==> part(r, part_of(action)).len() == 1,
        part(r, part_of(action)).len() <= 1,
        part(r, part_of(action)).len() == 1 ==> exists|b: Action|
            part_of(b) == part_of(action) && #[trigger] r.populated(b),
        part(r, part_of(action)).len() == 1 ==> match part(r, part_of(action))[0] {
            EntryView::Route { path, handlers } => !is_nesting(action) && path == action_path(
                r.name,
                action,
            ) && (forall|m: Method| answers(action, m) ==> handlers.handler(m) == slot(r, action)),
            EntryView::Mount { prefix, table } => is_nesting(action) && prefix == action_path(
                r.name,
                action,
            ) && (if action == Action::Nest {
                r.nest
            } else {
                r.nest_collection
            }) == Some(table),
        },
{
    let k = part_of(action);
    if part(r, k).len() == 1 {
        if k == 0 {
            assert(r.populated(Action::Index) || r.populated(Action::Create));
        } else if k == 1 {
            assert(r.populated(Action::NestCollection));
        } else if k == 2 {
            assert(r.populated(Action::New));
        } else if k == 3 {
            assert(r.populated(Action::Edit));
        } else if k == 4 {
            assert(r.populated(Action::Show) || r.populated(Action::Update) || r.populated(
                Action::Destroy,
            ));
        } else {
            assert(r.populated(Action::Nest));
        }
    }
}

/// The number of the part whose route, or whose mount, is at `path`.
pub open spec fn part_with_path(name: Seq<char>, path: Seq<char>, mount: bool) -> int {
    if mount {
        if path == collection_path(name) {
            1
        } else {
            5
        }
    } else if path == collection_path(name) {
        0
    } else if path == new_path(name) {
        2
    } else if path == edit_path(name) {
        3
    } else {
        4
    }
}

/// A part whose entry is at `path` is the part with that path, and one of its
/// actions is populated.
pub proof fn lemma_route_part<H>(r: ResourceView<H>, k: int, path: Seq<char>)
    requires
        0 <= k < 6,
        part(r, k).len() > 0,
    ensures
        (part(r, k)[0] matches EntryView::Route { path: p, .. } && p == path) ==> k
            == part_with_path(r.name, path, false) && exists|a: Action|
            !is_nesting(a) && #[trigger] r.populated(a) && action_path(r.name, a) == path,
        (part(r, k)[0] matches EntryView::Mount { prefix: p, .. } && p == path) ==> k
            == part_with_path(r.name, path, true) && exists|a: Action|
            is_nesting(a) && #[trigger] r.populated(a) && action_path(r.name, a) == path,
{
    lemma_paths_are_distinct(r.name);
    if k == 0 {
        assert(r.populated(Action::Index) || r.populated(Action::Create));
    } else if k == 1 {
        assert(r.populated(Action::NestCollection));
    } else if k == 2 {
        assert(r.populated(Action::New));
    } else if k == 3 {
        assert(r.populated(Action::Edit));
    } else if k == 4 {
        assert(r.populated(Action::Show) || r.populated(Action::Update) || r.populated(
            Action::Destroy,
        ));
    } else {
        assert(r.populated(Action::Nest));
    }
}

/// The routes of the entry at `at` are among the routes of the table.
pub proof fn lemma_flat_at<H>(table: Seq<EntryView<H>>, at: int, i: int)
    requires
        0 <= at < table.len(),
        0 <= i < flat_entry(table[at]).len(),
    ensures
        exists|k: int|
            0 <= k < flat(table).len() && #[trigger] flat(table)[k] == flat_entry(table[at])[i],
    decreases table.len(),
{
    let init = table.drop_last();
    if at == table.len() - 1 {
        let k = flat(init).len() + i;
        assert(flat(table)[k] == flat_entry(table[at])[i]);
    } else {
        lemma_flat_at(init, at, i);
        let k = choose|k: int|
            0 <= k < flat(init).len() && #[trigger] flat(init)[k] == flat_entry(init[at])[i];
        assert(flat(table)[k] == flat(init)[k]);
    }
}

/// The routes of a table with one more entry are the routes of the table and
/// then those of the entry.
pub proof fn lemma_flat_push<H>(table: Seq<EntryView<H>>, entry: EntryView<H>)
    ensures
        flat(table.push(entry)) == flat(table) + flat_entry(entry),
{
    assert(table.push(entry).drop_last() =~= table);
}

/// The routes of two tables in a row are the routes of the first and then
/// those of the second.
pub proof fn lemma_flat_concat<H>(a: Seq<EntryView<H>>, b: Seq<EntryView<H>>)
    ensures
        flat(a + b) == flat(a) + flat(b),
    decreases b.len(),
{
    if b.len() == 0 {
        assert(a + b =~= a);
        assert(flat(a) + flat(b) =~= flat(a));
    } else {
        lemma_flat_concat(a, b.drop_last());
        assert((a + b).drop_last() =~= a + b.drop_last());
        assert(flat(a) + (flat(b.drop_last()) + flat_entry(b.last())) =~= (flat(a) + flat(
            b.drop_last(),
        )) + flat_entry(b.last()));
    }
}

/// The routes of a table are those before an entry, those of the entry and
/// those after it; and a table with another entry at that place has the
/// routes of that entry at theirs.
pub proof fn lemma_flat_update<H>(table: Seq<EntryView<H>>, i: int, entry: EntryView<H>)
    requires
        0 <= i < table.len(),
    ensures
        flat(table) == flat(table.take(i)) + flat_entry(table[i]) + flat(table.skip(i + 1)),
        flat(table.update(i, entry)) == flat(table.take(i)) + flat_entry(entry) + flat(
            table.skip(i + 1),
        ),
{
    let none = Seq::<EntryView<H>>::empty();
    assert(flat(none) =~= Seq::<FlatRoute<H>>::empty());
    lemma_flat_push(table.take(i), table[i]);
    lemma_flat_push(table.take(i), entry);
    lemma_flat_concat(table.take(i).push(table[i]), table.skip(i + 1));
    lemma_flat_concat(table.take(i).push(entry), table.skip(i + 1));
    assert(table =~= table.take(i).push(table[i]) + table.skip(i + 1));
    assert(table.update(i, entry) =~= table.take(i).push(entry) + table.skip(i + 1));
}

/// What two lists of routes in a row claim of a path is what either claims.
pub proof fn lemma_claimed_concat<H>(a: Seq<FlatRoute<H>>, b: Seq<FlatRoute<H>>, path: Seq<char>)
    ensures
        claimed(a + b, path) == claimed(a, path).spec_union(claimed(b, path)),
    decreases b.len(),
{
    if b.len() == 0 {
        assert(a + b =~= a);
    } else {
        lemma_claimed_concat(a, b.drop_last(), path);
        assert((a + b).drop_last() =~= a + b.drop_last());
    }
}

/// A method is claimed for a path exactly when one of the routes has the path
/// and a handler for the method.
pub proof fn lemma_claimed_has<H>(routes: Seq<FlatRoute<H>>, path: Seq<char>, method: Method)
    ensures
        claimed(routes, path).has(method) <==> exists|i: int|
            0 <= i < routes.len() && (#[trigger] routes[i]).path == path
                && routes[i].handlers.handler(method) is Some,
    decreases routes.len(),
{
    if routes.len() > 0 {
        let init = routes.drop_last();
        lemma_claimed_has(init, path, method);
        if claimed(routes, path).has(method) {
            if claimed(init, path).has(method) {
                let i = choose|i: int|
                    0 <= i < init.len() && (#[trigger] init[i]).path == path
                        && init[i].handlers.handler(method) is Some;
                assert(routes[i] == init[i]);
            } else {
                assert(routes[routes.len() - 1].path == path);
            }
        }
        if exists|i: int|
            0 <= i < routes.len() && (#[trigger] routes[i]).path == path
                && routes[i].handlers.handler(method) is Some {
            let i = choose|i: int|
                0 <= i < routes.len() && (#[trigger] routes[i]).path == path
                    && routes[i].handlers.handler(method) is Some;
            if i < init.len() {
                assert(init[i] == routes[i]);
            }
        }
    }
}

/// Two lists of routes in a row serve what either serves.
pub proof fn lemma_serves_concat<H>(
    a: Seq<FlatRoute<H>>,
    b: Seq<FlatRoute<H>>,
    path: Seq<char>,
    method: Method,
    handler: H,
)
    ensures
        serves(a + b, path, method, handler) <==> serves(a, path, method, handler) || serves(
            b,
            path,
            method,
            handler,
        ),
{
    let s = a + b;
    if serves(s, path, method, handler) {
        let i = choose|i: int|
            0 <= i < s.len() && (#[trigger] s[i]).path == path && s[i].handlers.handler(method)
                == Some(handler);
        if i < a.len() {
            assert(a[i] == s[i]);
        } else {
            assert(b[i - a.len()] == s[i]);
        }
    }
    if serves(a, path, method, handler) {
        let i = choose|i: int|
            0 <= i < a.len() && (#[trigger] a[i]).path == path && a[i].handlers.handler(method)
                == Some(handler);
        assert(s[i] == a[i]);
    }
    if serves(b, path, method, handler) {
        let i = choose|i: int|
            0 <= i < b.len() && (#[trigger] b[i]).path == path && b[i].handlers.handler(method)
                == Some(handler);
        assert(s[i + a.len()] == b[i]);
    }
}

/// What a table claims of a path after an entry has joined it is what it
/// claimed before and what the entry claims.
pub proof fn lemma_absorb_claimed<H>(table: Seq<EntryView<H>>, entry: EntryView<H>, path: Seq<char>)
    ensures
        claimed(flat(absorb(table, entry)), path) == claimed(flat(table), path).spec_union(
            claimed(flat_entry(entry), path),
        ),
{
    lemma_flat_push(table, entry);
    lemma_claimed_concat(flat(table), flat_entry(entry), path);
    if let EntryView::Route { path: p, handlers } = entry {
        if let Some(i) = first_route(table, p) {
            let c = choose|c: int| is_first_route_at(table, c, p);
            assert(c == i);
            let joined = EntryView::Route {
                path: p,
                handlers: table[i]->handlers.spec_union(handlers),
            };
            lemma_flat_update(table, i, joined);
            let x = flat(table.take(i));
            let y = flat(table.skip(i + 1));
            lemma_claimed_concat(x, flat_entry(table[i]), path);
            lemma_claimed_concat(x + flat_entry(table[i]), y, path);
            lemma_claimed_concat(x, flat_entry(joined), path);
            lemma_claimed_concat(x + flat_entry(joined), y, path);
            lemma_claimed_one(flat_entry(table[i])[0], path);
            lemma_claimed_one(flat_entry(joined)[0], path);
            lemma_claimed_one(flat_entry(entry)[0], path);
            assert(flat_entry(table[i]) =~= seq![flat_entry(table[i])[0]]);
            assert(flat_entry(joined) =~= seq![flat_entry(joined)[0]]);
            assert(flat_entry(entry) =~= seq![flat_entry(entry)[0]]);
        }
    }
}

/// What a single route claims of a path: its methods if the path is its own,
/// nothing otherwise.
pub proof fn lemma_claimed_one<H>(route: FlatRoute<H>, path: Seq<char>)
    ensures
        claimed(seq![route], path) == if route.path == path {
            route.handlers.spec_methods()
        } else {
            MethodSet::spec_none()
        },
{
    let one = seq![route];
    assert(one.drop_last() =~= Seq::<FlatRoute<H>>::empty());
    assert(claimed(one.drop_last(), path) == MethodSet::spec_none());
}

/// What a single route serves.
pub proof fn lemma_serves_one<H>(
    route: FlatRoute<H>,
    path: Seq<char>,
    method: Method,
    handler: H,
)
    ensures
        serves(seq![route], path, method, handler) <==> route.path == path
            && route.handlers.handler(method) == Some(handler),
{
    let one = seq![route];
    if route.path == path && route.handlers.handler(method) == Some(handler) {
        assert(one[0] == route);
    }
}

/// An entry that claims nothing the table claims joins the table without
/// hiding anything: afterwards the table serves what it served and what the
/// entry serves.
pub proof fn lemma_absorb_serves<H>(
    table: Seq<EntryView<H>>,
    entry: EntryView<H>,
    path: Seq<char>,
    method: Method,
    handler: H,
)
    requires
        entry matches EntryView::Route { path: p, handlers }
            ==> handlers.spec_methods().spec_intersect(claimed(flat(table), p)).spec_is_empty(),
    ensures
        serves(flat(absorb(table, entry)), path, method, handler) <==> serves(
            flat(table),
            path,
            method,
            handler,
        ) || serves(flat_entry(entry), path, method, handler),
{
    lemma_flat_push(table, entry);
    lemma_serves_concat(flat(table), flat_entry(entry), path, method, handler);
    if let EntryView::Route { path: p, handlers } = entry {
        if let Some(i) = first_route(table, p) {
            let c = choose|c: int| is_first_route_at(table, c, p);
            assert(c == i);
            let old = table[i]->handlers;
            let joined = EntryView::Route { path: p, handlers: old.spec_union(handlers) };
            lemma_flat_update(table, i, joined);
            let x = flat(table.take(i));
            let y = flat(table.skip(i + 1));
            lemma_serves_concat(x, flat_entry(table[i]), path, method, handler);
            lemma_serves_concat(x + flat_entry(table[i]), y, path, method, handler);
            lemma_serves_concat(x, flat_entry(joined), path, method, handler);
            lemma_serves_concat(x + flat_entry(joined), y, path, method, handler);
            lemma_serves_one(flat_entry(table[i])[0], path, method, handler);
            lemma_serves_one(flat_entry(joined)[0], path, method, handler);
            lemma_serves_one(flat_entry(entry)[0], path, method, handler);
            assert(flat_entry(table[i]) =~= seq![flat_entry(table[i])[0]]);
            assert(flat_entry(joined) =~= seq![flat_entry(joined)[0]]);
            assert(flat_entry(entry) =~= seq![flat_entry(entry)[0]]);
            lemma_claimed_concat(x, flat_entry(table[i]), p);
            lemma_claimed_concat(x + flat_entry(table[i]), y, p);
            lemma_claimed_one(flat_entry(table[i])[0], p);
            assert(old.handler(method) is Some ==> claimed(flat(table), p).has(method));
        }
    }
}

/// What a merged table claims of a path is what the two tables claim.
pub proof fn lemma_merged_claimed<H>(a: Seq<EntryView<H>>, b: Seq<EntryView<H>>, path: Seq<char>)
    ensures
        claimed(flat(merged(a, b)), path) == claimed(flat(a), path).spec_union(
            claimed(flat(b), path),
        ),
    decreases b.len(),
{
    if b.len() == 0 {
        assert(flat(b) =~= Seq::<FlatRoute<H>>::empty());
    } else {
        lemma_merged_claimed(a, b.drop_last(), path);
        lemma_absorb_claimed(merged(a, b.drop_last()), b.last(), path);
        lemma_claimed_concat(flat(b.drop_last()), flat_entry(b.last()), path);
    }
}

/// A set of methods that is not empty holds a method.
pub proof fn lemma_some_method(set: MethodSet) -> (method: Method)
    requires
        !set.spec_is_empty(),
    ensures
        set.has(method),
{
    if set.get {
        Method::Get
    } else if set.post {
        Method::Post
    } else if set.put_patch {
        Method::Put
    } else {
        Method::Delete
    }
}

/// A table that was unambiguous stays so when an entry joins it that is
/// unambiguous itself and apart from the table.
pub proof fn lemma_absorb_unambiguous<H>(table: Seq<EntryView<H>>, entry: EntryView<H>)
    requires
        unambiguous(flat(table)),
        unambiguous(flat_entry(entry)),
        apart(flat(table), flat_entry(entry)),
    ensures
        unambiguous(flat(absorb(table, entry))),
{
    let x = flat(table);
    let y = flat_entry(entry);
    lemma_flat_push(table, entry);
    let row = x + y;
    assert forall|i: int, j: int| 0 <= i < j < row.len() implies compatible(
        #[trigger] row[i],
        #[trigger] row[j],
    ) by {
        if j < x.len() {
            assert(compatible(x[i], x[j]));
        } else if i < x.len() {
            assert(compatible(x[i], y[j - x.len()]));
        } else {
            assert(compatible(y[i - x.len()], y[j - x.len()]));
        }
    }
    if let EntryView::Route { path: p, handlers } = entry {
        if let Some(at) = first_route(table, p) {
            let c = choose|c: int| is_first_route_at(table, c, p);
            assert(c == at);
            let old = table[at]->handlers;
            let joined = EntryView::Route { path: p, handlers: old.spec_union(handlers) };
            lemma_flat_update(table, at, joined);
            let before = flat(table.take(at));
            let after = flat(table.skip(at + 1));
            let k = before.len() as int;
            let new = flat(absorb(table, entry));
            assert(new == before + flat_entry(joined) + after);
            assert(x == before + flat_entry(table[at]) + after);
            assert(new.len() == x.len());
            assert(new[k] == flat_entry(joined)[0]);
            assert(x[k] == flat_entry(table[at])[0]);
            assert forall|i: int| 0 <= i < new.len() && i != k implies new[i] == x[i] by {
                if i < k {
                    assert(new[i] == before[i]);
                    assert(x[i] == before[i]);
                } else {
                    assert(new[i] == after[i - k - 1]);
                    assert(x[i] == after[i - k - 1]);
                }
            }
            assert forall|i: int, j: int| 0 <= i < j < new.len() implies compatible(
                #[trigger] new[i],
                #[trigger] new[j],
            ) by {
                assert(compatible(x[i], x[j]));
                assert(compatible(x[i], y[0]));
                assert(compatible(x[j], y[0]));
            }
        }
    }
}

/// The routes of the first entries of a table are the first routes of the
/// table, and those of its last entry are its last routes.
pub proof fn lemma_flat_parts<H>(table: Seq<EntryView<H>>)
    requires
        table.len() > 0,
    ensures
        flat(table) == flat(table.drop_last()) + flat_entry(table.last()),
{
}

/// A merged table is apart from a third table when both of its parts are.
pub proof fn lemma_merged_apart<H>(a: Seq<EntryView<H>>, b: Seq<EntryView<H>>, c: Seq<FlatRoute<H>>)
    requires
        apart(flat(a), c),
        apart(flat(b), c),
    ensures
        apart(flat(merged(a, b)), c),
        apart(c, flat(merged(a, b))),
{
    let m = flat(merged(a, b));
    lemma_apart_means(flat(a), c);
    lemma_apart_means(flat(b), c);
    lemma_apart_means(m, c);
    assert forall|path: Seq<char>|
        (#[trigger] claimed(m, path)).spec_intersect(claimed(c, path)).spec_is_empty() by {
        lemma_merged_claimed(a, b, path);
        assert(claimed(flat(a), path).spec_intersect(claimed(c, path)).spec_is_empty());
        assert(claimed(flat(b), path).spec_intersect(claimed(c, path)).spec_is_empty());
    }
    assert forall|i: int, j: int| 0 <= i < c.len() && 0 <= j < m.len() implies compatible(
        #[trigger] c[i],
        #[trigger] m[j],
    ) by {
        assert(compatible(m[j], c[i]));
    }
}

} // verus!
