//! What holds of paths, of compilation and of merging, whatever the name, the
//! resource and the tables. Each law is stated as a proof function.

use vstd::prelude::*;
use crate::error::Action;
use crate::lemmas::{
    lemma_absorb_unambiguous, lemma_claimed_has, lemma_compiled_parts, lemma_flat_at,
    lemma_flat_parts, lemma_merged_apart, lemma_merged_claimed, lemma_path_lengths,
    lemma_part_of_action, lemma_route_part, lemma_some_method, lemma_absorb_serves,
    lemma_claimed_concat, lemma_serves_concat, part, part_of, part_start, part_with_path,
};
use crate::merge::{first_route, is_first_route_at, is_route_at, lemma_first_route, merged};
use crate::method::Method;
use crate::path::{collection_path, edit_path, member_path, new_path, paths_of};
use crate::resource::{attached, compiled, nested, ResourceView};
use crate::table::{
    claimed, clash, clash_free, flat, flat_entry, provides, EntryView, FlatRoute,
};

verus! {

/// The path that an action is routed on, or the prefix that it mounts at.
pub open spec fn action_path(name: Seq<char>, action: Action) -> Seq<char> {
    match action {
        Action::Index => collection_path(name),
        Action::Create => collection_path(name),
        Action::New => new_path(name),
        Action::Show => member_path(name),
        Action::Edit => edit_path(name),
        Action::Update => member_path(name),
        Action::Destroy => member_path(name),
        Action::Nest => member_path(name),
        Action::NestCollection => collection_path(name),
    }
}

/// Whether the action attaches a table rather than a handler.
pub open spec fn is_nesting(action: Action) -> bool {
    action == Action::Nest || action == Action::NestCollection
}

/// Whether requests with `method` are for `action`, a plain one.
pub open spec fn answers(action: Action, method: Method) -> bool {
    match action {
        Action::Index => method == Method::Get,
        Action::Create => method == Method::Post,
        Action::New => method == Method::Get,
        Action::Show => method == Method::Get,
        Action::Edit => method == Method::Get,
        Action::Update => method == Method::Put || method == Method::Patch,
        Action::Destroy => method == Method::Delete,
        Action::Nest => false,
        Action::NestCollection => false,
    }
}

/// The handler attached for a plain action, if any.
pub open spec fn slot<H>(r: ResourceView<H>, action: Action) -> Option<H> {
    match action {
        Action::Index => r.index,
        Action::Create => r.create,
        Action::New => r.new,
        Action::Show => r.show,
        Action::Edit => r.edit,
        Action::Update => r.update,
        Action::Destroy => r.destroy,
        Action::Nest => None,
        Action::NestCollection => None,
    }
}

/// Whether the entry at `i` is the mount at `prefix`.
pub open spec fn is_mount_at<H>(table: Seq<EntryView<H>>, i: int, prefix: Seq<char>) -> bool {
    &&& 0 <= i < table.len()
    &&& table[i] matches EntryView::Mount { prefix: p, .. }
    &&& p == prefix
}

/// The handler that the route for `path` has for `method`, if the table has
/// such a route and the route such a handler.
pub open spec fn route_handler<H>(
    table: Seq<EntryView<H>>,
    path: Seq<char>,
    method: Method,
) -> Option<H> {
    match first_route(table, path) {
        Some(i) => table[i]->handlers.handler(method),
        None => None,
    }
}

/// The templates of a name are a function of the name, and the name goes
/// into each of them in the same way: the other three continue the collection
/// path, and two names that differ give templates that differ in all four. The
/// parameter is the same for every name.
pub proof fn lemma_paths_follow_the_name(a: Seq<char>, b: Seq<char>)
    ensures
        a == b ==> paths_of(a) == paths_of(b),
        paths_of(a).new == paths_of(a).collection + seq!['/', 'n', 'e', 'w'],
        paths_of(a).member == paths_of(a).collection + seq!['/', ':', 'i', 'd'],
        paths_of(a).edit == paths_of(a).member + seq!['/', 'e', 'd', 'i', 't'],
        paths_of(a).param == paths_of(b).param,
        a != b ==> {
            &&& paths_of(a).collection != paths_of(b).collection
            &&& paths_of(a).member != paths_of(b).member
            &&& paths_of(a).new != paths_of(b).new
            &&& paths_of(a).edit != paths_of(b).edit
        },
{
    assert(member_path(a) =~= collection_path(a) + seq!['/', ':', 'i', 'd']);
    if a != b {
        lemma_path_lengths(a);
        lemma_path_lengths(b);
        if a.len() == b.len() {
            assert(!(a =~= b));
            let i = choose|i: int| 0 <= i < a.len() && a[i] != b[i];
            assert(collection_path(a)[i + 1] == a[i]);
            assert(collection_path(b)[i + 1] == b[i]);
            assert(member_path(a)[i + 1] == a[i]);
            assert(member_path(b)[i + 1] == b[i]);
            assert(new_path(a)[i + 1] == a[i]);
            assert(new_path(b)[i + 1] == b[i]);
            assert(edit_path(a)[i + 1] == a[i]);
            assert(edit_path(b)[i + 1] == b[i]);
        }
    }
}

/// The four paths of one name are four different paths.
pub proof fn lemma_paths_are_distinct(name: Seq<char>)
    ensures
        collection_path(name) != member_path(name),
        collection_path(name) != new_path(name),
        collection_path(name) != edit_path(name),
        member_path(name) != new_path(name),
        member_path(name) != edit_path(name),
        new_path(name) != edit_path(name),
{
    lemma_path_lengths(name);
    let k = name.len() as int;
    assert(member_path(name)[k + 2] == ':');
    assert(new_path(name)[k + 2] == 'n');
}

/// A table compiled from a resource covers exactly the paths of what is
/// attached: it has a route for a path if and only if a plain action with that
/// path has a handler, and a mount at a prefix if and only if the nesting
/// action with that prefix has a table. No two routes have the same path and
/// no two mounts the same prefix.
pub proof fn lemma_compile_covers<H>(r: ResourceView<H>, path: Seq<char>)
    ensures
        (exists|i: int| is_route_at(compiled(r), i, path)) <==> (exists|a: Action|
            !is_nesting(a) && #[trigger] r.populated(a) && action_path(r.name, a) == path),
        (exists|i: int| is_mount_at(compiled(r), i, path)) <==> (exists|a: Action|
            is_nesting(a) && #[trigger] r.populated(a) && action_path(r.name, a) == path),
        forall|i: int, j: int|
            is_route_at(compiled(r), i, path) && is_route_at(compiled(r), j, path) ==> i == j,
        forall|i: int, j: int|
            is_mount_at(compiled(r), i, path) && is_mount_at(compiled(r), j, path) ==> i == j,
{
    let t = compiled(r);
    lemma_compiled_parts(r);
    lemma_paths_are_distinct(r.name);
    lemma_part_of_action(r, Action::Index);
    lemma_part_of_action(r, Action::NestCollection);
    lemma_part_of_action(r, Action::New);
    lemma_part_of_action(r, Action::Edit);
    lemma_part_of_action(r, Action::Show);
    lemma_part_of_action(r, Action::Nest);
    if exists|a: Action|
        !is_nesting(a) && #[trigger] r.populated(a) && action_path(r.name, a) == path {
        let a = choose|a: Action|
            !is_nesting(a) && #[trigger] r.populated(a) && action_path(r.name, a) == path;
        lemma_part_of_action(r, a);
        assert(is_route_at(t, part_start(r, part_of(a)), path));
    }
    if exists|a: Action|
        is_nesting(a) && #[trigger] r.populated(a) && action_path(r.name, a) == path {
        let a = choose|a: Action|
            is_nesting(a) && #[trigger] r.populated(a) && action_path(r.name, a) == path;
        lemma_part_of_action(r, a);
        assert(is_mount_at(t, part_start(r, part_of(a)), path));
    }
    assert forall|i: int| is_route_at(t, i, path) implies (exists|a: Action|
        !is_nesting(a) && #[trigger] r.populated(a) && action_path(r.name, a) == path) && i
        == part_start(r, part_with_path(r.name, path, false)) by {
        let k = choose|k: int|
            0 <= k < 6 && (#[trigger] part(r, k)).len() > 0 && part_start(r, k) == i;
        lemma_route_part(r, k, path);
    }
    assert forall|i: int| is_mount_at(t, i, path) implies (exists|a: Action|
        is_nesting(a) && #[trigger] r.populated(a) && action_path(r.name, a) == path) && i
        == part_start(r, part_with_path(r.name, path, true)) by {
        let k = choose|k: int|
            0 <= k < 6 && (#[trigger] part(r, k)).len() > 0 && part_start(r, k) == i;
        lemma_route_part(r, k, path);
    }
}

/// In a compiled table the method decides which handler answers: the route of
/// an action's path has, for each method of the action, exactly the handler
/// that was attached for that action, and none where nothing was attached. The
/// other actions on the same path make no difference.
pub proof fn lemma_compile_dispatches<H>(r: ResourceView<H>, action: Action, method: Method)
    requires
        !is_nesting(action),
        answers(action, method),
    ensures
        route_handler(compiled(r), action_path(r.name, action), method) == slot(r, action),
{
    let path = action_path(r.name, action);
    let t = compiled(r);
    lemma_compile_covers(r, path);
    lemma_compiled_parts(r);
    lemma_part_of_action(r, action);
    let k = part_of(action);
    if part(r, k).len() == 1 {
        let i = part_start(r, k);
        assert(is_route_at(t, i, path));
        assert(is_first_route_at(t, i, path));
        lemma_first_route(t, path, i);
    } else {
        assert(!r.populated(action));
        if exists|i: int| is_first_route_at(t, i, path) {
            let i = choose|i: int| is_first_route_at(t, i, path);
            assert(is_route_at(t, i, path));
            let l = choose|l: int|
                0 <= l < 6 && (#[trigger] part(r, l)).len() > 0 && part_start(r, l) == i;
            lemma_route_part(r, l, path);
            lemma_paths_are_distinct(r.name);
            assert(t[i] == part(r, l)[0]);
            assert(l == part_with_path(r.name, path, false));
            assert(l == k);
        }
        assert(slot(r, action) is None);
    }
}

/// A resource with nothing attached compiles to the table without entries.
pub proof fn lemma_bare_resource_is_inert<H>(name: Seq<char>)
    ensures
        compiled(ResourceView::<H>::bare(name)) == Seq::<EntryView<H>>::empty(),
{
    assert(compiled(ResourceView::<H>::bare(name)) =~= Seq::<EntryView<H>>::empty());
}

/// Merging a table without entries into a host changes nothing, and so does
/// merging the table of a resource with nothing attached.
pub proof fn lemma_merge_of_nothing<H>(host: Seq<EntryView<H>>, name: Seq<char>)
    ensures
        merged(host, Seq::<EntryView<H>>::empty()) == host,
        merged(host, compiled(ResourceView::<H>::bare(name))) == host,
        flat(compiled(ResourceView::<H>::bare(name))).len() == 0,
{
    lemma_bare_resource_is_inert::<H>(name);
}

/// What a nested table provides, the compiled table provides under the path
/// of the nesting point: under the member path for a table nested below each
/// member, under the collection path for one nested below the collection.
pub proof fn lemma_nesting_composes<H>(
    r: ResourceView<H>,
    action: Action,
    path: Seq<char>,
    method: Method,
    handler: H,
)
    requires
        is_nesting(action),
        match action {
            Action::Nest => r.nest matches Some(table) && provides(table, path, method, handler),
            _ => r.nest_collection matches Some(table) && provides(
                table,
                path,
                method,
                handler,
            ),
        },
    ensures
        provides(compiled(r), action_path(r.name, action) + path, method, handler),
{
    let t = compiled(r);
    let nested = if action == Action::Nest {
        r.nest->0
    } else {
        r.nest_collection->0
    };
    lemma_compiled_parts(r);
    lemma_part_of_action(r, action);
    let at = part_start(r, part_of(action));
    assert(t[at] == part(r, part_of(action))[0]);
    assert(t[at] == EntryView::Mount { prefix: action_path(r.name, action), table: nested });
    let i = choose|i: int|
        0 <= i < flat(nested).len() && (#[trigger] flat(nested)[i]).path == path && flat(
            nested,
        )[i].handlers.handler(method) == Some(handler);
    lemma_flat_at(t, at, i);
    let k = choose|k: int|
        0 <= k < flat(t).len() && #[trigger] flat(t)[k] == flat_entry(t[at])[i];
    assert(flat(t)[k].path == action_path(r.name, action) + path);
}

/// A merge without clash hides nothing and invents nothing: the merged table
/// provides a handler for a path and a method exactly when one of the two
/// tables did.
pub proof fn lemma_merge_unites<H>(
    a: Seq<EntryView<H>>,
    b: Seq<EntryView<H>>,
    path: Seq<char>,
    method: Method,
    handler: H,
)
    requires
        clash_free(flat(a), flat(b), flat(b).len() as int),
    ensures
        provides(merged(a, b), path, method, handler) <==> provides(a, path, method, handler)
            || provides(b, path, method, handler),
    decreases b.len(),
{
    if b.len() == 0 {
        assert(flat(b) =~= Seq::<FlatRoute<H>>::empty());
    } else {
        let init = b.drop_last();
        let last = b.last();
        let j = flat(init).len() as int;
        assert(flat(b) == flat(init) + flat_entry(last));
        assert forall|k: int| 0 <= k < j implies (#[trigger] clash(
            flat(a),
            flat(init),
            k,
        )).spec_is_empty() by {
            assert(flat(init).take(k) =~= flat(b).take(k));
            assert(flat(init)[k] == flat(b)[k]);
            assert(clash(flat(a), flat(b), k).spec_is_empty());
        }
        lemma_merge_unites(a, init, path, method, handler);
        if let EntryView::Route { path: p, handlers } = last {
            lemma_merged_claimed(a, init, p);
            lemma_claimed_concat(flat(a), flat(init), p);
            assert(flat(b).take(j) =~= flat(init));
            assert(flat(b)[j] == flat_entry(last)[0]);
            assert(clash(flat(a), flat(b), j).spec_is_empty());
        }
        lemma_absorb_serves(merged(a, init), last, path, method, handler);
        lemma_serves_concat(flat(init), flat_entry(last), path, method, handler);
    }
}

/// Merging is commutative in what is routed: where both orders go without
/// clash, the two merged tables provide the same handlers.
pub proof fn lemma_merge_commutes<H>(
    a: Seq<EntryView<H>>,
    b: Seq<EntryView<H>>,
    path: Seq<char>,
    method: Method,
    handler: H,
)
    requires
        clash_free(flat(a), flat(b), flat(b).len() as int),
        clash_free(flat(b), flat(a), flat(a).len() as int),
    ensures
        provides(merged(a, b), path, method, handler) <==> provides(
            merged(b, a),
            path,
            method,
            handler,
        ),
{
    lemma_merge_unites(a, b, path, method, handler);
    lemma_merge_unites(b, a, path, method, handler);
}

/// Merging is associative in what is routed: where both groupings go without
/// clash, the two merged tables provide the same handlers.
pub proof fn lemma_merge_associates<H>(
    a: Seq<EntryView<H>>,
    b: Seq<EntryView<H>>,
    c: Seq<EntryView<H>>,
    path: Seq<char>,
    method: Method,
    handler: H,
)
    requires
        clash_free(flat(a), flat(b), flat(b).len() as int),
        clash_free(flat(merged(a, b)), flat(c), flat(c).len() as int),
        clash_free(flat(b), flat(c), flat(c).len() as int),
        clash_free(flat(a), flat(merged(b, c)), flat(merged(b, c)).len() as int),
    ensures
        provides(merged(merged(a, b), c), path, method, handler) <==> provides(
            merged(a, merged(b, c)),
            path,
            method,
            handler,
        ),
{
    lemma_merge_unites(a, b, path, method, handler);
    lemma_merge_unites(merged(a, b), c, path, method, handler);
    lemma_merge_unites(b, c, path, method, handler);
    lemma_merge_unites(a, merged(b, c), path, method, handler);
}

/// Whether two routes can stand in one table: they differ in their paths, or
/// no method has a handler in both.
pub open spec fn compatible<H>(a: FlatRoute<H>, b: FlatRoute<H>) -> bool {
    a.path == b.path ==> a.handlers.spec_methods().spec_intersect(
        b.handlers.spec_methods(),
    ).spec_is_empty()
}

/// Whether no route of `a` and route of `b` have a path and a method in
/// common. Tables whose routes have no path in common are apart.
pub open spec fn apart<H>(a: Seq<FlatRoute<H>>, b: Seq<FlatRoute<H>>) -> bool {
    forall|i: int, j: int|
        0 <= i < a.len() && 0 <= j < b.len() ==> compatible(#[trigger] a[i], #[trigger] b[j])
}

/// Whether no two routes of the list have a path and a method in common.
pub open spec fn unambiguous<H>(routes: Seq<FlatRoute<H>>) -> bool {
    forall|i: int, j: int|
        0 <= i < j < routes.len() ==> compatible(#[trigger] routes[i], #[trigger] routes[j])
}

/// Routes can join a base one after the other without clash exactly when they
/// are apart from the base and unambiguous among themselves.
pub proof fn lemma_clash_free_means<H>(base: Seq<FlatRoute<H>>, added: Seq<FlatRoute<H>>)
    ensures
        clash_free(base, added, added.len() as int) <==> apart(base, added) && unambiguous(added),
{
    if clash_free(base, added, added.len() as int) {
        assert forall|i: int, j: int|
            0 <= i < base.len() && 0 <= j < added.len() implies compatible(
            #[trigger] base[i],
            #[trigger] added[j],
        ) by {
            if !compatible(base[i], added[j]) {
                let m = lemma_some_method(
                    base[i].handlers.spec_methods().spec_intersect(
                        added[j].handlers.spec_methods(),
                    ),
                );
                let before = base + added.take(j);
                assert(before[i] == base[i]);
                lemma_claimed_has(before, added[j].path, m);
                assert(clash(base, added, j).has(m));
            }
        }
        assert forall|i: int, j: int| 0 <= i < j < added.len() implies compatible(
            #[trigger] added[i],
            #[trigger] added[j],
        ) by {
            if !compatible(added[i], added[j]) {
                let m = lemma_some_method(
                    added[i].handlers.spec_methods().spec_intersect(
                        added[j].handlers.spec_methods(),
                    ),
                );
                let before = base + added.take(j);
                assert(before[base.len() + i] == added[i]);
                lemma_claimed_has(before, added[j].path, m);
                assert(clash(base, added, j).has(m));
            }
        }
    }
    if apart(base, added) && unambiguous(added) {
        assert forall|j: int| 0 <= j < added.len() implies (#[trigger] clash(
            base,
            added,
            j,
        )).spec_is_empty() by {
            if !clash(base, added, j).spec_is_empty() {
                let m = lemma_some_method(clash(base, added, j));
                let before = base + added.take(j);
                lemma_claimed_has(before, added[j].path, m);
                let k = choose|k: int|
                    0 <= k < before.len() && (#[trigger] before[k]).path == added[j].path
                        && before[k].handlers.handler(m) is Some;
                if k < base.len() {
                    assert(before[k] == base[k]);
                    assert(compatible(base[k], added[j]));
                } else {
                    assert(before[k] == added[k - base.len()]);
                    assert(compatible(added[k - base.len()], added[j]));
                }
            }
        }
    }
}

/// Lists of routes are apart exactly when no path is claimed for a method by
/// both.
pub proof fn lemma_apart_means<H>(a: Seq<FlatRoute<H>>, b: Seq<FlatRoute<H>>)
    ensures
        apart(a, b) <==> forall|path: Seq<char>|
            (#[trigger] claimed(a, path)).spec_intersect(claimed(b, path)).spec_is_empty(),
{
    if apart(a, b) {
        assert forall|path: Seq<char>|
            (#[trigger] claimed(a, path)).spec_intersect(claimed(b, path)).spec_is_empty() by {
            let both = claimed(a, path).spec_intersect(claimed(b, path));
            if !both.spec_is_empty() {
                let m = lemma_some_method(both);
                lemma_claimed_has(a, path, m);
                lemma_claimed_has(b, path, m);
                let i = choose|i: int|
                    0 <= i < a.len() && (#[trigger] a[i]).path == path && a[i].handlers.handler(m)
                        is Some;
                let j = choose|j: int|
                    0 <= j < b.len() && (#[trigger] b[j]).path == path && b[j].handlers.handler(m)
                        is Some;
                assert(compatible(a[i], b[j]));
            }
        }
    }
    if forall|path: Seq<char>|
        (#[trigger] claimed(a, path)).spec_intersect(claimed(b, path)).spec_is_empty() {
        assert forall|i: int, j: int| 0 <= i < a.len() && 0 <= j < b.len() implies compatible(
            #[trigger] a[i],
            #[trigger] b[j],
        ) by {
            if !compatible(a[i], b[j]) {
                let path = a[i].path;
                let m = lemma_some_method(
                    a[i].handlers.spec_methods().spec_intersect(b[j].handlers.spec_methods()),
                );
                lemma_claimed_has(a, path, m);
                lemma_claimed_has(b, path, m);
                assert(claimed(a, path).spec_intersect(claimed(b, path)).has(m));
            }
        }
    }
}

/// Routes without a path in common are apart.
pub proof fn lemma_other_paths_are_apart<H>(a: Seq<FlatRoute<H>>, b: Seq<FlatRoute<H>>)
    requires
        forall|i: int, j: int|
            0 <= i < a.len() && 0 <= j < b.len() ==> (#[trigger] a[i]).path != (
            #[trigger] b[j]).path,
    ensures
        apart(a, b),
{
}

/// The merge of two unambiguous tables that are apart is unambiguous.
pub proof fn lemma_merged_unambiguous<H>(a: Seq<EntryView<H>>, b: Seq<EntryView<H>>)
    requires
        unambiguous(flat(a)),
        unambiguous(flat(b)),
        apart(flat(a), flat(b)),
    ensures
        unambiguous(flat(merged(a, b))),
    decreases b.len(),
{
    if b.len() > 0 {
        let init = b.drop_last();
        let last = b.last();
        let x = flat(init);
        let y = flat_entry(last);
        lemma_flat_parts(b);
        let fb = flat(b);
        assert forall|i: int, j: int| 0 <= i < j < x.len() implies compatible(
            #[trigger] x[i],
            #[trigger] x[j],
        ) by {
            assert(fb[i] == x[i]);
            assert(fb[j] == x[j]);
        }
        assert forall|i: int, j: int| 0 <= i < j < y.len() implies compatible(
            #[trigger] y[i],
            #[trigger] y[j],
        ) by {
            assert(fb[x.len() + i] == y[i]);
            assert(fb[x.len() + j] == y[j]);
        }
        assert forall|i: int, j: int| 0 <= i < flat(a).len() && 0 <= j < x.len() implies compatible(
            #[trigger] flat(a)[i],
            #[trigger] x[j],
        ) by {
            assert(fb[j] == x[j]);
        }
        lemma_merged_unambiguous(a, init);
        let m = flat(merged(a, init));
        lemma_apart_means(m, y);
        assert forall|path: Seq<char>|
            (#[trigger] claimed(m, path)).spec_intersect(claimed(y, path)).spec_is_empty() by {
            let both = claimed(m, path).spec_intersect(claimed(y, path));
            if !both.spec_is_empty() {
                let method = lemma_some_method(both);
                lemma_merged_claimed(a, init, path);
                lemma_claimed_has(flat(a), path, method);
                lemma_claimed_has(x, path, method);
                lemma_claimed_has(y, path, method);
                let j = choose|j: int|
                    0 <= j < y.len() && (#[trigger] y[j]).path == path && y[j].handlers.handler(
                        method,
                    ) is Some;
                assert(fb[x.len() + j] == y[j]);
                if claimed(flat(a), path).has(method) {
                    let i = choose|i: int|
                        0 <= i < flat(a).len() && (#[trigger] flat(a)[i]).path == path && flat(
                            a,
                        )[i].handlers.handler(method) is Some;
                    assert(compatible(flat(a)[i], fb[x.len() + j]));
                } else {
                    let i = choose|i: int|
                        0 <= i < x.len() && (#[trigger] x[i]).path == path
                            && x[i].handlers.handler(method) is Some;
                    assert(fb[i] == x[i]);
                    assert(compatible(fb[i], fb[x.len() + j]));
                }
            }
        }
        lemma_absorb_unambiguous(merged(a, init), last);
    }
}

/// Merging is commutative over tables that are apart: when each of two tables
/// is unambiguous and no path is routed for a method by both, the merge
/// succeeds in either order and both results provide the same handlers.
pub proof fn lemma_merge_commutes_when_apart<H>(
    a: Seq<EntryView<H>>,
    b: Seq<EntryView<H>>,
    path: Seq<char>,
    method: Method,
    handler: H,
)
    requires
        unambiguous(flat(a)),
        unambiguous(flat(b)),
        apart(flat(a), flat(b)),
    ensures
        clash_free(flat(a), flat(b), flat(b).len() as int),
        clash_free(flat(b), flat(a), flat(a).len() as int),
        provides(merged(a, b), path, method, handler) <==> provides(
            merged(b, a),
            path,
            method,
            handler,
        ),
{
    assert forall|i: int, j: int|
        0 <= i < flat(b).len() && 0 <= j < flat(a).len() implies compatible(
        #[trigger] flat(b)[i],
        #[trigger] flat(a)[j],
    ) by {
        assert(compatible(flat(a)[j], flat(b)[i]));
    }
    lemma_clash_free_means(flat(a), flat(b));
    lemma_clash_free_means(flat(b), flat(a));
    lemma_merge_commutes(a, b, path, method, handler);
}

/// Merging is associative over tables that are apart: when each of three
/// tables is unambiguous and no path is routed for a method by two of them,
/// the merges succeed in either grouping and both results provide the same
/// handlers.
pub proof fn lemma_merge_associates_when_apart<H>(
    a: Seq<EntryView<H>>,
    b: Seq<EntryView<H>>,
    c: Seq<EntryView<H>>,
    path: Seq<char>,
    method: Method,
    handler: H,
)
    requires
        unambiguous(flat(a)),
        unambiguous(flat(b)),
        unambiguous(flat(c)),
        apart(flat(a), flat(b)),
        apart(flat(a), flat(c)),
        apart(flat(b), flat(c)),
    ensures
        clash_free(flat(a), flat(b), flat(b).len() as int),
        clash_free(flat(merged(a, b)), flat(c), flat(c).len() as int),
        clash_free(flat(b), flat(c), flat(c).len() as int),
        clash_free(flat(a), flat(merged(b, c)), flat(merged(b, c)).len() as int),
        provides(merged(merged(a, b), c), path, method, handler) <==> provides(
            merged(a, merged(b, c)),
            path,
            method,
            handler,
        ),
{
    lemma_clash_free_means(flat(a), flat(b));
    lemma_clash_free_means(flat(b), flat(c));
    lemma_merged_apart(a, b, flat(c));
    lemma_clash_free_means(flat(merged(a, b)), flat(c));
    lemma_merged_unambiguous(b, c);
    assert forall|i: int, j: int|
        0 <= i < flat(b).len() && 0 <= j < flat(a).len() implies compatible(
        #[trigger] flat(b)[i],
        #[trigger] flat(a)[j],
    ) by {
        assert(compatible(flat(a)[j], flat(b)[i]));
    }
    assert forall|i: int, j: int|
        0 <= i < flat(c).len() && 0 <= j < flat(a).len() implies compatible(
        #[trigger] flat(c)[i],
        #[trigger] flat(a)[j],
    ) by {
        assert(compatible(flat(a)[j], flat(c)[i]));
    }
    lemma_merged_apart(b, c, flat(a));
    lemma_clash_free_means(flat(a), flat(merged(b, c)));
    lemma_merge_associates(a, b, c, path, method, handler);
}

/// Whether no two routes among the entries of a table have the same path.
pub open spec fn one_route_per_path<H>(table: Seq<EntryView<H>>) -> bool {
    forall|i: int, j: int, path: Seq<char>|
        #![trigger is_route_at(table, i, path), is_route_at(table, j, path)]
        is_route_at(table, i, path) && is_route_at(table, j, path) ==> i == j
}

/// A compiled table has one route per path.
pub proof fn lemma_compile_gives_one_route_per_path<H>(r: ResourceView<H>)
    ensures
        one_route_per_path(compiled(r)),
{
    let t = compiled(r);
    assert forall|i: int, j: int, path: Seq<char>|
        #![trigger is_route_at(t, i, path), is_route_at(t, j, path)]
        is_route_at(t, i, path) && is_route_at(t, j, path) implies i == j by {
        lemma_compile_covers(r, path);
    }
}

/// Where a table has a route for a path, it has a first one.
pub proof fn lemma_first_route_exists<H>(table: Seq<EntryView<H>>, path: Seq<char>, i: int)
    requires
        is_route_at(table, i, path),
    ensures
        first_route(table, path) is Some,
    decreases i,
{
    if exists|k: int| 0 <= k < i && is_route_at(table, k, path) {
        let k = choose|k: int| 0 <= k < i && is_route_at(table, k, path);
        lemma_first_route_exists(table, path, k);
    } else {
        assert(is_first_route_at(table, i, path));
    }
}

/// A merge never makes two routes of one path: the merge of any table into a
/// table with one route per path has one route per path.
pub proof fn lemma_merge_keeps_one_route_per_path<H>(a: Seq<EntryView<H>>, b: Seq<EntryView<H>>)
    requires
        one_route_per_path(a),
    ensures
        one_route_per_path(merged(a, b)),
    decreases b.len(),
{
    if b.len() > 0 {
        lemma_merge_keeps_one_route_per_path(a, b.drop_last());
        let before = merged(a, b.drop_last());
        let entry = b.last();
        let after = merged(a, b);
        assert(after == crate::merge::absorb(before, entry));
        assert forall|i: int, j: int, path: Seq<char>|
            #![trigger is_route_at(after, i, path), is_route_at(after, j, path)]
            is_route_at(after, i, path) && is_route_at(after, j, path) implies i == j by {
            match entry {
                EntryView::Route { path: p, handlers } => {
                    match first_route(before, p) {
                        Some(at) => {
                            let c = choose|c: int| is_first_route_at(before, c, p);
                            assert(c == at);
                            assert(is_route_at(before, i, path));
                            assert(is_route_at(before, j, path));
                        },
                        None => {
                            if i < before.len() && j < before.len() {
                                assert(is_route_at(before, i, path));
                                assert(is_route_at(before, j, path));
                            } else if i < before.len() {
                                assert(is_route_at(before, i, path));
                                lemma_first_route_exists(before, path, i);
                            } else if j < before.len() {
                                assert(is_route_at(before, j, path));
                                lemma_first_route_exists(before, path, j);
                            }
                        },
                    }
                },
                EntryView::Mount { .. } => {
                    assert(is_route_at(before, i, path));
                    assert(is_route_at(before, j, path));
                },
            }
        }
    }
}

/// The order in which a resource is filled makes no difference: what is
/// attached for two different actions, handlers or tables, gives the same
/// resource in either order, and so the same compiled table.
pub proof fn lemma_order_of_assignment<H>(
    r: ResourceView<H>,
    a: Action,
    b: Action,
    x: H,
    y: H,
    t: Seq<EntryView<H>>,
    u: Seq<EntryView<H>>,
)
    requires
        a != b,
    ensures
        attached(attached(r, a, x), b, y) == attached(attached(r, b, y), a, x),
        nested(nested(r, a, t), b, u) == nested(nested(r, b, u), a, t),
        nested(attached(r, a, x), b, u) == attached(nested(r, b, u), a, x),
        compiled(attached(attached(r, a, x), b, y)) == compiled(attached(attached(r, b, y), a, x)),
        compiled(nested(nested(r, a, t), b, u)) == compiled(nested(nested(r, b, u), a, t)),
        compiled(nested(attached(r, a, x), b, u)) == compiled(attached(nested(r, b, u), a, x)),
{
}

} // verus!
