//! Putting tables together: merging one into another, mounting one under a
//! prefix of another.

use vstd::prelude::*;
use crate::error::ResourceError;
use crate::path::{check_template, is_template};
use crate::table::{
    claimed_in, clash, clash_free, collect_keys, flat, flat_entry, keys_match, lemma_under_empty,
    lemma_views_index, lemma_views_len, lemma_views_push, reversed, templates_ok, under, views,
    Entry, EntryView, FlatRoute, Key, Table,
};

verus! {

/// Whether the entry at `i` is the route for `path`.
pub open spec fn is_route_at<H>(table: Seq<EntryView<H>>, i: int, path: Seq<char>) -> bool {
    &&& 0 <= i < table.len()
    &&& table[i] matches EntryView::Route { path: p, .. }
    &&& p == path
}

/// Whether `i` is the first entry that is the route for `path`.
pub open spec fn is_first_route_at<H>(table: Seq<EntryView<H>>, i: int, path: Seq<char>) -> bool {
    &&& is_route_at(table, i, path)
    &&& forall|k: int| 0 <= k < i ==> !is_route_at(table, k, path)
}

/// Where the first route for `path` stands among the entries, if there is one.
pub open spec fn first_route<H>(table: Seq<EntryView<H>>, path: Seq<char>) -> Option<int> {
    if exists|i: int| is_first_route_at(table, i, path) {
        Some(choose|i: int| is_first_route_at(table, i, path))
    } else {
        None
    }
}

/// The table after one more entry has joined it. A route joins the first
/// route of the same path, which then answers the methods of both; where there
/// is none, and for a mount, the entry goes to the end.
pub open spec fn absorb<H>(table: Seq<EntryView<H>>, entry: EntryView<H>) -> Seq<EntryView<H>> {
    match entry {
        EntryView::Route { path, handlers } => match first_route(table, path) {
            Some(i) => table.update(
                i,
                EntryView::Route { path, handlers: table[i]->handlers.spec_union(handlers) },
            ),
            None => table.push(entry),
        },
        EntryView::Mount { .. } => table.push(entry),
    }
}

/// The host after the entries of `table` have joined it one by one, in order.
pub open spec fn merged<H>(host: Seq<EntryView<H>>, table: Seq<EntryView<H>>) -> Seq<
    EntryView<H>,
>
    decreases table.len(),
{
    if table.len() == 0 {
        host
    } else {
        absorb(merged(host, table.drop_last()), table.last())
    }
}

/// The first route for a path is where the first such entry is found.
pub proof fn lemma_first_route<H>(table: Seq<EntryView<H>>, path: Seq<char>, i: int)
    requires
        is_first_route_at(table, i, path),
    ensures
        first_route(table, path) == Some(i),
{
    let c = choose|c: int| is_first_route_at(table, c, path);
    if c < i {
        assert(!is_route_at(table, c, path));
    } else if i < c {
        assert(!is_route_at(table, i, path));
    }
}

/// Where the first route for `path` stands in the list, if there is one.
fn find_route<H>(entries: &Vec<Entry<H>>, path: &String) -> (out: Option<usize>)
    ensures
        match out {
            Some(i) => first_route(views(entries@), path@) == Some(i as int) && i
                < entries@.len() && entries@[i as int] is Route,
            None => first_route(views(entries@), path@) is None,
        },
{
    let n = entries.len();
    let mut i: usize = 0;
    proof {
        lemma_views_len(entries@);
    }
    while i < n
        invariant
            n == entries@.len(),
            i <= n,
            views(entries@).len() == n,
            forall|k: int| 0 <= k < i ==> !is_route_at(views(entries@), k, path@),
        decreases n - i,
    {
        proof {
            lemma_views_index(entries@, i as int);
        }
        let found = match &entries[i] {
            Entry::Route { path: p, .. } => *p == *path,
            Entry::Mount { .. } => false,
        };
        if found {
            proof {
                lemma_first_route(views(entries@), path@, i as int);
            }
            return Some(i);
        }
        i = i + 1;
    }
    None
}

/// Lets `entry` join the list.
fn absorb_entry<H>(entries: &mut Vec<Entry<H>>, entry: Entry<H>)
    requires
        templates_ok(old(entries)@),
        is_template(entry.template()),
    ensures
        templates_ok(final(entries)@),
        views(final(entries)@) == absorb(views(old(entries)@), entry@),
{
    let ghost before = entries@;
    proof {
        lemma_views_push(before, entry);
        lemma_views_len(before);
    }
    match entry {
        Entry::Route { path, handlers } => {
            match find_route(entries, &path) {
                Some(i) => {
                    let found = entries.remove(i);
                    match found {
                        Entry::Route { path: p, handlers: h } => {
                            let joined = Entry::Route { path: p, handlers: h.union(handlers) };
                            entries.insert(i, joined);
                            proof {
                                lemma_views_index(before, i as int);
                                lemma_views_len(entries@);
                                let want = absorb(views(before), entry@);
                                assert(want.len() == before.len());
                                assert forall|k: int| 0 <= k < entries@.len() implies views(
                                    entries@,
                                )[k] == want[k] by {
                                    lemma_views_index(entries@, k);
                                    lemma_views_index(before, k);
                                }
                                assert(views(entries@) =~= want);
                                assert forall|k: int| 0 <= k < entries@.len() implies is_template(
                                    (#[trigger] entries@[k]).template(),
                                ) by {
                                    assert(is_template(before[k].template()));
                                }
                            }
                        },
                        Entry::Mount { prefix, table } => {
                            entries.insert(i, Entry::Mount { prefix, table });
                        },
                    }
                },
                None => {
                    entries.push(Entry::Route { path, handlers });
                },
            }
        },
        Entry::Mount { prefix, table } => {
            entries.push(Entry::Mount { prefix, table });
        },
    }
}

impl<H> Table<H> {
    /// Merges `other` into this table. The routes of `other` join one by one,
    /// in order, mounts spelled out. The merge fails at the first of them
    /// that finds its path already routed for some of its methods, be it by
    /// this table or by an earlier route of `other`; the error names that path
    /// and those methods. Nothing is ever overwritten.
    ///
    /// After a merge the entries of this table come first, in their order. A
    /// route of `other` whose path this table already routes has joined that
    /// route; the other entries of `other` follow.
    pub fn merge(self, other: Table<H>) -> (out: Result<Table<H>, ResourceError>)
        ensures
            match out {
                Ok(table) => {
                    &&& clash_free(flat(self@), flat(other@), flat(other@).len() as int)
                    &&& table@ == merged(self@, other@)
                },
                Err(e) => exists|j: int|
                    {
                        &&& 0 <= j < flat(other@).len()
                        &&& clash_free(flat(self@), flat(other@), j)
                        &&& !(#[trigger] clash(flat(self@), flat(other@), j)).spec_is_empty()
                        &&& e.is_collision(
                            flat(other@)[j].path,
                            clash(flat(self@), flat(other@), j),
                        )
                    },
            },
    {
        let ghost host_flat = flat(self@);
        let ghost other_flat = flat(other@);
        let ghost host_view = self@;
        let ghost other_view = other@;
        let mut keys: Vec<Key> = Vec::new();
        let mut added: Vec<Key> = Vec::new();
        proof {
            reveal_strlit("");
            lemma_under_empty(host_flat);
            lemma_under_empty(other_flat);
            assert(""@ =~= Seq::<char>::empty());
            assert(Seq::<FlatRoute<H>>::empty() + host_flat =~= host_flat);
            assert(Seq::<FlatRoute<H>>::empty() + other_flat =~= other_flat);
        }
        collect_keys(self.entries(), "", &mut keys, Ghost(Seq::<FlatRoute<H>>::empty()));
        collect_keys(other.entries(), "", &mut added, Ghost(Seq::<FlatRoute<H>>::empty()));
        let n = added.len();
        let mut j: usize = 0;
        assert(host_flat + other_flat.take(0) =~= host_flat);
        while j < n
            invariant
                n == added@.len(),
                j <= n,
                host_flat == flat(self@),
                other_flat == flat(other@),
                keys_match(added@, other_flat),
                keys_match(keys@, host_flat + other_flat.take(j as int)),
                clash_free(host_flat, other_flat, j as int),
            decreases n - j,
        {
            let claimed = claimed_in::<H>(
                &keys,
                &added[j].path,
                Ghost(host_flat + other_flat.take(j as int)),
            );
            let both = added[j].methods.intersect(claimed);
            if !both.is_empty() {
                assert(both == clash(host_flat, other_flat, j as int));
                return Err(
                    ResourceError::RouteCollision { path: added[j].path.clone(), methods: both },
                );
            }
            keys.push(Key { path: added[j].path.clone(), methods: added[j].methods });
            assert((host_flat + other_flat.take(j as int)).push(other_flat[j as int])
                =~= host_flat + other_flat.take(j as int + 1));
            j = j + 1;
        }
        let mut entries = self.into_entries();
        let incoming = other.into_entries();
        let ghost orig = incoming@;
        let mut rest = reversed(incoming);
        let m = rest.len();
        let mut k: usize = 0;
        proof {
            lemma_views_len(orig);
            assert(other_view.take(0) =~= Seq::<EntryView<H>>::empty());
        }
        while k < m
            invariant
                m == orig.len(),
                k <= m,
                views(orig) == other_view,
                other_view.len() == m,
                templates_ok(orig),
                templates_ok(entries@),
                rest@.len() == m - k,
                forall|i: int| 0 <= i < rest@.len() ==> rest@[i] == orig[m - 1 - i],
                views(entries@) == merged(host_view, other_view.take(k as int)),
            decreases m - k,
        {
            let next = rest.pop();
            match next {
                Some(entry) => {
                    proof {
                        assert(entry == orig[k as int]);
                        lemma_views_index(orig, k as int);
                        assert(other_view.take(k as int + 1).drop_last() =~= other_view.take(
                            k as int,
                        ));
                    }
                    absorb_entry(&mut entries, entry);
                },
                None => {},
            }
            k = k + 1;
        }
        assert(other_view.take(m as int) =~= other_view);
        Ok(Table::from_entries(entries))
    }

    /// Mounts `table` in this table under `prefix`, as its last entry: the
    /// routes of `table` are then reached with `prefix` in front of their
    /// paths. The prefix must be a path template. The mount fails as a merge
    /// does, at the first route of `table` whose path behind the prefix is
    /// already routed for some of its methods.
    pub fn mount(self, prefix: &str, table: Table<H>) -> (out: Result<Table<H>, ResourceError>)
        ensures
            match out {
                Ok(mounted) => {
                    &&& is_template(prefix@)
                    &&& clash_free(
                        flat(self@),
                        under(prefix@, flat(table@)),
                        flat(table@).len() as int,
                    )
                    &&& mounted@ == self@.push(
                        EntryView::Mount { prefix: prefix@, table: table@ },
                    )
                },
                Err(e) => if is_template(prefix@) {
                    exists|j: int|
                        {
                            &&& 0 <= j < flat(table@).len()
                            &&& clash_free(flat(self@), under(prefix@, flat(table@)), j)
                            &&& !(#[trigger] clash(
                                flat(self@),
                                under(prefix@, flat(table@)),
                                j,
                            )).spec_is_empty()
                            &&& e.is_collision(
                                prefix@ + flat(table@)[j].path,
                                clash(flat(self@), under(prefix@, flat(table@)), j),
                            )
                        }
                } else {
                    e == ResourceError::InvalidResourceName
                },
            },
    {
        if !check_template(prefix) {
            return Err(ResourceError::InvalidResourceName);
        }
        let ghost inner = table@;
        let mut single: Vec<Entry<H>> = Vec::new();
        let entry = Entry::Mount { prefix: String::from_str(prefix), table };
        proof {
            lemma_views_push(single@, entry);
            assert(views(single@) =~= Seq::<EntryView<H>>::empty());
        }
        single.push(entry);
        let wrapped = Table::from_entries(single);
        proof {
            let mount = EntryView::Mount { prefix: prefix@, table: inner };
            let none = Seq::<EntryView<H>>::empty();
            assert(wrapped@ =~= seq![mount]);
            assert(wrapped@.drop_last() =~= none);
            assert(wrapped@.last() == mount);
            assert(flat(none) =~= Seq::<FlatRoute<H>>::empty());
            assert(flat(wrapped@) =~= flat(none) + flat_entry(mount));
            assert(flat(wrapped@) =~= under(prefix@, flat(inner)));
            assert(merged(self@, none) == self@);
            assert(merged(self@, wrapped@) == absorb(merged(self@, none), mount));
        }
        self.merge(wrapped)
    }
}

} // verus!
