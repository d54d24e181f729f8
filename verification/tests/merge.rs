use axum_resource::{Entry, Method, MethodSet, Resource, ResourceError, Table};

fn set(get: bool, post: bool, put_patch: bool, delete: bool) -> MethodSet {
    MethodSet { get, post, put_patch, delete }
}

fn shape(table: &Table<&'static str>) -> Vec<(bool, String, MethodSet)> {
    let mut out = Vec::new();
    let mut i = 0;
    while let Some(entry) = table.get(i) {
        match entry {
            Entry::Route { path, handlers } => out.push((false, path.clone(), handlers.methods())),
            Entry::Mount { prefix, table } => {
                out.push((true, prefix.clone(), set(false, false, false, false)));
                out.extend(shape(table));
            }
        }
        i += 1;
    }
    out
}

fn flat(table: Table<&'static str>) -> Vec<(String, String, Vec<(Method, &'static str)>)> {
    let mut out = Vec::new();
    for route in table.into_routes() {
        let mut handlers = Vec::new();
        for m in [Method::Get, Method::Post, Method::Put, Method::Patch, Method::Delete] {
            if let Some(h) = route.handlers.get_handler(m) {
                handlers.push((m, *h));
            }
        }
        out.push((route.prefix, route.path, handlers));
    }
    out
}

fn users_read() -> Table<&'static str> {
    Resource::named("users")
        .unwrap()
        .index("users#index")
        .unwrap()
        .show("users#show")
        .unwrap()
        .compile()
}

fn users_write() -> Table<&'static str> {
    Resource::named("users")
        .unwrap()
        .create("users#create")
        .unwrap()
        .update("users#update")
        .unwrap()
        .compile()
}

fn tweets() -> Table<&'static str> {
    Resource::named("tweets").unwrap().index("tweets#index").unwrap().compile()
}

#[test]
fn merging_the_empty_table_changes_nothing() {
    let empty: Table<&'static str> = Resource::named("widgets").unwrap().compile();
    let merged = users_read().merge(empty).unwrap();
    assert_eq!(shape(&merged), shape(&users_read()));
    assert_eq!(flat(merged), flat(users_read()));
}

#[test]
fn merging_into_the_empty_table_gives_the_table() {
    let merged = Table::empty().merge(users_read()).unwrap();
    assert_eq!(shape(&merged), shape(&users_read()));
    assert_eq!(flat(merged), flat(users_read()));
}

#[test]
fn merge_appends_routes_of_other_paths() {
    let merged = users_read().merge(tweets()).unwrap();
    assert_eq!(
        shape(&merged),
        vec![
            (false, "/users".to_string(), set(true, false, false, false)),
            (false, "/users/:id".to_string(), set(true, false, false, false)),
            (false, "/tweets".to_string(), set(true, false, false, false)),
        ]
    );
}

#[test]
fn merge_joins_routes_of_one_path() {
    let merged = users_read().merge(users_write()).unwrap();
    assert_eq!(
        shape(&merged),
        vec![
            (false, "/users".to_string(), set(true, true, false, false)),
            (false, "/users/:id".to_string(), set(true, false, true, false)),
        ]
    );
    assert_eq!(
        flat(merged),
        vec![
            (
                String::new(),
                "/users".to_string(),
                vec![(Method::Get, "users#index"), (Method::Post, "users#create")]
            ),
            (
                String::new(),
                "/users/:id".to_string(),
                vec![
                    (Method::Get, "users#show"),
                    (Method::Put, "users#update"),
                    (Method::Patch, "users#update")
                ]
            ),
        ]
    );
}

#[test]
fn merge_is_commutative_on_what_is_routed() {
    let mut ab = flat(users_read().merge(tweets()).unwrap());
    let mut ba = flat(tweets().merge(users_read()).unwrap());
    ab.sort_by(|x, y| x.1.cmp(&y.1));
    ba.sort_by(|x, y| x.1.cmp(&y.1));
    assert_eq!(ab, ba);
}

#[test]
fn merge_is_associative() {
    let left = users_read().merge(tweets()).unwrap().merge(users_write()).unwrap();
    let right = users_read().merge(tweets().merge(users_write()).unwrap()).unwrap();
    let mut l = flat(left);
    let mut r = flat(right);
    l.sort_by(|x, y| x.1.cmp(&y.1));
    r.sort_by(|x, y| x.1.cmp(&y.1));
    assert_eq!(l, r);
}

#[test]
fn merge_reports_the_first_collision() {
    let other = Resource::named("users")
        .unwrap()
        .create("other#create")
        .unwrap()
        .show("other#show")
        .unwrap()
        .index("other#index")
        .unwrap()
        .compile();
    let err = users_read().merge(other).err();
    assert_eq!(
        err,
        Some(ResourceError::RouteCollision {
            path: "/users".to_string(),
            methods: set(true, false, false, false)
        })
    );
}

#[test]
fn merge_names_every_method_of_the_collision() {
    let host = Resource::named("users")
        .unwrap()
        .show("a")
        .unwrap()
        .update("b")
        .unwrap()
        .destroy("c")
        .unwrap()
        .compile();
    let other = Resource::named("users")
        .unwrap()
        .index("d")
        .unwrap()
        .update("e")
        .unwrap()
        .destroy("f")
        .unwrap()
        .compile();
    assert_eq!(
        host.merge(other).err(),
        Some(ResourceError::RouteCollision {
            path: "/users/:id".to_string(),
            methods: set(false, false, true, true)
        })
    );
}

#[test]
fn merge_sees_collisions_behind_mounts() {
    let host = Resource::named("users").unwrap().new("users#new").unwrap().compile();
    let inner = Resource::named("new").unwrap().index("new#index").unwrap().compile();
    let other = Resource::named("users").unwrap().nest_collection(inner).unwrap().compile();
    assert_eq!(
        host.merge(other).err(),
        Some(ResourceError::RouteCollision {
            path: "/users/new".to_string(),
            methods: set(true, false, false, false)
        })
    );
}

#[test]
fn merge_sees_collisions_inside_the_merged_table() {
    let inner = Resource::named("new").unwrap().index("new#index").unwrap().compile();
    let table = Resource::named("users")
        .unwrap()
        .new("users#new")
        .unwrap()
        .nest_collection(inner)
        .unwrap()
        .compile();
    assert_eq!(
        Table::empty().merge(table).err(),
        Some(ResourceError::RouteCollision {
            path: "/users/new".to_string(),
            methods: set(true, false, false, false)
        })
    );
}

#[test]
fn mount_adds_a_mount_at_the_end() {
    let mounted = users_read().mount("/api", tweets()).unwrap();
    assert_eq!(mounted.len(), 3);
    match mounted.get(2) {
        Some(Entry::Mount { prefix, table }) => {
            assert_eq!(prefix, "/api");
            assert_eq!(table.len(), 1);
        }
        other => panic!("{:?}", other),
    }
    assert_eq!(
        flat(mounted),
        vec![
            (String::new(), "/users".to_string(), vec![(Method::Get, "users#index")]),
            (String::new(), "/users/:id".to_string(), vec![(Method::Get, "users#show")]),
            ("/api".to_string(), "/tweets".to_string(), vec![(Method::Get, "tweets#index")]),
        ]
    );
}

#[test]
fn mount_refuses_a_prefix_that_is_no_template() {
    for prefix in ["", "/", "api", "/api/", "/a b", "/api/*rest", "/:name"] {
        assert_eq!(
            users_read().mount(prefix, tweets()).err(),
            Some(ResourceError::InvalidResourceName),
            "{}",
            prefix
        );
    }
}

#[test]
fn mount_reports_collisions_with_the_full_path() {
    let host = Resource::named("users").unwrap().edit("users#edit").unwrap().compile();
    let inner = Resource::named("edit")
        .unwrap()
        .index("edit#index")
        .unwrap()
        .create("x")
        .unwrap()
        .compile();
    assert_eq!(
        host.mount("/users/:id", inner).err(),
        Some(ResourceError::RouteCollision {
            path: "/users/:id/edit".to_string(),
            methods: set(true, false, false, false)
        })
    );
}

#[test]
fn into_routes_spells_out_nested_mounts() {
    let deep = Resource::named("likes").unwrap().index("likes#index").unwrap().compile();
    let tweets = Resource::named("tweets")
        .unwrap()
        .show("tweets#show")
        .unwrap()
        .nest(deep)
        .unwrap()
        .compile();
    let users = Resource::named("users")
        .unwrap()
        .index("users#index")
        .unwrap()
        .nest(tweets)
        .unwrap()
        .compile();
    assert_eq!(
        flat(users),
        vec![
            (String::new(), "/users".to_string(), vec![(Method::Get, "users#index")]),
            (
                "/users/:id".to_string(),
                "/tweets/:id".to_string(),
                vec![(Method::Get, "tweets#show")]
            ),
            (
                "/users/:id/tweets/:id".to_string(),
                "/likes".to_string(),
                vec![(Method::Get, "likes#index")]
            ),
        ]
    );
}

#[test]
fn method_sets() {
    let a = set(true, false, true, false);
    let b = set(true, true, false, false);
    assert_eq!(a.union(b), set(true, true, true, false));
    assert_eq!(a.intersect(b), set(true, false, false, false));
    assert!(MethodSet::none().is_empty());
    assert!(!a.is_empty());
    assert!(a.contains(Method::Get));
    assert!(a.contains(Method::Put));
    assert!(a.contains(Method::Patch));
    assert!(!a.contains(Method::Post));
    assert!(!a.contains(Method::Delete));
    assert!(set(false, false, false, true).contains(Method::Delete));
}

#[test]
fn a_table_can_be_cloned_and_mounted_twice() {
    let tweets = tweets();
    let copy = tweets.clone();
    let host = Table::empty().mount("/v1", tweets).unwrap().mount("/v2", copy).unwrap();
    assert_eq!(
        flat(host),
        vec![
            ("/v1".to_string(), "/tweets".to_string(), vec![(Method::Get, "tweets#index")]),
            ("/v2".to_string(), "/tweets".to_string(), vec![(Method::Get, "tweets#index")]),
        ]
    );
}

#[test]
fn a_clone_has_the_entries_of_the_table() {
    let deep = Resource::named("likes").unwrap().index("likes#index").unwrap().compile();
    let table = Resource::named("tweets")
        .unwrap()
        .show("tweets#show")
        .unwrap()
        .update("tweets#update")
        .unwrap()
        .nest(deep)
        .unwrap()
        .compile();
    let copy = table.clone();
    assert_eq!(shape(&copy), shape(&table));
    assert_eq!(flat(copy), flat(table));
}
