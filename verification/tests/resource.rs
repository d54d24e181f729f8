use axum_resource::{Action, Entry, Method, MethodSet, Resource, ResourceError, Table};

fn route_at<'a>(table: &'a Table<&'static str>, index: usize) -> (&'a str, MethodSet) {
    match table.get(index) {
        Some(Entry::Route { path, handlers }) => (path.as_str(), handlers.methods()),
        other => panic!("no route at {}: {:?}", index, other),
    }
}

fn mount_at<'a>(
    table: &'a Table<&'static str>,
    index: usize,
) -> (&'a str, &'a Table<&'static str>) {
    match table.get(index) {
        Some(Entry::Mount { prefix, table }) => (prefix.as_str(), table),
        other => panic!("no mount at {}: {:?}", index, other),
    }
}

fn handler_at(table: &Table<&'static str>, index: usize, method: Method) -> Option<&'static str> {
    match table.get(index) {
        Some(Entry::Route { handlers, .. }) => handlers.get_handler(method).copied(),
        other => panic!("no route at {}: {:?}", index, other),
    }
}

fn set(get: bool, post: bool, put_patch: bool, delete: bool) -> MethodSet {
    MethodSet { get, post, put_patch, delete }
}

#[test]
fn named_keeps_the_name() {
    let users: Resource<&'static str> = Resource::named("users").unwrap();
    assert_eq!(users.name(), "users");
    for action in [
        Action::Index,
        Action::Create,
        Action::New,
        Action::Show,
        Action::Edit,
        Action::Update,
        Action::Destroy,
        Action::Nest,
        Action::NestCollection,
    ] {
        assert!(!users.has(action));
    }
}

#[test]
fn named_refuses_bad_names() {
    assert_eq!(Resource::<u8>::named("").err(), Some(ResourceError::InvalidResourceName));
    assert_eq!(Resource::<u8>::named("a/b").err(), Some(ResourceError::InvalidResourceName));
    assert_eq!(Resource::<u8>::named(":id").err(), Some(ResourceError::InvalidResourceName));
    assert_eq!(Resource::<u8>::named("a b").err(), Some(ResourceError::InvalidResourceName));
}

#[test]
fn empty_resource_compiles_to_empty_table() {
    let table: Table<&'static str> = Resource::named("widgets").unwrap().compile();
    assert_eq!(table.len(), 0);
    assert!(table.is_empty());
    assert!(table.get(0).is_none());
}

#[test]
fn setters_fill_their_own_slot() {
    let r = Resource::named("users").unwrap().show("show").unwrap();
    assert!(r.has(Action::Show));
    assert!(!r.has(Action::Index));
    assert!(!r.has(Action::Update));
    assert!(!r.has(Action::Destroy));
    let r = r.nest(Table::empty()).unwrap();
    assert!(r.has(Action::Nest));
    assert!(!r.has(Action::NestCollection));
}

#[test]
fn full_resource_compiles_in_the_fixed_order() {
    let tweets = Resource::named("tweets").unwrap().show("tweets#show").unwrap().compile();
    let things = Resource::named("things").unwrap().index("things#index").unwrap().compile();
    let table = Resource::named("users")
        .unwrap()
        .nest(tweets)
        .unwrap()
        .destroy("destroy")
        .unwrap()
        .update("update")
        .unwrap()
        .edit("edit")
        .unwrap()
        .show("show")
        .unwrap()
        .new("new")
        .unwrap()
        .nest_collection(things)
        .unwrap()
        .create("create")
        .unwrap()
        .index("index")
        .unwrap()
        .compile();
    assert_eq!(table.len(), 6);
    assert_eq!(route_at(&table, 0), ("/users", set(true, true, false, false)));
    assert_eq!(handler_at(&table, 0, Method::Get), Some("index"));
    assert_eq!(handler_at(&table, 0, Method::Post), Some("create"));
    assert_eq!(handler_at(&table, 0, Method::Put), None);
    assert_eq!(handler_at(&table, 0, Method::Delete), None);
    let (prefix, nested) = mount_at(&table, 1);
    assert_eq!(prefix, "/users");
    assert_eq!(nested.len(), 1);
    assert_eq!(route_at(nested, 0), ("/things", set(true, false, false, false)));
    assert_eq!(route_at(&table, 2), ("/users/new", set(true, false, false, false)));
    assert_eq!(handler_at(&table, 2, Method::Get), Some("new"));
    assert_eq!(route_at(&table, 3), ("/users/:id/edit", set(true, false, false, false)));
    assert_eq!(handler_at(&table, 3, Method::Get), Some("edit"));
    assert_eq!(route_at(&table, 4), ("/users/:id", set(true, false, true, true)));
    assert_eq!(handler_at(&table, 4, Method::Get), Some("show"));
    assert_eq!(handler_at(&table, 4, Method::Put), Some("update"));
    assert_eq!(handler_at(&table, 4, Method::Patch), Some("update"));
    assert_eq!(handler_at(&table, 4, Method::Delete), Some("destroy"));
    assert_eq!(handler_at(&table, 4, Method::Post), None);
    let (prefix, nested) = mount_at(&table, 5);
    assert_eq!(prefix, "/users/:id");
    assert_eq!(route_at(nested, 0), ("/tweets/:id", set(true, false, false, false)));
    assert!(table.get(6).is_none());
}

#[test]
fn order_of_assignment_does_not_matter() {
    let a = Resource::named("users")
        .unwrap()
        .index("i")
        .unwrap()
        .show("s")
        .unwrap()
        .new("n")
        .unwrap()
        .compile();
    let b = Resource::named("users")
        .unwrap()
        .new("n")
        .unwrap()
        .show("s")
        .unwrap()
        .index("i")
        .unwrap()
        .compile();
    assert_eq!(a.len(), 3);
    assert_eq!(b.len(), 3);
    for k in 0..3 {
        assert_eq!(route_at(&a, k), route_at(&b, k));
        assert_eq!(handler_at(&a, k, Method::Get), handler_at(&b, k, Method::Get));
    }
}

#[test]
fn show_and_destroy_share_the_member_route() {
    let table = Resource::named("users")
        .unwrap()
        .show("show")
        .unwrap()
        .destroy("destroy")
        .unwrap()
        .compile();
    assert_eq!(table.len(), 1);
    assert_eq!(route_at(&table, 0), ("/users/:id", set(true, false, false, true)));
    assert_eq!(handler_at(&table, 0, Method::Get), Some("show"));
    assert_eq!(handler_at(&table, 0, Method::Delete), Some("destroy"));
    assert_eq!(handler_at(&table, 0, Method::Put), None);
    assert_eq!(handler_at(&table, 0, Method::Patch), None);
    assert_eq!(handler_at(&table, 0, Method::Post), None);
}

#[test]
fn every_subset_of_the_nine_actions_compiles_to_its_paths() {
    for bits in 0u32..512 {
        let on = |k: u32| bits & (1 << k) != 0;
        let mut r: Resource<&'static str> = Resource::named("users").unwrap();
        if on(8) {
            r = r.nest(Table::empty()).unwrap();
        }
        if on(6) {
            r = r.destroy("destroy").unwrap();
        }
        if on(5) {
            r = r.update("update").unwrap();
        }
        if on(4) {
            r = r.edit("edit").unwrap();
        }
        if on(3) {
            r = r.show("show").unwrap();
        }
        if on(7) {
            r = r.nest_collection(Table::empty()).unwrap();
        }
        if on(2) {
            r = r.new("new").unwrap();
        }
        if on(1) {
            r = r.create("create").unwrap();
        }
        if on(0) {
            r = r.index("index").unwrap();
        }
        let table = r.compile();
        let mut want: Vec<(bool, &str, MethodSet)> = Vec::new();
        if on(0) || on(1) {
            want.push((false, "/users", set(on(0), on(1), false, false)));
        }
        if on(7) {
            want.push((true, "/users", set(false, false, false, false)));
        }
        if on(2) {
            want.push((false, "/users/new", set(true, false, false, false)));
        }
        if on(4) {
            want.push((false, "/users/:id/edit", set(true, false, false, false)));
        }
        if on(3) || on(5) || on(6) {
            want.push((false, "/users/:id", set(on(3), false, on(5), on(6))));
        }
        if on(8) {
            want.push((true, "/users/:id", set(false, false, false, false)));
        }
        assert_eq!(table.len(), want.len(), "{:09b}", bits);
        for (k, w) in want.iter().enumerate() {
            let got = match table.get(k) {
                Some(Entry::Route { path, handlers }) => (false, path.as_str(), handlers.methods()),
                Some(Entry::Mount { prefix, table }) => {
                    assert!(table.is_empty());
                    (true, prefix.as_str(), set(false, false, false, false))
                }
                None => panic!("no entry at {}", k),
            };
            assert_eq!(got, *w, "{:09b}", bits);
        }
    }
}

#[test]
fn nesting_points_compile_to_mounts() {
    let inner: Table<&'static str> = Table::empty();
    let table = Resource::named("users").unwrap().nest(inner).unwrap().compile();
    assert_eq!(table.len(), 1);
    let (prefix, nested) = mount_at(&table, 0);
    assert_eq!(prefix, "/users/:id");
    assert!(nested.is_empty());
    let inner: Table<&'static str> = Table::empty();
    let table = Resource::named("users").unwrap().nest_collection(inner).unwrap().compile();
    assert_eq!(table.len(), 1);
    let (prefix, nested) = mount_at(&table, 0);
    assert_eq!(prefix, "/users");
    assert!(nested.is_empty());
}

#[test]
fn second_assignment_is_refused_for_every_action() {
    let dup = |a: Action| Some(ResourceError::DuplicateActionSlot(a));
    let base = || Resource::<&'static str>::named("users").unwrap();
    assert_eq!(base().index("a").unwrap().index("b").err(), dup(Action::Index));
    assert_eq!(base().create("a").unwrap().create("b").err(), dup(Action::Create));
    assert_eq!(base().new("a").unwrap().new("b").err(), dup(Action::New));
    assert_eq!(base().show("a").unwrap().show("b").err(), dup(Action::Show));
    assert_eq!(base().edit("a").unwrap().edit("b").err(), dup(Action::Edit));
    assert_eq!(base().update("a").unwrap().update("b").err(), dup(Action::Update));
    assert_eq!(base().destroy("a").unwrap().destroy("b").err(), dup(Action::Destroy));
    assert_eq!(
        base().nest(Table::empty()).unwrap().nest(Table::empty()).err(),
        dup(Action::Nest)
    );
    assert_eq!(
        base().nest_collection(Table::empty()).unwrap().nest_collection(Table::empty()).err(),
        dup(Action::NestCollection)
    );
}

#[test]
fn second_assignment_does_not_win() {
    let first = Resource::named("users").unwrap().index("first").unwrap();
    assert!(first.index("second").is_err());
    let kept = Resource::named("users").unwrap().index("first").unwrap().create("c").unwrap();
    let table = kept.compile();
    assert_eq!(handler_at(&table, 0, Method::Get), Some("first"));
}

#[test]
fn assignment_to_one_slot_leaves_the_others_free() {
    let r = Resource::named("users").unwrap().index("a").unwrap();
    let r = r.create("b").unwrap().show("c").unwrap().update("d").unwrap();
    assert!(r.destroy("e").is_ok());
}
