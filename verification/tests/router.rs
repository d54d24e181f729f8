use axum::body::Body;
use axum::extract::Path;
use axum::http::{Request, StatusCode};
use axum::routing::{any, MethodRouter};
use axum::Router;
use axum_resource::host::decide;
use axum_resource::{MethodSet, Resource, ResourceError, Step, Table};
use tower::ServiceExt;

fn send(router: &Router, method: &str, uri: &str) -> (StatusCode, String) {
    let request = Request::builder().method(method).uri(uri).body(Body::empty()).unwrap();
    let runtime = tokio::runtime::Builder::new_current_thread().build().unwrap();
    runtime.block_on(async {
        let response = router.clone().oneshot(request).await.unwrap();
        let status = response.status();
        let bytes = hyper::body::to_bytes(response.into_body()).await.unwrap();
        (status, String::from_utf8(bytes.to_vec()).unwrap())
    })
}

fn says(text: &'static str) -> MethodRouter {
    any(move || async move { text })
}

fn ok(text: &str) -> (StatusCode, String) {
    (StatusCode::OK, text.to_string())
}

fn full_users() -> Resource<MethodRouter> {
    Resource::named("users")
        .unwrap()
        .index(says("users#index"))
        .unwrap()
        .create(says("users#create"))
        .unwrap()
        .new(says("users#new"))
        .unwrap()
        .show(says("users#show"))
        .unwrap()
        .edit(says("users#edit"))
        .unwrap()
        .update(says("users#update"))
        .unwrap()
        .destroy(says("users#destroy"))
        .unwrap()
}

#[test]
fn every_action_answers_its_method_and_path() {
    let router = full_users().into_router().unwrap();
    assert_eq!(send(&router, "GET", "/users"), ok("users#index"));
    assert_eq!(send(&router, "POST", "/users"), ok("users#create"));
    assert_eq!(send(&router, "GET", "/users/new"), ok("users#new"));
    assert_eq!(send(&router, "GET", "/users/42"), ok("users#show"));
    assert_eq!(send(&router, "GET", "/users/42/edit"), ok("users#edit"));
    assert_eq!(send(&router, "PUT", "/users/42"), ok("users#update"));
    assert_eq!(send(&router, "PATCH", "/users/42"), ok("users#update"));
    assert_eq!(send(&router, "DELETE", "/users/42"), ok("users#destroy"));
}

#[test]
fn other_methods_and_paths_are_not_routed() {
    let router = full_users().into_router().unwrap();
    assert_eq!(send(&router, "DELETE", "/users").0, StatusCode::METHOD_NOT_ALLOWED);
    assert_eq!(send(&router, "PUT", "/users").0, StatusCode::METHOD_NOT_ALLOWED);
    assert_eq!(send(&router, "POST", "/users/42").0, StatusCode::METHOD_NOT_ALLOWED);
    assert_eq!(send(&router, "POST", "/users/new").0, StatusCode::METHOD_NOT_ALLOWED);
    assert_eq!(send(&router, "GET", "/tweets").0, StatusCode::NOT_FOUND);
    assert_eq!(send(&router, "GET", "/users/42/tweets").0, StatusCode::NOT_FOUND);
}

#[test]
fn show_and_destroy_without_update() {
    let router = Resource::named("users")
        .unwrap()
        .show(says("users#show"))
        .unwrap()
        .destroy(says("users#destroy"))
        .unwrap()
        .into_router()
        .unwrap();
    assert_eq!(send(&router, "GET", "/users/7"), ok("users#show"));
    assert_eq!(send(&router, "DELETE", "/users/7"), ok("users#destroy"));
    assert_eq!(send(&router, "PUT", "/users/7").0, StatusCode::METHOD_NOT_ALLOWED);
    assert_eq!(send(&router, "PATCH", "/users/7").0, StatusCode::METHOD_NOT_ALLOWED);
    assert_eq!(send(&router, "POST", "/users/7").0, StatusCode::METHOD_NOT_ALLOWED);
    assert_eq!(send(&router, "GET", "/users").0, StatusCode::NOT_FOUND);
}

#[test]
fn the_filter_of_the_action_decides_not_the_handler() {
    let router = Resource::named("users")
        .unwrap()
        .index(axum::routing::post(|| async { "users#index" }))
        .unwrap()
        .into_router()
        .unwrap();
    assert_eq!(send(&router, "POST", "/users").0, StatusCode::METHOD_NOT_ALLOWED);
    assert_eq!(send(&router, "GET", "/users").0, StatusCode::METHOD_NOT_ALLOWED);
    let router = Resource::named("users")
        .unwrap()
        .index(axum::routing::get(|| async { "users#index" }))
        .unwrap()
        .into_router()
        .unwrap();
    assert_eq!(send(&router, "GET", "/users"), ok("users#index"));
}

#[test]
fn empty_resource_gives_a_router_without_routes() {
    let router = Resource::<MethodRouter>::named("widgets").unwrap().into_router().unwrap();
    assert_eq!(send(&router, "GET", "/widgets").0, StatusCode::NOT_FOUND);
    assert_eq!(send(&router, "GET", "/").0, StatusCode::NOT_FOUND);
}

#[test]
fn nested_show_sees_both_identifiers() {
    let show = any(|Path(ids): Path<Vec<(String, String)>>| async move {
        let values: Vec<String> = ids.into_iter().map(|(_, v)| v).collect();
        format!("tweets#show {}", values.join(","))
    });
    let tweets = Resource::named("tweets").unwrap().show(show).unwrap().compile();
    let router = Resource::named("users").unwrap().nest(tweets).unwrap().into_router().unwrap();
    assert_eq!(send(&router, "GET", "/users/42/tweets/7"), ok("tweets#show 42,7"));
    assert_eq!(send(&router, "POST", "/users/42/tweets/7").0, StatusCode::METHOD_NOT_ALLOWED);
    assert_eq!(send(&router, "GET", "/users/42").0, StatusCode::NOT_FOUND);
    assert_eq!(send(&router, "GET", "/tweets/7").0, StatusCode::NOT_FOUND);
}

#[test]
fn nested_index_on_the_collection() {
    let things =
        Resource::named("things").unwrap().index(says("users_things#index")).unwrap().compile();
    let router =
        Resource::named("users").unwrap().nest_collection(things).unwrap().into_router().unwrap();
    assert_eq!(send(&router, "GET", "/users/things"), ok("users_things#index"));
    assert_eq!(send(&router, "GET", "/things").0, StatusCode::NOT_FOUND);
}

#[test]
fn nested_handlers_see_the_path_without_the_prefix() {
    let echo = any(|request: Request<Body>| async move { request.uri().path().to_string() });
    let deep = Resource::named("likes").unwrap().index(echo.clone()).unwrap().compile();
    let tweets =
        Resource::named("tweets").unwrap().show(echo.clone()).unwrap()
            .nest(deep).unwrap().compile();
    let router = Resource::named("users")
        .unwrap()
        .index(echo)
        .unwrap()
        .nest(tweets)
        .unwrap()
        .into_router()
        .unwrap();
    assert_eq!(send(&router, "GET", "/users"), ok("/users"));
    assert_eq!(send(&router, "GET", "/users/42/tweets/7"), ok("/tweets/7"));
    assert_eq!(send(&router, "GET", "/users/42/tweets/7/likes"), ok("/likes"));
}

#[test]
fn the_whole_example() {
    let tweets =
        Resource::named("tweets").unwrap().show(says("user_tweets#show")).unwrap().compile();
    let things =
        Resource::named("things").unwrap().index(says("users_things#index")).unwrap().compile();
    let users = full_users().nest(tweets).unwrap().nest_collection(things).unwrap().compile();
    let other = Resource::named("tweets").unwrap().index(says("tweets#index")).unwrap().compile();
    let router = users.merge(other).unwrap().into_router().unwrap();
    assert_eq!(send(&router, "GET", "/users"), ok("users#index"));
    assert_eq!(send(&router, "POST", "/users"), ok("users#create"));
    assert_eq!(send(&router, "GET", "/users/new"), ok("users#new"));
    assert_eq!(send(&router, "GET", "/users/1"), ok("users#show"));
    assert_eq!(send(&router, "GET", "/users/1/edit"), ok("users#edit"));
    assert_eq!(send(&router, "PATCH", "/users/1"), ok("users#update"));
    assert_eq!(send(&router, "DELETE", "/users/1"), ok("users#destroy"));
    assert_eq!(send(&router, "GET", "/users/1/tweets/2"), ok("user_tweets#show"));
    assert_eq!(send(&router, "GET", "/users/things"), ok("users_things#index"));
    assert_eq!(send(&router, "GET", "/tweets"), ok("tweets#index"));
}

#[test]
fn merged_routes_of_one_path_are_installed_together() {
    let read = Resource::named("users").unwrap().index(says("users#index")).unwrap().compile();
    let write = Resource::named("users").unwrap().create(says("users#create")).unwrap().compile();
    let router = read.merge(write).unwrap().into_router().unwrap();
    assert_eq!(send(&router, "GET", "/users"), ok("users#index"));
    assert_eq!(send(&router, "POST", "/users"), ok("users#create"));
}

#[test]
fn mounted_table_is_reached_under_the_prefix() {
    let tweets = Resource::named("tweets").unwrap().index(says("tweets#index")).unwrap().compile();
    let router = Table::empty().mount("/api", tweets).unwrap().into_router().unwrap();
    assert_eq!(send(&router, "GET", "/api/tweets"), ok("tweets#index"));
    assert_eq!(send(&router, "GET", "/tweets").0, StatusCode::NOT_FOUND);
}

#[test]
fn a_path_reached_twice_is_shared_by_its_methods() {
    let inner = Resource::named("new").unwrap().create(says("new#create")).unwrap().compile();
    let router = Resource::named("users")
        .unwrap()
        .new(says("users#new"))
        .unwrap()
        .nest_collection(inner)
        .unwrap()
        .into_router()
        .unwrap();
    assert_eq!(send(&router, "GET", "/users/new"), ok("users#new"));
    assert_eq!(send(&router, "POST", "/users/new"), ok("new#create"));
    assert_eq!(send(&router, "DELETE", "/users/new").0, StatusCode::METHOD_NOT_ALLOWED);
}

#[test]
fn a_shared_path_is_stripped_for_the_mounted_route_only() {
    let echo = any(|request: Request<Body>| async move { request.uri().path().to_string() });
    let inner = Resource::named("new").unwrap().create(echo.clone()).unwrap().compile();
    let router = Resource::named("users")
        .unwrap()
        .new(echo)
        .unwrap()
        .nest_collection(inner)
        .unwrap()
        .into_router()
        .unwrap();
    assert_eq!(send(&router, "GET", "/users/new"), ok("/users/new"));
    assert_eq!(send(&router, "POST", "/users/new"), ok("/new"));
}

#[test]
fn two_tables_under_one_prefix_share_their_paths() {
    let read = Resource::named("users").unwrap().index(says("read#index")).unwrap().compile();
    let write = Resource::named("users").unwrap().create(says("write#create")).unwrap().compile();
    let router = Table::empty()
        .mount("/users", read)
        .unwrap()
        .mount("/users", write)
        .unwrap()
        .into_router()
        .unwrap();
    assert_eq!(send(&router, "GET", "/users/users"), ok("read#index"));
    assert_eq!(send(&router, "POST", "/users/users"), ok("write#create"));
    assert_eq!(send(&router, "PUT", "/users/users").0, StatusCode::METHOD_NOT_ALLOWED);
}

#[test]
fn a_method_asked_for_twice_is_not_installed() {
    let inner = Resource::named("new")
        .unwrap()
        .index(says("new#index"))
        .unwrap()
        .create(says("new#create"))
        .unwrap()
        .compile();
    let table = Resource::named("users")
        .unwrap()
        .new(says("users#new"))
        .unwrap()
        .nest_collection(inner)
        .unwrap()
        .compile();
    assert_eq!(
        table.into_router().err(),
        Some(ResourceError::RouteCollision {
            path: "/users/new".to_string(),
            methods: MethodSet { get: true, post: false, put_patch: false, delete: false },
        })
    );
}

#[test]
fn update_is_behind_put_and_patch_and_nothing_else() {
    let router = Resource::named("users")
        .unwrap()
        .update(says("users#update"))
        .unwrap()
        .show(says("users#show"))
        .unwrap()
        .into_router()
        .unwrap();
    assert_eq!(send(&router, "PUT", "/users/1"), ok("users#update"));
    assert_eq!(send(&router, "PATCH", "/users/1"), ok("users#update"));
    assert_eq!(send(&router, "GET", "/users/1"), ok("users#show"));
    assert_eq!(send(&router, "DELETE", "/users/1").0, StatusCode::METHOD_NOT_ALLOWED);
}

#[test]
fn decide_stops_on_a_method_that_is_routed_already() {
    let set = |get, post, put_patch, delete| MethodSet { get, post, put_patch, delete };
    let methods = set(true, true, false, false);
    let claimed = set(true, false, true, false);
    for bits in 0u32..16 {
        let on = |k: u32| bits & (1 << k) != 0;
        assert_eq!(
            decide(methods, claimed, on(0), on(1), on(2), on(3)),
            Step::Clash(set(true, false, false, false))
        );
    }
}

#[test]
fn decide_follows_the_matcher_where_nothing_clashes() {
    let set = |get, post, put_patch, delete| MethodSet { get, post, put_patch, delete };
    let methods = set(false, true, false, false);
    let claimed = set(true, false, false, false);
    // registered, mounted, alone, accepted
    assert_eq!(decide(methods, claimed, true, false, true, true), Step::Join);
    assert_eq!(decide(methods, claimed, true, false, false, false), Step::Join);
    assert_eq!(decide(methods, claimed, true, true, true, false), Step::Join);
    assert_eq!(decide(methods, claimed, true, true, false, true), Step::Refused);
    assert_eq!(decide(methods, claimed, false, false, true, true), Step::Register);
    assert_eq!(decide(methods, claimed, false, false, false, true), Step::Register);
    assert_eq!(decide(methods, claimed, false, false, true, false), Step::Refused);
    assert_eq!(decide(methods, claimed, false, true, true, true), Step::Register);
    assert_eq!(decide(methods, claimed, false, true, false, true), Step::Refused);
    assert_eq!(decide(methods, claimed, false, true, true, false), Step::Refused);
    let nothing = set(false, false, false, false);
    assert_eq!(decide(methods, nothing, false, false, true, true), Step::Register);
    assert_eq!(decide(nothing, claimed, true, false, true, true), Step::Join);
}

#[test]
fn resource_builds_the_router_of_what_the_closure_attached() {
    let router = axum_resource::host::resource("users", |users| {
        users.index(says("users#index"))?.destroy(says("users#destroy"))
    })
    .unwrap();
    assert_eq!(send(&router, "GET", "/users"), ok("users#index"));
    assert_eq!(send(&router, "DELETE", "/users/3"), ok("users#destroy"));
    assert_eq!(send(&router, "GET", "/users/3").0, StatusCode::METHOD_NOT_ALLOWED);
}

#[test]
fn resource_hands_the_closure_a_bare_resource_of_that_name() {
    let router = axum_resource::host::resource("widgets", |widgets| {
        assert_eq!(widgets.name(), "widgets");
        assert!(!widgets.has(axum_resource::Action::Index));
        Ok(widgets)
    })
    .unwrap();
    assert_eq!(send(&router, "GET", "/widgets").0, StatusCode::NOT_FOUND);
}

#[test]
fn resource_refuses_a_bad_name() {
    let out = axum_resource::host::resource("a/b", |r| Ok(r));
    assert_eq!(out.err(), Some(ResourceError::InvalidResourceName));
}

#[test]
fn resource_passes_on_the_error_of_the_closure() {
    let out = axum_resource::host::resource("users", |users| {
        users.show(says("a"))?.show(says("b"))
    });
    assert_eq!(
        out.err(),
        Some(ResourceError::DuplicateActionSlot(axum_resource::Action::Show))
    );
}

#[test]
fn deeper_routes_are_nested_under_all_their_prefixes() {
    let likes = Resource::named("likes").unwrap().create(says("likes#create")).unwrap().compile();
    let tweets = Resource::named("tweets").unwrap().nest(likes).unwrap().compile();
    let router = Resource::named("users").unwrap().nest(tweets).unwrap().into_router().unwrap();
    assert_eq!(send(&router, "POST", "/users/1/tweets/2/likes"), ok("likes#create"));
    assert_eq!(send(&router, "GET", "/users/1/tweets/2/likes").0, StatusCode::METHOD_NOT_ALLOWED);
    assert_eq!(send(&router, "POST", "/tweets/2/likes").0, StatusCode::NOT_FOUND);
}

#[test]
fn a_cloned_table_serves_under_every_mount() {
    let tweets = Resource::named("tweets").unwrap().index(says("tweets#index")).unwrap().compile();
    let copy = tweets.clone();
    let router = Table::empty()
        .mount("/v1", tweets)
        .unwrap()
        .mount("/v2", copy)
        .unwrap()
        .into_router()
        .unwrap();
    assert_eq!(send(&router, "GET", "/v1/tweets"), ok("tweets#index"));
    assert_eq!(send(&router, "GET", "/v2/tweets"), ok("tweets#index"));
}
