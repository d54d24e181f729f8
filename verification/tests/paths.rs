use axum_resource::path::{check_name, check_template, name_char};
use axum_resource::{Paths, ResourceError};

#[test]
fn derive_gives_the_five_templates() {
    let paths = axum_resource::path::derive("users").unwrap();
    assert_eq!(paths.collection, "/users");
    assert_eq!(paths.member, "/users/:id");
    assert_eq!(paths.new, "/users/new");
    assert_eq!(paths.edit, "/users/:id/edit");
    assert_eq!(paths.param, ":id");
}

#[test]
fn derive_twice_gives_the_same_templates() {
    let first = axum_resource::path::derive("tweets").unwrap();
    let second = axum_resource::path::derive("tweets").unwrap();
    assert_eq!(first, second);
}

#[test]
fn derive_substitutes_the_name_in_every_template() {
    let a = axum_resource::path::derive("users").unwrap();
    let b = axum_resource::path::derive("tweets").unwrap();
    assert_ne!(a.collection, b.collection);
    assert_ne!(a.member, b.member);
    assert_ne!(a.new, b.new);
    assert_ne!(a.edit, b.edit);
    assert_eq!(a.param, b.param);
    let swap = |p: &str| p.replacen("users", "tweets", 1);
    assert_eq!(
        b,
        Paths {
            collection: swap(&a.collection),
            member: swap(&a.member),
            new: swap(&a.new),
            edit: swap(&a.edit),
            param: a.param.clone(),
        }
    );
}

#[test]
fn derive_refuses_the_empty_name() {
    assert_eq!(
        axum_resource::path::derive("").err(),
        Some(ResourceError::InvalidResourceName)
    );
}

#[test]
fn derive_refuses_names_that_are_unsafe_in_a_path() {
    let names =
        ["a/b", "/users", ":id", "us ers", "users*", "a?b", "a#b", "caf\u{e9}", "a.b", "a%20"];
    for name in names {
        assert_eq!(
            axum_resource::path::derive(name).err(),
            Some(ResourceError::InvalidResourceName),
            "{}",
            name
        );
    }
}

#[test]
fn derive_takes_letters_digits_dash_and_underscore() {
    let paths = axum_resource::path::derive("Blog-posts_2").unwrap();
    assert_eq!(paths.collection, "/Blog-posts_2");
    assert_eq!(paths.edit, "/Blog-posts_2/:id/edit");
}

#[test]
fn name_characters() {
    for c in ['a', 'z', 'A', 'Z', '0', '9', '-', '_'] {
        assert!(name_char(c), "{}", c);
    }
    for c in ['/', ':', '*', ' ', '.', '~', '`', '{', '@', '[', '\u{e9}', '\n'] {
        assert!(!name_char(c), "{}", c);
    }
}

#[test]
fn names_are_checked_character_by_character() {
    assert!(check_name("users"));
    assert!(check_name("u"));
    assert!(!check_name(""));
    assert!(!check_name("users/"));
    assert!(!check_name("user s"));
}

#[test]
fn templates_are_runs_of_segments() {
    let good =
        ["/users", "/users/:id", "/users/new", "/users/:id/edit", "/:id", "/a/:id/b/:id", "/id"];
    for ok in good {
        assert!(check_template(ok), "{}", ok);
    }
    for bad in [
        "", "/", "users", "/users/", "//users", "/users//new", "/users/:", "/users/:i",
        "/users/:idx",
        "/users/x:id", "/users/:name", "/users/*rest", "/us ers", "/:id:id", ":id",
    ] {
        assert!(!check_template(bad), "{}", bad);
    }
}
