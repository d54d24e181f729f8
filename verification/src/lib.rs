//! Resourceful routes for axum.
//!
//! A [`Resource`] collects at most one handler for each of the conventional
//! actions of a named resource (listing, creation, the two forms, detail view,
//! update and deletion) and at most one nested [`Table`] for each of its two
//! nesting points. [`Resource::compile`] turns what was collected into a
//! [`Table`]: one route per path, each carrying the handlers of the methods it
//! answers, and one mount per nested table.
//!
//! | action | method | path |
//! |---|---|---|
//! | index | `GET` | `/{name}` |
//! | create | `POST` | `/{name}` |
//! | new | `GET` | `/{name}/new` |
//! | show | `GET` | `/{name}/:id` |
//! | edit | `GET` | `/{name}/:id/edit` |
//! | update | `PUT`, `PATCH` | `/{name}/:id` |
//! | destroy | `DELETE` | `/{name}/:id` |
//! | nest | | mounted at `/{name}/:id` |
//! | nest collection | | mounted at `/{name}` |
//!
//! Tables are plain values, whatever the type of the handlers. They can be
//! merged and mounted under a prefix; a second handler for a path and method
//! is always an error, never an overwrite, and nothing else is. A table whose
//! handlers are axum method routers can be installed in an axum router:
//!
//! ```ignore
//! use axum::routing::any;
//! use axum_resource::Resource;
//!
//! let tweets = Resource::named("tweets")?.show(any(show_tweet))?.compile();
//! let router = Resource::named("users")?
//!     .index(any(list_users))?
//!     .create(any(create_user))?
//!     .nest(tweets)?
//!     .into_router()?;
//! ```
//!
//! Every function of the crate is verified with Verus against the contract in
//! its signature, and [`laws`] holds what follows for all names, resources and
//! tables. The calls into axum and matchit go through the wrappers at the
//! start of [`host`], whose contracts are stated without proof.

pub mod error;
pub mod host;
pub mod laws;
pub mod lemmas;
pub mod merge;
pub mod method;
pub mod path;
pub mod resource;
pub mod table;

pub use error::{Action, ResourceError};
pub use host::{Endpoint, HostRouter, Step};
pub use method::{Handlers, Method, MethodSet};
pub use path::Paths;
pub use resource::Resource;
pub use table::{Entry, MountedRoute, Table};
