//! A resource under construction, and its compilation into a table.

use vstd::prelude::*;
use crate::error::{Action, ResourceError};
use crate::method::Handlers;
use crate::path::{
    check_name, collection_path, edit_path, is_template, lemma_paths_are_templates, member_path,
    new_path, valid_name,
};
use crate::table::{lemma_views_push, templates_ok, views, Entry, EntryView, Table};

verus! {

/// A named resource and what has been attached to it so far: at most one
/// handler for each of the seven plain actions, at most one table for each of
/// the two nesting points.
#[derive(Debug)]
pub struct Resource<H> {
    name: String,
    index: Option<H>,
    create: Option<H>,
    new: Option<H>,
    show: Option<H>,
    edit: Option<H>,
    update: Option<H>,
    destroy: Option<H>,
    nest: Option<Table<H>>,
    nest_collection: Option<Table<H>>,
}

/// A resource as a mathematical value.
pub struct ResourceView<H> {
    pub name: Seq<char>,
    pub index: Option<H>,
    pub create: Option<H>,
    pub new: Option<H>,
    pub show: Option<H>,
    pub edit: Option<H>,
    pub update: Option<H>,
    pub destroy: Option<H>,
    pub nest: Option<Seq<EntryView<H>>>,
    pub nest_collection: Option<Seq<EntryView<H>>>,
}

impl<H> ResourceView<H> {
    /// The resource called `name` with nothing attached.
    pub open spec fn bare(name: Seq<char>) -> ResourceView<H> {
        ResourceView {
            name,
            index: None,
            create: None,
            new: None,
            show: None,
            edit: None,
            update: None,
            destroy: None,
            nest: None,
            nest_collection: None,
        }
    }

    /// Whether something is attached for `action`.
    pub open spec fn populated(self, action: Action) -> bool {
        match action {
            Action::Index => self.index is Some,
            Action::Create => self.create is Some,
            Action::New => self.new is Some,
            Action::Show => self.show is Some,
            Action::Edit => self.edit is Some,
            Action::Update => self.update is Some,
            Action::Destroy => self.destroy is Some,
            Action::Nest => self.nest is Some,
            Action::NestCollection => self.nest_collection is Some,
        }
    }

    /// The handlers of the collection path: `GET` lists, `POST` creates.
    pub open spec fn collection_handlers(self) -> Handlers<H> {
        Handlers { get: self.index, post: self.create, put_patch: None, delete: None }
    }

    /// The handlers of the member path: `GET` shows, `PUT` and `PATCH` update,
    /// `DELETE` destroys.
    pub open spec fn member_handlers(self) -> Handlers<H> {
        Handlers { get: self.show, post: None, put_patch: self.update, delete: self.destroy }
    }

    /// The handlers of the path of the form for a new member.
    pub open spec fn new_handlers(self) -> Handlers<H> {
        Handlers { get: self.new, post: None, put_patch: None, delete: None }
    }

    /// The handlers of the path of the form that edits a member.
    pub open spec fn edit_handlers(self) -> Handlers<H> {
        Handlers { get: self.edit, post: None, put_patch: None, delete: None }
    }
}

/// The resource with `handler` attached for a plain action; a nesting action
/// changes nothing here.
pub open spec fn attached<H>(r: ResourceView<H>, action: Action, handler: H) -> ResourceView<H> {
    match action {
        Action::Index => ResourceView { index: Some(handler), ..r },
        Action::Create => ResourceView { create: Some(handler), ..r },
        Action::New => ResourceView { new: Some(handler), ..r },
        Action::Show => ResourceView { show: Some(handler), ..r },
        Action::Edit => ResourceView { edit: Some(handler), ..r },
        Action::Update => ResourceView { update: Some(handler), ..r },
        Action::Destroy => ResourceView { destroy: Some(handler), ..r },
        Action::Nest => r,
        Action::NestCollection => r,
    }
}

/// The resource with `table` attached at a nesting point; a plain action
/// changes nothing here.
pub open spec fn nested<H>(
    r: ResourceView<H>,
    action: Action,
    table: Seq<EntryView<H>>,
) -> ResourceView<H> {
    match action {
        Action::Nest => ResourceView { nest: Some(table), ..r },
        Action::NestCollection => ResourceView { nest_collection: Some(table), ..r },
        _ => r,
    }
}

/// The route for `path`, if any method has a handler; else nothing.
pub open spec fn route_if<H>(path: Seq<char>, handlers: Handlers<H>) -> Seq<EntryView<H>> {
    if handlers.spec_methods().spec_is_empty() {
        Seq::empty()
    } else {
        seq![EntryView::Route { path, handlers }]
    }
}

/// The mount at `prefix`, if there is a table to mount; else nothing.
pub open spec fn mount_if<H>(prefix: Seq<char>, table: Option<Seq<EntryView<H>>>) -> Seq<
    EntryView<H>,
> {
    match table {
        Some(table) => seq![EntryView::Mount { prefix, table }],
        None => Seq::empty(),
    }
}

/// The table of a resource. The entries come in a fixed order, whatever the
/// order in which the resource was filled: the collection route, the mount on
/// the collection, the route of the form for a new member, that of the form
/// that edits one, the member route, the mount on the member. A route is there
/// when one of its actions has a handler, a mount when its table is attached.
pub open spec fn compiled<H>(r: ResourceView<H>) -> Seq<EntryView<H>> {
    route_if(collection_path(r.name), r.collection_handlers()) + mount_if(
        collection_path(r.name),
        r.nest_collection,
    ) + route_if(new_path(r.name), r.new_handlers()) + route_if(
        edit_path(r.name),
        r.edit_handlers(),
    ) + route_if(member_path(r.name), r.member_handlers()) + mount_if(
        member_path(r.name),
        r.nest,
    )
}

impl<H> Resource<H> {
    #[verifier::type_invariant]
    spec fn inv(self) -> bool {
        valid_name(self.name@)
    }

    pub closed spec fn view(self) -> ResourceView<H> {
        ResourceView {
            name: self.name@,
            index: self.index,
            create: self.create,
            new: self.new,
            show: self.show,
            edit: self.edit,
            update: self.update,
            destroy: self.destroy,
            nest: match self.nest {
                Some(table) => Some(table@),
                None => None,
            },
            nest_collection: match self.nest_collection {
                Some(table) => Some(table@),
                None => None,
            },
        }
    }

    /// Starts a resource called `name`, with nothing attached. The name must
    /// be fit for a path: not empty, and made of ASCII letters, digits, `-`
    /// and `_`.
    pub fn named(name: &str) -> (out: Result<Resource<H>, ResourceError>)
        ensures
            match out {
                Ok(r) => valid_name(name@) && r@ == ResourceView::<H>::bare(name@),
                Err(e) => !valid_name(name@) && e == ResourceError::InvalidResourceName,
            },
    {
        if !check_name(name) {
            return Err(ResourceError::InvalidResourceName);
        }
        Ok(
            Resource {
                name: String::from_str(name),
                index: None,
                create: None,
                new: None,
                show: None,
                edit: None,
                update: None,
                destroy: None,
                nest: None,
                nest_collection: None,
            },
        )
    }

    /// The name of the resource.
    pub fn name(&self) -> (out: &str)
        ensures
            out@ == self@.name,
            valid_name(out@),
    {
        proof {
            use_type_invariant(self);
        }
        self.name.as_str()
    }

    /// Whether something is attached for `action`.
    pub fn has(&self, action: Action) -> (out: bool)
        ensures
            out == self@.populated(action),
    {
        match action {
            Action::Index => self.index.is_some(),
            Action::Create => self.create.is_some(),
            Action::New => self.new.is_some(),
            Action::Show => self.show.is_some(),
            Action::Edit => self.edit.is_some(),
            Action::Update => self.update.is_some(),
            Action::Destroy => self.destroy.is_some(),
            Action::Nest => self.nest.is_some(),
            Action::NestCollection => self.nest_collection.is_some(),
        }
    }

    /// Attaches the handler that lists the collection: `GET /{name}`.
    pub fn index(self, handler: H) -> (out: Result<Resource<H>, ResourceError>)
        ensures
            match out {
                Ok(r) => self@.index is None && r@ == attached(self@, Action::Index, handler),
                Err(e) => self@.index is Some && e == ResourceError::DuplicateActionSlot(
                    Action::Index,
                ),
            },
    {
        proof {
            use_type_invariant(&self);
        }
        if self.index.is_some() {
            return Err(ResourceError::DuplicateActionSlot(Action::Index));
        }
        let mut r = self;
        r.index = Some(handler);
        Ok(r)
    }

    /// Attaches the handler that creates a member: `POST /{name}`.
    pub fn create(self, handler: H) -> (out: Result<Resource<H>, ResourceError>)
        ensures
            match out {
                Ok(r) => self@.create is None && r@ == attached(self@, Action::Create, handler),
                Err(e) => self@.create is Some && e == ResourceError::DuplicateActionSlot(
                    Action::Create,
                ),
            },
    {
        proof {
            use_type_invariant(&self);
        }
        if self.create.is_some() {
            return Err(ResourceError::DuplicateActionSlot(Action::Create));
        }
        let mut r = self;
        r.create = Some(handler);
        Ok(r)
    }

    /// Attaches the handler of the form for a new member: `GET /{name}/new`.
    pub fn new(self, handler: H) -> (out: Result<Resource<H>, ResourceError>)
        ensures
            match out {
                Ok(r) => self@.new is None && r@ == attached(self@, Action::New, handler),
                Err(e) => self@.new is Some && e == ResourceError::DuplicateActionSlot(
                    Action::New,
                ),
            },
    {
        proof {
            use_type_invariant(&self);
        }
        if self.new.is_some() {
            return Err(ResourceError::DuplicateActionSlot(Action::New));
        }
        let mut r = self;
        r.new = Some(handler);
        Ok(r)
    }

    /// Attaches the handler that shows a member: `GET /{name}/:id`.
    pub fn show(self, handler: H) -> (out: Result<Resource<H>, ResourceError>)
        ensures
            match out {
                Ok(r) => self@.show is None && r@ == attached(self@, Action::Show, handler),
                Err(e) => self@.show is Some && e == ResourceError::DuplicateActionSlot(
                    Action::Show,
                ),
            },
    {
        proof {
            use_type_invariant(&self);
        }
        if self.show.is_some() {
            return Err(ResourceError::DuplicateActionSlot(Action::Show));
        }
        let mut r = self;
        r.show = Some(handler);
        Ok(r)
    }

    /// Attaches the handler of the form that edits a member:
    /// `GET /{name}/:id/edit`.
    pub fn edit(self, handler: H) -> (out: Result<Resource<H>, ResourceError>)
        ensures
            match out {
                Ok(r) => self@.edit is None && r@ == attached(self@, Action::Edit, handler),
                Err(e) => self@.edit is Some && e == ResourceError::DuplicateActionSlot(
                    Action::Edit,
                ),
            },
    {
        proof {
            use_type_invariant(&self);
        }
        if self.edit.is_some() {
            return Err(ResourceError::DuplicateActionSlot(Action::Edit));
        }
        let mut r = self;
        r.edit = Some(handler);
        Ok(r)
    }

    /// Attaches the handler that updates a member: `PUT` or `PATCH` on
    /// `/{name}/:id`.
    pub fn update(self, handler: H) -> (out: Result<Resource<H>, ResourceError>)
        ensures
            match out {
                Ok(r) => self@.update is None && r@ == attached(self@, Action::Update, handler),
                Err(e) => self@.update is Some && e == ResourceError::DuplicateActionSlot(
                    Action::Update,
                ),
            },
    {
        proof {
            use_type_invariant(&self);
        }
        if self.update.is_some() {
            return Err(ResourceError::DuplicateActionSlot(Action::Update));
        }
        let mut r = self;
        r.update = Some(handler);
        Ok(r)
    }

    /// Attaches the handler that deletes a member: `DELETE /{name}/:id`.
    pub fn destroy(self, handler: H) -> (out: Result<Resource<H>, ResourceError>)
        ensures
            match out {
                Ok(r) => self@.destroy is None && r@ == attached(self@, Action::Destroy, handler),
                Err(e) => self@.destroy is Some && e == ResourceError::DuplicateActionSlot(
                    Action::Destroy,
                ),
            },
    {
        proof {
            use_type_invariant(&self);
        }
        if self.destroy.is_some() {
            return Err(ResourceError::DuplicateActionSlot(Action::Destroy));
        }
        let mut r = self;
        r.destroy = Some(handler);
        Ok(r)
    }

    /// Attaches a table below each member: it is mounted at `/{name}/:id`.
    pub fn nest(self, table: Table<H>) -> (out: Result<Resource<H>, ResourceError>)
        ensures
            match out {
                Ok(r) => self@.nest is None && r@ == nested(self@, Action::Nest, table@),
                Err(e) => self@.nest is Some && e == ResourceError::DuplicateActionSlot(
                    Action::Nest,
                ),
            },
    {
        proof {
            use_type_invariant(&self);
        }
        if self.nest.is_some() {
            return Err(ResourceError::DuplicateActionSlot(Action::Nest));
        }
        let mut r = self;
        r.nest = Some(table);
        Ok(r)
    }

    /// Attaches a table below the collection: it is mounted at `/{name}`.
    pub fn nest_collection(self, table: Table<H>) -> (out: Result<Resource<H>, ResourceError>)
        ensures
            match out {
                Ok(r) => self@.nest_collection is None && r@ == nested(
                    self@,
                    Action::NestCollection,
                    table@,
                ),
                Err(e) => self@.nest_collection is Some && e
                    == ResourceError::DuplicateActionSlot(Action::NestCollection),
            },
    {
        proof {
            use_type_invariant(&self);
        }
        if self.nest_collection.is_some() {
            return Err(ResourceError::DuplicateActionSlot(Action::NestCollection));
        }
        let mut r = self;
        r.nest_collection = Some(table);
        Ok(r)
    }

    /// Compiles the resource into its table. Actions that share a path share
    /// one route, which answers each method with the handler of its own
    /// action. A resource with nothing attached gives the empty table.
    pub fn compile(self) -> (out: Table<H>)
        ensures
            out@ == compiled(self@),
    {
        proof {
            use_type_invariant(&self);
            lemma_paths_are_templates(self.name@);
        }
        let ghost view = self@;
        let Resource {
            name,
            index,
            create,
            new,
            show,
            edit,
            update,
            destroy,
            nest,
            nest_collection,
        } = self;
        let paths = match crate::path::derive(name.as_str()) {
            Ok(paths) => paths,
            Err(_) => {
                return Table::empty();
            },
        };
        let mut entries: Vec<Entry<H>> = Vec::new();
        assert(views(entries@) =~= Seq::<EntryView<H>>::empty());
        push_route(
            &mut entries,
            paths.collection.clone(),
            Handlers { get: index, post: create, put_patch: None, delete: None },
        );
        push_mount(&mut entries, paths.collection, nest_collection);
        push_route(
            &mut entries,
            paths.new,
            Handlers { get: new, post: None, put_patch: None, delete: None },
        );
        push_route(
            &mut entries,
            paths.edit,
            Handlers { get: edit, post: None, put_patch: None, delete: None },
        );
        push_route(
            &mut entries,
            paths.member.clone(),
            Handlers { get: show, post: None, put_patch: update, delete: destroy },
        );
        push_mount(&mut entries, paths.member, nest);
        assert(views(entries@) =~= compiled(view));
        Table::from_entries(entries)
    }
}

/// Adds the route for `path` to the list, unless no method has a handler.
fn push_route<H>(entries: &mut Vec<Entry<H>>, path: String, handlers: Handlers<H>)
    requires
        templates_ok(old(entries)@),
        is_template(path@),
    ensures
        templates_ok(final(entries)@),
        views(final(entries)@) == views(old(entries)@) + route_if(path@, handlers),
{
    if handlers.methods().is_empty() {
        assert(views(entries@) + route_if(path@, handlers) =~= views(entries@));
    } else {
        proof {
            let entry = Entry::Route { path, handlers };
            lemma_views_push(entries@, entry);
            assert(views(entries@).push(entry@) =~= views(entries@) + route_if(path@, handlers));
        }
        entries.push(Entry::Route { path, handlers });
    }
}

/// Adds the mount of `table` at `prefix` to the list, if there is a table.
fn push_mount<H>(entries: &mut Vec<Entry<H>>, prefix: String, table: Option<Table<H>>)
    requires
        templates_ok(old(entries)@),
        is_template(prefix@),
    ensures
        templates_ok(final(entries)@),
        views(final(entries)@) == views(old(entries)@) + mount_if(
            prefix@,
            match table {
                Some(t) => Some(t@),
                None => None,
            },
        ),
{
    match table {
        Some(table) => {
            proof {
                let entry = Entry::Mount { prefix, table };
                lemma_views_push(entries@, entry);
                assert(views(entries@).push(entry@) =~= views(entries@) + mount_if(
                    prefix@,
                    Some(table@),
                ));
            }
            entries.push(Entry::Mount { prefix, table });
        },
        None => {
            assert(views(entries@) + mount_if::<H>(prefix@, None) =~= views(entries@));
        },
    }
}

} // verus!
