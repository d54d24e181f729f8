//! Path templates and how they follow from a resource's name.
//!
//! A template is a run of segments, each a `/` followed either by a literal or
//! by the parameter `:id`. The five templates of a resource are built from its
//! name alone, by one substitution.

use vstd::prelude::*;
use crate::error::ResourceError;

verus! {

/// The characters a resource name is made of: ASCII letters and digits, `-`
/// and `_`.
pub open spec fn is_name_char(c: char) -> bool {
    let n = c as u32;
    ||| 0x61 <= n <= 0x7a
    ||| 0x41 <= n <= 0x5a
    ||| 0x30 <= n <= 0x39
    ||| c == '-'
    ||| c == '_'
}

/// A name can stand in a path when it is not empty and every character of it
/// is a name character.
pub open spec fn valid_name(name: Seq<char>) -> bool {
    &&& name.len() > 0
    &&& forall|i: int| 0 <= i < name.len() ==> is_name_char(#[trigger] name[i])
}

/// The parameter that stands for a member's identifier, as it is written in a
/// template.
pub open spec fn param_marker() -> Seq<char> {
    seq![':', 'i', 'd']
}

/// What the character at `i` must look like in a template: a `/` opens a
/// segment that is not empty, a `:` opens the segment `:id`, and anything else
/// is a name character.
pub open spec fn template_at(s: Seq<char>, i: int) -> bool {
    if s[i] == '/' {
        i + 1 < s.len() && s[i + 1] != '/'
    } else if s[i] == ':' {
        &&& i > 0
        &&& s[i - 1] == '/'
        &&& i + 2 < s.len()
        &&& s[i + 1] == 'i'
        &&& s[i + 2] == 'd'
        &&& (i + 3 == s.len() || s[i + 3] == '/')
    } else {
        is_name_char(s[i])
    }
}

/// A path template: one or more segments, each a `/` followed by a literal of
/// name characters or by `:id`.
pub open spec fn is_template(s: Seq<char>) -> bool {
    &&& s.len() > 0
    &&& s[0] == '/'
    &&& forall|i: int| 0 <= i < s.len() ==> #[trigger] template_at(s, i)
}

/// `/{name}`
pub open spec fn collection_path(name: Seq<char>) -> Seq<char> {
    seq!['/'] + name
}

/// `/{name}/:id`
pub open spec fn member_path(name: Seq<char>) -> Seq<char> {
    collection_path(name) + seq!['/'] + param_marker()
}

/// `/{name}/new`
pub open spec fn new_path(name: Seq<char>) -> Seq<char> {
    collection_path(name) + seq!['/', 'n', 'e', 'w']
}

/// `/{name}/:id/edit`
pub open spec fn edit_path(name: Seq<char>) -> Seq<char> {
    member_path(name) + seq!['/', 'e', 'd', 'i', 't']
}

/// The templates of one resource.
#[derive(Debug, PartialEq, Eq)]
pub struct Paths {
    pub collection: String,
    pub member: String,
    pub new: String,
    pub edit: String,
    pub param: String,
}

/// The templates of one resource, as sequences of characters.
pub struct PathsView {
    pub collection: Seq<char>,
    pub member: Seq<char>,
    pub new: Seq<char>,
    pub edit: Seq<char>,
    pub param: Seq<char>,
}

impl View for Paths {
    type V = PathsView;

    open spec fn view(&self) -> PathsView {
        PathsView {
            collection: self.collection@,
            member: self.member@,
            new: self.new@,
            edit: self.edit@,
            param: self.param@,
        }
    }
}

/// The templates that belong to `name`.
pub open spec fn paths_of(name: Seq<char>) -> PathsView {
    PathsView {
        collection: collection_path(name),
        member: member_path(name),
        new: new_path(name),
        edit: edit_path(name),
        param: param_marker(),
    }
}

/// Whether `c` is a name character.
pub fn name_char(c: char) -> (out: bool)
    ensures
        out == is_name_char(c),
{
    let n: u32 = c as u32;
    (0x61 <= n && n <= 0x7a) || (0x41 <= n && n <= 0x5a) || (0x30 <= n && n <= 0x39) || c == '-'
        || c == '_'
}

/// Whether `name` can stand in a path.
pub fn check_name(name: &str) -> (out: bool)
    ensures
        out == valid_name(name@),
{
    let n: usize = name.unicode_len();
    if n == 0 {
        return false;
    }
    let mut i: usize = 0;
    while i < n
        invariant
            n == name@.len(),
            i <= n,
            forall|j: int| 0 <= j < i ==> is_name_char(#[trigger] name@[j]),
        decreases n - i,
    {
        if !name_char(name.get_char(i)) {
            return false;
        }
        i = i + 1;
    }
    true
}

/// Derives the templates of the resource called `name`. The name is taken as
/// it is; one that is empty or holds anything but name characters is refused.
pub fn derive(name: &str) -> (out: Result<Paths, ResourceError>)
    ensures
        match out {
            Ok(paths) => valid_name(name@) && paths@ == paths_of(name@),
            Err(e) => !valid_name(name@) && e == ResourceError::InvalidResourceName,
        },
{
    if !check_name(name) {
        return Err(ResourceError::InvalidResourceName);
    }
    proof {
        reveal_strlit("/");
        reveal_strlit("/:id");
        reveal_strlit("/new");
        reveal_strlit("/edit");
        reveal_strlit(":id");
    }
    let mut collection = String::from_str("/");
    collection.append(name);
    let mut member = collection.clone();
    member.append("/:id");
    let mut new = collection.clone();
    new.append("/new");
    let mut edit = member.clone();
    edit.append("/edit");
    let param = String::from_str(":id");
    assert(collection@ =~= collection_path(name@));
    assert(member@ =~= member_path(name@));
    assert(new@ =~= new_path(name@));
    assert(edit@ =~= edit_path(name@));
    assert(param@ =~= param_marker());
    Ok(Paths { collection, member, new, edit, param })
}

/// Whether `s` is a path template.
pub fn check_template(s: &str) -> (out: bool)
    ensures
        out == is_template(s@),
{
    let n: usize = s.unicode_len();
    if n == 0 {
        return false;
    }
    if s.get_char(0) != '/' {
        return false;
    }
    let mut i: usize = 0;
    while i < n
        invariant
            n == s@.len(),
            i <= n,
            forall|j: int| 0 <= j < i ==> #[trigger] template_at(s@, j),
        decreases n - i,
    {
        let c = s.get_char(i);
        let ok = if c == '/' {
            n - i > 1 && s.get_char(i + 1) != '/'
        } else if c == ':' {
            i > 0 && s.get_char(i - 1) == '/' && n - i > 2 && s.get_char(i + 1) == 'i'
                && s.get_char(i + 2) == 'd' && (n - i == 3 || s.get_char(i + 3) == '/')
        } else {
            name_char(c)
        };
        if !ok {
            assert(!template_at(s@, i as int));
            return false;
        }
        i = i + 1;
    }
    true
}

/// Two templates in a row are a template.
pub proof fn lemma_template_concat(a: Seq<char>, b: Seq<char>)
    requires
        is_template(a),
        is_template(b),
    ensures
        is_template(a + b),
{
    let s = a + b;
    assert forall|i: int| 0 <= i < s.len() implies #[trigger] template_at(s, i) by {
        if i < a.len() {
            assert(template_at(a, i));
            assert(s[i] == a[i]);
            if i + 1 < a.len() {
                assert(s[i + 1] == a[i + 1]);
            }
            if i + 2 < a.len() {
                assert(s[i + 2] == a[i + 2]);
            }
            if i + 3 < a.len() {
                assert(s[i + 3] == a[i + 3]);
            } else if i + 3 == a.len() {
                assert(s[i + 3] == b[0]);
            }
            if i > 0 {
                assert(s[i - 1] == a[i - 1]);
            }
        } else {
            let k = i - a.len();
            assert(template_at(b, k));
            assert(s[i] == b[k]);
            if k + 1 < b.len() {
                assert(s[i + 1] == b[k + 1]);
            }
            if k + 2 < b.len() {
                assert(s[i + 2] == b[k + 2]);
            }
            if k + 3 < b.len() {
                assert(s[i + 3] == b[k + 3]);
            }
            if k > 0 {
                assert(s[i - 1] == b[k - 1]);
            }
        }
    }
}

/// Every template begins with `/`, does not end with one, has at least two
/// characters and holds no `*`.
pub proof fn lemma_template_shape(s: Seq<char>)
    requires
        is_template(s),
    ensures
        s.len() >= 2,
        s[0] == '/',
        s.last() != '/',
        !s.contains('*'),
{
    assert(template_at(s, 0));
    assert(template_at(s, s.len() - 1));
    if s.contains('*') {
        let i = choose|i: int| 0 <= i < s.len() && s[i] == '*';
        assert(template_at(s, i));
    }
}

/// The four paths of a valid name are templates.
pub proof fn lemma_paths_are_templates(name: Seq<char>)
    requires
        valid_name(name),
    ensures
        is_template(collection_path(name)),
        is_template(member_path(name)),
        is_template(new_path(name)),
        is_template(edit_path(name)),
{
    let c = collection_path(name);
    assert forall|i: int| 0 <= i < c.len() implies #[trigger] template_at(c, i) by {
        if i > 0 {
            assert(c[i] == name[i - 1]);
            assert(is_name_char(name[i - 1]));
        } else {
            assert(c[1] == name[0]);
            assert(is_name_char(name[0]));
        }
    }
    let id = seq!['/'] + param_marker();
    assert(id =~= seq!['/', ':', 'i', 'd']);
    assert forall|i: int| 0 <= i < id.len() implies #[trigger] template_at(id, i) by {}
    let new = seq!['/', 'n', 'e', 'w'];
    assert forall|i: int| 0 <= i < new.len() implies #[trigger] template_at(new, i) by {}
    let edit = seq!['/', 'e', 'd', 'i', 't'];
    assert forall|i: int| 0 <= i < edit.len() implies #[trigger] template_at(edit, i) by {}
    lemma_template_concat(c, id);
    assert(member_path(name) =~= c + id);
    lemma_template_concat(c, new);
    lemma_template_concat(member_path(name), edit);
}

} // verus!
