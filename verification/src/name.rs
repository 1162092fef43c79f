//! Names of schema entities: a local identifier and the namespace path that
//! leads to it, with the identifiers that generated artifacts use.

use crate::text::{copy_strings, join, join_spec, lemma_join_injective, plain_segments, views};
use heck::{ToSnakeCase, ToUpperCamelCase};
use vstd::prelude::*;
use vstd::slice::slice_subrange;
use vstd::string::StringExecFns;

verus! {

/// What `heck::ToSnakeCase::to_snake_case` makes of a string.
pub uninterp spec fn snake_case(s: Seq<char>) -> Seq<char>;

/// What `heck::ToUpperCamelCase::to_upper_camel_case` makes of a string.
pub uninterp spec fn upper_camel_case(s: Seq<char>) -> Seq<char>;

/// What `str::to_uppercase` makes of a string.
pub uninterp spec fn uppercase(s: Seq<char>) -> Seq<char>;

/// Calls `heck::ToSnakeCase::to_snake_case` on a string slice. The conversion
/// depends on the characters alone; its result is known as `snake_case`.
#[verifier::external_body]
pub(crate) fn to_snake_case(s: &str) -> (r: String)
    ensures
        r@ == snake_case(s@),
{
    s.to_snake_case()
}

/// Calls `heck::ToUpperCamelCase::to_upper_camel_case` on a string slice. The
/// conversion depends on the characters alone; its result is known as
/// `upper_camel_case`.
#[verifier::external_body]
pub(crate) fn to_upper_camel_case(s: &str) -> (r: String)
    ensures
        r@ == upper_camel_case(s@),
{
    s.to_upper_camel_case()
}

/// Calls `str::to_uppercase`, which maps every character to its uppercase
/// form; its result is known as `uppercase`.
#[verifier::external_body]
pub(crate) fn to_uppercase(s: &str) -> (r: String)
    ensures
        r@ == uppercase(s@),
{
    s.to_uppercase()
}

/// `rel` appended to the directory `base`: a separator is put between them
/// unless `base` is empty or already ends in one, and a `rel` that starts at
/// the root replaces `base`.
pub open spec fn path_join_spec(base: Seq<char>, rel: Seq<char>) -> Seq<char> {
    if rel.len() > 0 && rel[0] == '/' {
        rel
    } else if base.len() > 0 && base.last() != '/' {
        base + seq!['/'] + rel
    } else {
        base + rel
    }
}

/// Appends the relative path `rel` to the directory `base`.
pub fn path_join(base: &str, rel: &str) -> (r: String)
    ensures
        r@ == path_join_spec(base@, rel@),
{
    let b = crate::text::chars_of(base);
    let p = crate::text::chars_of(rel);
    if p.len() > 0 && p[0] == '/' {
        return String::from_str(rel);
    }
    let mut out = String::from_str(base);
    if b.len() > 0 && b[b.len() - 1] != '/' {
        out.push('/');
    }
    out.append(rel);
    out
}

/// A local identifier together with the namespace segments that lead to it.
///
/// For an entity declared in a module, the last segment of `namespace` is the
/// entity's own name and the segments before it are the module's path.
#[derive(Debug, Clone, PartialEq, Eq)]
pub struct Name {
    pub name: String,
    pub namespace: Vec<String>,
}

/// The mathematical content of a `Name`.
pub struct NameView {
    pub name: Seq<char>,
    pub namespace: Seq<Seq<char>>,
}

impl View for Name {
    type V = NameView;

    open spec fn view(&self) -> NameView {
        NameView { name: self.name@, namespace: views(self.namespace@) }
    }
}

impl NameView {
    /// The namespace without its last segment; empty for an empty namespace.
    pub open spec fn parent_namespace(self) -> Seq<Seq<char>> {
        if self.namespace.len() == 0 {
            self.namespace
        } else {
            self.namespace.drop_last()
        }
    }

    /// The type identifier: the name in upper camel case, qualified by the
    /// parent namespace where that is asked for and not empty.
    pub open spec fn type_id(self, with_namespace: bool) -> Seq<char> {
        if with_namespace && join_spec(self.parent_namespace(), "::"@).len() > 0 {
            join_spec(self.parent_namespace(), "::"@) + "::"@ + upper_camel_case(self.name)
        } else {
            upper_camel_case(self.name)
        }
    }

    /// The identifier of the type that holds a table's loaded rows.
    pub open spec fn data_type_id(self, with_namespace: bool) -> Seq<char> {
        self.type_id(with_namespace) + "Data"@
    }

    /// The identifier of the cell that a table's loaded rows are kept in.
    pub open spec fn data_cell_id(self) -> Seq<char> {
        uppercase(snake_case(self.name)) + "_DATA"@
    }

    /// The directory of the namespace below `base`.
    pub open spec fn full_dir(self, base: Seq<char>) -> Seq<char> {
        path_join_spec(base, join_spec(self.namespace, "/"@))
    }
}

impl Name {
    /// A name with the given identifier and namespace.
    pub fn new(name: &str, namespace: Vec<String>) -> (r: Self)
        ensures
            r.name@ == name@,
            r.namespace == namespace,
    {
        Self { name: String::from_str(name), namespace }
    }

    /// The name of a child: the child's identifier, in this name's namespace
    /// extended by that identifier.
    pub fn get_child(&self, child_name: &str) -> (r: Self)
        ensures
            r@.name == child_name@,
            r@.namespace == self@.namespace.push(child_name@),
    {
        let mut child_namespace = copy_strings(self.namespace.as_slice());
        child_namespace.push(String::from_str(child_name));
        assert(views(child_namespace@) =~= views(self.namespace@).push(child_name@));
        Self::new(child_name, child_namespace)
    }

    /// The namespace without its last segment.
    pub fn parent_namespace(&self) -> (r: &[String])
        ensures
            views(r@) == self@.parent_namespace(),
    {
        if self.namespace.len() == 0 {
            self.namespace.as_slice()
        } else {
            let r = slice_subrange(self.namespace.as_slice(), 0, self.namespace.len() - 1);
            assert(views(r@) =~= views(self.namespace@).drop_last());
            r
        }
    }

    /// The directory of this name's namespace below `base_dir`.
    pub fn as_full_dir(&self, base_dir: &str) -> (r: String)
        ensures
            r@ == self@.full_dir(base_dir@),
    {
        let rel = join(self.namespace.as_slice(), "/");
        path_join(base_dir, rel.as_str())
    }

    /// The entity identifier: the name in snake case.
    pub fn as_entity(&self) -> (r: String)
        ensures
            r@ == snake_case(self@.name),
    {
        to_snake_case(self.name.as_str())
    }

    /// The type identifier, qualified by the parent namespace if
    /// `with_namespace` is set.
    pub fn as_type(&self, with_namespace: bool) -> (r: String)
        ensures
            r@ == self@.type_id(with_namespace),
    {
        let camel = to_upper_camel_case(self.name.as_str());
        if with_namespace && self.namespace.len() > 0 {
            let mut out = join(self.parent_namespace(), "::");
            if !out.as_str().is_empty() {
                out.append("::");
                out.append(camel.as_str());
                return out;
            }
            return camel;
        }
        assert(with_namespace ==> self@.parent_namespace().len() == 0);
        assert(join_spec(Seq::<Seq<char>>::empty(), "::"@).len() == 0);
        camel
    }

    /// The identifier of the type that holds the loaded rows.
    pub fn as_data_type(&self, with_namespace: bool) -> (r: String)
        ensures
            r@ == self@.data_type_id(with_namespace),
    {
        let mut out = self.as_type(with_namespace);
        out.append("Data");
        out
    }

    /// The identifier of the cell that the loaded rows are kept in.
    pub fn as_data_type_cell(&self) -> (r: String)
        ensures
            r@ == self@.data_cell_id(),
    {
        let snake = to_snake_case(self.name.as_str());
        let mut out = to_uppercase(snake.as_str());
        out.append("_DATA");
        out
    }
}

/// Entities of one name in different namespaces have different types:
/// where the namespaces that hold two entities of one name differ, and no
/// segment of either is empty or holds a colon, their qualified type
/// identifiers differ.
pub proof fn law_namespaces_tell_types_apart(a: NameView, b: NameView)
    requires
        a.name == b.name,
        a.parent_namespace() != b.parent_namespace(),
        plain_segments(a.parent_namespace()),
        plain_segments(b.parent_namespace()),
    ensures
        a.type_id(true) != b.type_id(true),
{
    reveal_strlit("::");
    let sep = "::"@;
    let camel = upper_camel_case(a.name);
    let ja = join_spec(a.parent_namespace(), sep);
    let jb = join_spec(b.parent_namespace(), sep);
    if a.type_id(true) == b.type_id(true) {
        if ja.len() > 0 && jb.len() > 0 {
            assert((ja + sep + camel).len() == ja.len() + 2 + camel.len());
            assert((jb + sep + camel).len() == jb.len() + 2 + camel.len());
            assert(ja =~= (ja + sep + camel).take(ja.len() as int));
            assert(jb =~= (jb + sep + camel).take(jb.len() as int));
        } else if ja.len() > 0 {
            assert((ja + sep + camel).len() == ja.len() + 2 + camel.len());
        } else if jb.len() > 0 {
            assert((jb + sep + camel).len() == jb.len() + 2 + camel.len());
        } else {
            assert(ja =~= jb);
        }
        lemma_join_injective(a.parent_namespace(), b.parent_namespace());
    }
}

} // verus!
