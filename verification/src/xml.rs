use vstd::prelude::*;
use crate::text::{lowercase, str_eq, to_lowercase};

verus! {

/// An XML element as the reader sees it: its local name, its namespace, its
/// attributes in document order and its child elements in document order
/// (text between them is not kept).
pub struct Element {
    pub name: String,
    pub namespace: Option<String>,
    pub attributes: Vec<(String, String)>,
    pub children: Vec<Element>,
}

/// The value of the first attribute of `attrs` called `key`.
pub open spec fn attr_in(attrs: Seq<(String, String)>, key: Seq<char>) -> Option<Seq<char>>
    decreases attrs.len(),
{
    if attrs.len() == 0 {
        None
    } else if attrs[0].0@ == key {
        Some(attrs[0].1@)
    } else {
        attr_in(attrs.drop_first(), key)
    }
}

/// The value of the attribute `key` of `e`.
pub open spec fn spec_attr(e: Element, key: Seq<char>) -> Option<Seq<char>> {
    attr_in(e.attributes@, key)
}

/// Whether `e` is called `name` and lies in the namespace `ns`.
pub open spec fn is_named_in(e: Element, name: Seq<char>, ns: Seq<char>) -> bool {
    &&& e.name@ == name
    &&& e.namespace matches Some(x) && x@ == ns
}

/// The first element of `es` called `name` in the namespace `ns`.
pub open spec fn find_named_in(es: Seq<Element>, name: Seq<char>, ns: Seq<char>) -> Option<Element>
    decreases es.len(),
{
    if es.len() == 0 {
        None
    } else if is_named_in(es[0], name, ns) {
        Some(es[0])
    } else {
        find_named_in(es.drop_first(), name, ns)
    }
}

/// The first child of `e` called `name` in the namespace `ns`.
pub open spec fn spec_child(e: Element, name: Seq<char>, ns: Seq<char>) -> Option<Element> {
    find_named_in(e.children@, name, ns)
}

/// The first element of `es` whose name, lowercased, is `lname`.
pub open spec fn find_lower_in(es: Seq<Element>, lname: Seq<char>) -> Option<Element>
    decreases es.len(),
{
    if es.len() == 0 {
        None
    } else if lowercase(es[0].name@) == lname {
        Some(es[0])
    } else {
        find_lower_in(es.drop_first(), lname)
    }
}

/// How many elements of `es` are called `name` (whatever their namespace).
pub open spec fn count_named(es: Seq<Element>, name: Seq<char>) -> nat
    decreases es.len(),
{
    if es.len() == 0 {
        0
    } else {
        (if es[0].name@ == name { 1nat } else { 0nat }) + count_named(es.drop_first(), name)
    }
}

/// The first element of `es` called `name` (whatever its namespace).
pub open spec fn first_named(es: Seq<Element>, name: Seq<char>) -> Option<Element>
    decreases es.len(),
{
    if es.len() == 0 {
        None
    } else if es[0].name@ == name {
        Some(es[0])
    } else {
        first_named(es.drop_first(), name)
    }
}

impl Element {
    /// The value of the attribute `key`.
    pub fn attr(&self, key: &str) -> (r: Option<&String>)
        ensures
            r matches Some(v) ==> spec_attr(*self, key@) == Some(v@),
            r is None ==> spec_attr(*self, key@) is None,
    {
        let n: usize = self.attributes.len();
        let mut i: usize = 0;
        assert(self.attributes@.skip(0) =~= self.attributes@);
        while i < n
            invariant
                n == self.attributes@.len(),
                i <= n,
                spec_attr(*self, key@) == attr_in(self.attributes@.skip(i as int), key@),
            decreases n - i,
        {
            assert(self.attributes@.skip(i as int).drop_first() =~= self.attributes@.skip(i + 1));
            if str_eq(self.attributes[i].0.as_str(), key) {
                return Some(&self.attributes[i].1);
            }
            i = i + 1;
        }
        None
    }

    /// The first child called `name` in the namespace `ns`.
    pub fn get_child(&self, name: &str, ns: &str) -> (r: Option<&Element>)
        ensures
            r matches Some(c) ==> spec_child(*self, name@, ns@) == Some(*c),
            r is None ==> spec_child(*self, name@, ns@) is None,
    {
        let n: usize = self.children.len();
        let mut i: usize = 0;
        assert(self.children@.skip(0) =~= self.children@);
        while i < n
            invariant
                n == self.children@.len(),
                i <= n,
                spec_child(*self, name@, ns@) == find_named_in(self.children@.skip(i as int), name@, ns@),
            decreases n - i,
        {
            assert(self.children@.skip(i as int).drop_first() =~= self.children@.skip(i + 1));
            let c = &self.children[i];
            if str_eq(c.name.as_str(), name) {
                match &c.namespace {
                    Some(x) => {
                        if str_eq(x.as_str(), ns) {
                            return Some(c);
                        }
                    },
                    None => {},
                }
            }
            i = i + 1;
        }
        None
    }

    /// The first child whose name, lowercased, is `lname`.
    pub fn first_child_lowercase(&self, lname: &str) -> (r: Option<&Element>)
        ensures
            r matches Some(c) ==> find_lower_in(self.children@, lname@) == Some(*c),
            r is None ==> find_lower_in(self.children@, lname@) is None,
    {
        let n: usize = self.children.len();
        let mut i: usize = 0;
        assert(self.children@.skip(0) =~= self.children@);
        while i < n
            invariant
                n == self.children@.len(),
                i <= n,
                find_lower_in(self.children@, lname@) == find_lower_in(self.children@.skip(i as int), lname@),
            decreases n - i,
        {
            assert(self.children@.skip(i as int).drop_first() =~= self.children@.skip(i + 1));
            let c = &self.children[i];
            let lower = to_lowercase(c.name.as_str());
            if str_eq(lower.as_str(), lname) {
                return Some(c);
            }
            i = i + 1;
        }
        None
    }

    /// How many children are called `name`, and the first of them.
    pub fn children_named(&self, name: &str) -> (r: (usize, Option<&Element>))
        ensures
            r.0 == count_named(self.children@, name@),
            r.1 matches Some(c) ==> first_named(self.children@, name@) == Some(*c),
            r.1 is None ==> first_named(self.children@, name@) is None,
    {
        let n: usize = self.children.len();
        let mut i: usize = n;
        let mut count: usize = 0;
        let mut first: Option<&Element> = None;
        while i > 0
            invariant
                n == self.children@.len(),
                i <= n,
                count == count_named(self.children@.skip(i as int), name@),
                count <= n - i,
                first matches Some(c) ==> first_named(self.children@.skip(i as int), name@) == Some(*c),
                first is None ==> first_named(self.children@.skip(i as int), name@) is None,
            decreases i,
        {
            i = i - 1;
            assert(self.children@.skip(i as int).drop_first() =~= self.children@.skip(i + 1));
            let c = &self.children[i];
            if str_eq(c.name.as_str(), name) {
                count = count + 1;
                first = Some(c);
            }
        }
        assert(self.children@.skip(0) =~= self.children@);
        (count, first)
    }
}

} // verus!
