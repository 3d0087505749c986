//! One attribute of a start tag: a name and a value.

use vstd::prelude::*;
use vstd::string::StringExecFns;

verus! {

/// What an attribute is: the characters of its name and of its value.
pub struct AttributeView {
    pub name: Seq<char>,
    pub value: Seq<char>,
}

#[derive(Debug, Clone, PartialEq, Eq)]
pub struct Attribute {
    name: String,
    value: String,
}

impl View for Attribute {
    type V = AttributeView;

    closed spec fn view(&self) -> AttributeView {
        AttributeView { name: self.name@, value: self.value@ }
    }
}

impl Default for Attribute {
    fn default() -> (a: Self)
        ensures
            a@ == (AttributeView { name: Seq::empty(), value: Seq::empty() }),
    {
        Attribute { name: String::new(), value: String::new() }
    }
}

impl Attribute {
    pub fn add_name_char(&mut self, c: char)
        ensures
            final(self)@ == (AttributeView { name: old(self)@.name.push(c), ..old(self)@ }),
    {
        self.name.push(c);
    }

    pub fn add_value_char(&mut self, c: char)
        ensures
            final(self)@ == (AttributeView { value: old(self)@.value.push(c), ..old(self)@ }),
    {
        self.value.push(c);
    }

    pub fn name(&self) -> (s: String)
        ensures
            s@ == self@.name,
    {
        self.name.clone()
    }

    pub fn value(&self) -> (s: String)
        ensures
            s@ == self@.value,
    {
        self.value.clone()
    }

    /// The attribute with the given name and value.
    pub fn nv(name: &str, value: &str) -> (a: Self)
        ensures
            a@ == (AttributeView { name: name@, value: value@ }),
    {
        Attribute { name: String::from_str(name), value: String::from_str(value) }
    }

    /// A copy of this attribute.
    pub fn duplicate(&self) -> (a: Self)
        ensures
            a@ == self@,
    {
        Attribute { name: self.name.clone(), value: self.value.clone() }
    }
}

/// A copy of a list of attributes.
pub fn duplicate_attributes(attributes: &Vec<Attribute>) -> (copy: Vec<Attribute>)
    ensures
        crate::text::views(copy@) == crate::text::views(attributes@),
{
    let mut copy: Vec<Attribute> = Vec::new();
    let mut i: usize = 0;
    while i < attributes.len()
        invariant
            i <= attributes@.len(),
            copy@.len() == i,
            forall|k: int| 0 <= k < i ==> (#[trigger] copy@[k])@ == attributes@[k]@,
        decreases attributes@.len() - i,
    {
        copy.push(attributes[i].duplicate());
        i += 1;
    }
    assert(crate::text::views(copy@) =~= crate::text::views(attributes@));
    copy
}

} // verus!
