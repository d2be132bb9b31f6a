//! The runtime's names the IR refers to: object shapes and property keys.

use vstd::prelude::*;

verus! {

/// Identifies an object shape: which properties an object has, and in which slots.
#[derive(Clone, Copy, Debug, PartialEq, Eq, Structural, Hash)]
pub struct ShapeId(pub u32);

impl ShapeId {
    /// Rebuilds a shape id from its index.
    pub fn from_index(index: u32) -> (shape: Self)
        ensures
            shape.0 == index,
    {
        ShapeId(index)
    }

    /// The index.
    pub fn index(self) -> (index: u32)
        ensures
            index == self.0,
    {
        self.0
    }
}

/// A property name.
#[derive(Clone, Debug, PartialEq, Eq, Hash)]
pub struct PropertyKey {
    name: String,
}

impl PropertyKey {
    /// The name as text.
    pub closed spec fn text(&self) -> Seq<char> {
        self.name@
    }

    /// A key for `name`.
    pub fn new(name: &str) -> (key: Self)
        ensures
            key.text() == name@,
    {
        PropertyKey { name: name.to_owned() }
    }

    /// The name.
    pub fn as_str(&self) -> (name: &str)
        ensures
            name@ == self.text(),
    {
        self.name.as_str()
    }
}

} // verus!
