use std::hash::Hash;
use std::hash::Hasher;
use vstd::prelude::*;
use vstd::std_specs::cmp::PartialEqSpec;
use vstd::std_specs::cmp::PartialEqSpecImpl;

verus! {

/// A slot of the dependency graph: the identifier that the graph assigned at
/// insertion, and the value stored under it.
#[derive(Debug)]
pub struct Node<T> {
    id: usize,
    value: T,
}

impl<T> Node<T> {
    /// The identifier, as contracts see it.
    pub closed spec fn id(&self) -> usize {
        self.id
    }

    /// The stored value, as contracts see it.
    pub closed spec fn value(&self) -> T {
        self.value
    }

    pub fn new(i: usize, v: T) -> (node: Node<T>)
        ensures
            node.id() == i,
            node.value() == v,
    {
        Node { id: i, value: v }
    }

    pub fn get_id(&self) -> (id: &usize)
        ensures
            *id == self.id(),
    {
        &self.id
    }

    pub fn get_value(&self) -> (value: &T)
        ensures
            *value == self.value(),
    {
        &self.value
    }

    pub fn get_mut_value(&mut self) -> (value: &mut T)
        ensures
            *value == old(self).value(),
            final(self).id() == old(self).id(),
            final(self).value() == *final(value),
    {
        &mut self.value
    }
}

/// Two nodes are equal when their values are; the identifier plays no part.
impl<T: PartialEq> PartialEq for Node<T> {
    fn eq(&self, other: &Node<T>) -> (r: bool) {
        self.value == other.value
    }
}

impl<T: PartialEq> PartialEqSpecImpl for Node<T> {
    open spec fn obeys_eq_spec() -> bool {
        T::obeys_eq_spec()
    }

    open spec fn eq_spec(&self, other: &Node<T>) -> bool {
        self.value().eq_spec(&other.value())
    }
}

impl<T: Eq> Eq for Node<T> {
}

impl<T> Hash for Node<T> {
    /// Feeds the identifier, and nothing else, to `state` through
    /// `usize`'s `Hash::hash`. Nothing is claimed of the hasher afterwards.
    #[verifier::external_body]
    fn hash<H: Hasher>(&self, state: &mut H) {
        self.id.hash(state);
    }
}

} // verus!
