//! Value groups: many providers contribute one element each; consumers
//! receive [`Group`].

use vstd::prelude::*;
use vstd::std_specs::iter::IteratorSpec;
use vstd::std_specs::slice::*;

verus! {

/// Many values of the same type, aggregated from group registrations across
/// modules, in registration order.
#[derive(Debug, Clone, PartialEq, Eq, Hash)]
pub struct Group<T> {
    items: Vec<T>,
}

impl<T> Group<T> {
    /// The members, in order.
    pub closed spec fn view(&self) -> Seq<T> {
        self.items@
    }

    /// An empty group.
    pub fn new() -> (g: Self)
        ensures
            g.view() == Seq::<T>::empty(),
    {
        Group { items: Vec::new() }
    }

    /// Wrap an existing vector.
    pub fn from_vec(items: Vec<T>) -> (g: Self)
        ensures
            g.view() == items@,
    {
        Group { items }
    }

    /// Number of contributed values.
    pub fn len(&self) -> (n: usize)
        ensures
            n == self.view().len(),
    {
        self.items.len()
    }

    /// Whether the group has no members.
    pub fn is_empty(&self) -> (b: bool)
        ensures
            b == (self.view().len() == 0),
    {
        self.items.len() == 0
    }

    /// Borrow the members as a slice.
    pub fn as_slice(&self) -> (s: &[T])
        ensures
            s@ == self.view(),
    {
        self.items.as_slice()
    }

    /// Iterate over the members, in order.
    pub fn iter(&self) -> (it: std::slice::Iter<'_, T>)
        ensures
            into_iter_elts(it) == self.view(),
    {
        broadcast use axiom_spec_slice_iter;

        let it = self.items.as_slice().iter();
        assert(IteratorSpec::remaining(&it).unref() =~= self.items@);
        it
    }

    /// Consume the group and return its members.
    pub fn into_vec(self) -> (v: Vec<T>)
        ensures
            v@ == self.view(),
    {
        self.items
    }

    /// The member at `i`, if there is one.
    pub fn get(&self, i: usize) -> (r: Option<&T>)
        ensures
            i < self.view().len() ==> r == Some(&self.view()[i as int]),
            i >= self.view().len() ==> r is None,
    {
        if i < self.items.len() {
            Some(&self.items[i])
        } else {
            None
        }
    }
}

impl<T> IntoIterator for Group<T> {
    type Item = T;

    type IntoIter = std::vec::IntoIter<T>;

    /// Iterate over the members by value, in order.
    fn into_iter(self) -> (it: std::vec::IntoIter<T>)
        ensures
            IteratorSpec::remaining(&it) == self.view(),
    {
        broadcast use vstd::std_specs::vec::axiom_spec_into_iter;

        self.items.into_iter()
    }
}

impl<'a, T> IntoIterator for &'a Group<T> {
    type Item = &'a T;

    type IntoIter = std::slice::Iter<'a, T>;

    /// Iterate over the members by reference, in order.
    fn into_iter(self) -> (it: std::slice::Iter<'a, T>)
        ensures
            into_iter_elts(it) == self.view(),
    {
        self.iter()
    }
}

impl<T> std::ops::Deref for Group<T> {
    type Target = [T];

    /// The members as a slice.
    fn deref(&self) -> (s: &[T])
        ensures
            s@ == self.view(),
    {
        self.items.as_slice()
    }
}

impl<T> AsRef<[T]> for Group<T> {
    /// The members as a slice.
    fn as_ref(&self) -> (s: &[T])
        ensures
            s@ == self.view(),
    {
        self.items.as_slice()
    }
}

impl<T> Default for Group<T> {
    fn default() -> (g: Self)
        ensures
            g.view() == Seq::<T>::empty(),
    {
        Group::new()
    }
}

impl<T> From<Vec<T>> for Group<T> {
    fn from(items: Vec<T>) -> (g: Self) {
        Group { items }
    }
}

impl<T> vstd::std_specs::convert::FromSpecImpl<Vec<T>> for Group<T> {
    open spec fn obeys_from_spec() -> bool {
        true
    }

    closed spec fn from_spec(items: Vec<T>) -> Self {
        Group { items }
    }
}

/// Converting a vector into a group keeps its items, in order.
pub proof fn law_from_keeps_members<T>(items: Vec<T>)
    ensures
        <Group<T> as vstd::std_specs::convert::FromSpec<Vec<T>>>::from_spec(items).view() == items@,
{
}

} // verus!
