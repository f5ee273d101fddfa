//! The interface a node identifier must offer: an equality test and a
//! cheap duplication, both tied to a mathematical identity.

use vstd::prelude::*;

verus! {

/// A node identifier.  The graph never looks inside an identifier; it
/// only tests two for equality and duplicates one when it has to store
/// it in more than one place.  Both operations are specified against
/// `id`, the mathematical identity of the value, so that the graph's
/// contracts can speak of identifiers as plain values.
pub trait NodeId: Sized {
    /// The mathematical identity of an identifier.
    type Id;

    /// What this identifier denotes.
    spec fn id(&self) -> Self::Id;

    /// Equality test, agreeing exactly with `id`.
    fn same_id(&self, other: &Self) -> (b: bool)
        ensures
            b == (self.id() == other.id()),
    ;

    /// A duplicate denoting the same identity.
    fn dup(&self) -> (r: Self)
        ensures
            r.id() == self.id(),
    ;
}

impl NodeId for u64 {
    type Id = u64;

    open spec fn id(&self) -> u64 {
        *self
    }

    fn same_id(&self, other: &Self) -> (b: bool) {
        *self == *other
    }

    fn dup(&self) -> (r: Self) {
        *self
    }
}

impl NodeId for usize {
    type Id = usize;

    open spec fn id(&self) -> usize {
        *self
    }

    fn same_id(&self, other: &Self) -> (b: bool) {
        *self == *other
    }

    fn dup(&self) -> (r: Self) {
        *self
    }
}

impl NodeId for i64 {
    type Id = i64;

    open spec fn id(&self) -> i64 {
        *self
    }

    fn same_id(&self, other: &Self) -> (b: bool) {
        *self == *other
    }

    fn dup(&self) -> (r: Self) {
        *self
    }
}

/// Relies on `str::eq`: two string slices are equal exactly when they
/// consist of the same characters.
pub assume_specification[ <str as PartialEq>::eq ](a: &str, b: &str) -> (r: bool)
    ensures
        r == (a@ == b@),
;

impl<'a> NodeId for &'a str {
    type Id = Seq<char>;

    open spec fn id(&self) -> Seq<char> {
        self@
    }

    fn same_id(&self, other: &Self) -> (b: bool) {
        **self == **other
    }

    fn dup(&self) -> (r: Self) {
        *self
    }
}

impl NodeId for String {
    type Id = Seq<char>;

    open spec fn id(&self) -> Seq<char> {
        self@
    }

    fn same_id(&self, other: &Self) -> (b: bool) {
        *self == *other
    }

    fn dup(&self) -> (r: Self) {
        self.clone()
    }
}

} // verus!
