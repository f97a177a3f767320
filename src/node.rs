use vstd::prelude::*;

verus! {

/// One element of a list and the arena slot of the node after it, if any.
pub struct SinglyNode<T> {
    pub value: T,
    pub next: Option<usize>,
}

impl<T> SinglyNode<T> {
    pub fn new(value: T, next: Option<usize>) -> (r: Self)
        ensures
            r.value == value,
            r.next == next,
    {
        SinglyNode { value: value, next: next }
    }

    /// The same link, holding `value`.
    pub open spec fn revalued(self, value: T) -> Self {
        SinglyNode { value: value, next: self.next }
    }

    /// The same value, linked to `next`.
    pub open spec fn relinked(self, next: Option<usize>) -> Self {
        SinglyNode { value: self.value, next: next }
    }
}

} // verus!
