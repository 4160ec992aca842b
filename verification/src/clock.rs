//! Buffer versions.

use vstd::prelude::*;

verus! {

/// The version of a buffer: for each replica that edits the buffer, by its
/// index, how many of its operations the buffer has seen. Two versions need
/// not be ordered: each may have seen operations that the other has not.
#[derive(Debug, PartialEq, Eq)]
pub struct Global {
    pub operations: Vec<u32>,
}

impl View for Global {
    type V = Seq<u32>;

    open spec fn view(&self) -> Seq<u32> {
        self.operations@
    }
}

/// Whether version `a` has seen an operation that version `b` has not: `a`
/// knows more replicas than `b`, or counts more operations for one of them.
pub open spec fn changed_since(a: Seq<u32>, b: Seq<u32>) -> bool {
    a.len() > b.len() || exists|i: int| 0 <= i < a.len() && #[trigger] a[i] > b[i]
}

impl Clone for Global {
    fn clone(&self) -> (r: Global)
        ensures
            r@ == self@,
    {
        Global { operations: self.operations.clone() }
    }
}

impl Global {
    /// The version of a buffer that has seen no operation.
    pub fn new() -> (r: Global)
        ensures
            r@ == Seq::<u32>::empty(),
    {
        Global { operations: Vec::new() }
    }

    /// Whether this version has seen an operation that `other` has not.
    pub fn changed_since(&self, other: &Global) -> (r: bool)
        ensures
            r == changed_since(self@, other@),
    {
        if self.operations.len() > other.operations.len() {
            return true;
        }
        let mut i: usize = 0;
        while i < self.operations.len()
            invariant
                i <= self.operations.len() <= other.operations.len(),
                forall|j: int| 0 <= j < i ==> self@[j] <= other@[j],
            decreases self.operations.len() - i,
        {
            if self.operations[i] > other.operations[i] {
                return true;
            }
            i += 1;
        }
        false
    }
}

} // verus!
