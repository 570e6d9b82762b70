//! Iteration over the entries of a single node, from either end.

use vstd::prelude::*;

use crate::node::KeyIndex;

verus! {

/// Double-ended iterator over the entries (key byte and slot) that a node
/// reported for a range of key bytes.
pub struct KeyIter {
    entries: Vec<KeyIndex>,
    head: usize,
    tail: usize,
}

impl View for KeyIter {
    type V = Seq<KeyIndex>;

    /// The entries not yet taken from either end.
    closed spec fn view(&self) -> Seq<KeyIndex> {
        self.entries@.subrange(self.head as int, self.tail as int)
    }
}

impl KeyIter {
    #[verifier::type_invariant]
    closed spec fn inv(self) -> bool {
        self.head <= self.tail <= self.entries.len()
    }

    /// An iterator over `entries`, in their order.
    pub fn new(entries: Vec<KeyIndex>) -> (r: Self)
        ensures
            r@ == entries@,
    {
        let tail = entries.len();
        let r = KeyIter { entries, head: 0, tail };
        assert(r@ =~= r.entries@);
        r
    }

    /// The iterator that a traversal starts from: the single entry of key
    /// byte 0 in slot 0, standing for the root edge.
    pub fn root() -> (r: Self)
        ensures
            r@ == seq![KeyIndex { key: 0, index: 0 }],
    {
        let entries = vec![KeyIndex { key: 0, index: 0 }];
        let r = KeyIter { entries, head: 0, tail: 1 };
        assert(r@ =~= seq![KeyIndex { key: 0, index: 0 }]);
        r
    }

    /// Takes the first entry left, if any.
    pub fn next(&mut self) -> (r: Option<KeyIndex>)
        ensures
            old(self)@.len() == 0 ==> r is None && final(self)@ == old(self)@,
            old(self)@.len() > 0 ==> r == Some(old(self)@[0]) && final(self)@ == old(self)@.drop_first(),
    {
        proof {
            use_type_invariant(&*self);
        }
        if self.head < self.tail {
            let entry = self.entries[self.head];
            self.head = self.head + 1;
            assert(self@ =~= old(self)@.drop_first());
            Some(entry)
        } else {
            None
        }
    }

    /// Takes the last entry left, if any.
    pub fn next_back(&mut self) -> (r: Option<KeyIndex>)
        ensures
            old(self)@.len() == 0 ==> r is None && final(self)@ == old(self)@,
            old(self)@.len() > 0 ==> r == Some(old(self)@.last()) && final(self)@ == old(self)@.drop_last(),
    {
        proof {
            use_type_invariant(&*self);
        }
        if self.head < self.tail {
            self.tail = self.tail - 1;
            let entry = self.entries[self.tail];
            assert(self@ =~= old(self)@.drop_last());
            Some(entry)
        } else {
            None
        }
    }

    /// The number of entries left.
    pub fn len(&self) -> (r: usize)
        ensures
            r == self@.len(),
    {
        proof {
            use_type_invariant(self);
        }
        self.tail - self.head
    }
}

} // verus!
