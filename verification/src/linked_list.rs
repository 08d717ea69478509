//! A singly linked list that keeps its insertion order: new values are
//! appended at the tail.

use vstd::prelude::*;

verus! {

/// A non-empty singly linked list; the head holds the first value inserted.
pub struct LinkedList<T> {
    next_node: Option<Box<LinkedList<T>>>,
    value: T,
}

impl<T> LinkedList<T> {
    /// The values of the list, head first.
    spec fn rest_seq(o: Option<Box<LinkedList<T>>>) -> Seq<T>
        decreases o,
    {
        match o {
            Some(node) => node.as_seq(),
            None => Seq::empty(),
        }
    }

    /// The values of the list, head first.
    pub closed spec fn as_seq(self) -> Seq<T>
        decreases self,
    {
        seq![self.value] + Self::rest_seq(self.next_node)
    }

    /// A list of one value.
    pub fn new(value: T) -> (r: Self)
        ensures
            r.as_seq() == seq![value],
    {
        let r = Self { next_node: None, value };
        proof {
            assert(r.as_seq() =~= seq![r.value]);
        }
        r
    }

    /// Appends `value` at the tail, after every value inserted so far.
    pub fn insert_node(&mut self, value: T)
        ensures
            final(self).as_seq() == old(self).as_seq().push(value),
        decreases *old(self),
    {
        match self.next_node.take() {
            Some(mut boxed_node) => {
                (&mut *boxed_node).insert_node(value);
                self.next_node = Some(boxed_node);
            }
            None => {
                let node = LinkedList { next_node: None, value };
                proof {
                    assert(node.as_seq() =~= seq![node.value]);
                }
                self.next_node = Some(Box::new(node));
            }
        }
        proof {
            assert(self.as_seq() =~= old(self).as_seq().push(value));
        }
    }
}

} // verus!
