//! The small, value-only list: values go in and come out at the tail.

use vstd::prelude::*;
use crate::linked_list::node::{chain, lemma_chain_unfold, Link, Node};

verus! {

/// A singly linked list without search: `push` and `pop` both work on
/// the last node.
pub struct List<T> {
    pub head: Link<T>,
    pub size: usize,
}

impl<T> View for List<T> {
    type V = Seq<T>;

    /// The stored values, head first.
    open spec fn view(&self) -> Seq<T> {
        chain(self.head)
    }
}

impl<T> List<T> {
    /// The public counter agrees with the number of nodes in the chain.
    pub open spec fn wf(&self) -> bool {
        self.size == self@.len()
    }

    /// Creates an empty list.
    pub fn new() -> (list: List<T>)
        ensures
            list.wf(),
            list@ == Seq::<T>::empty(),
    {
        List { head: None, size: 0 }
    }

    /// Adds a new node with `value` to the end of the list.
    pub fn push(&mut self, value: T)
        requires
            old(self).wf(),
            old(self)@.len() < usize::MAX,
        ensures
            final(self).wf(),
            final(self)@ == old(self)@.push(value),
    {
        self.size += 1;
        let new_node = Some(Box::new(Node::new(value)));
        if self.is_empty() {
            self.head = new_node;
            assert(chain(self.head) =~= old(self)@.push(value));
            return;
        }
        let ghost original = chain(self.head);
        let ghost mut prefix = Seq::<T>::empty();
        let mut current = &mut self.head;
        while current.as_ref().unwrap().next.is_some()
            invariant
                current.is_some(),
                original == prefix + chain(*current),
                chain(after_borrow(self.head)) == prefix + chain(*final(current)),
            decreases chain(*current).len(),
        {
            proof {
                lemma_chain_unfold(*current);
                prefix = prefix.push(*current.unwrap().data);
            }
            current = &mut current.as_mut().unwrap().next;
        }
        let ghost last = chain(*current);
        proof {
            lemma_chain_unfold(*current);
        }
        if let Some(node) = current {
            node.next = new_node;
        }
        proof {
            lemma_chain_unfold(*current);
            assert(chain(*current) =~= last.push(value));
            assert(chain(self.head) =~= original.push(value));
        }
    }

    /// Removes the last node from the list and returns its value.
    pub fn pop(&mut self) -> (last: Option<T>)
        requires
            old(self).wf(),
        ensures
            final(self).wf(),
            old(self)@.len() == 0 ==> last is None && final(self)@ == old(self)@,
            old(self)@.len() > 0 ==> last == Some(old(self)@.last()) && final(self)@ == old(
                self,
            )@.drop_last(),
    {
        if self.is_empty() {
            return None;
        }
        self.size -= 1;
        let ghost original = chain(self.head);
        let ghost mut prefix = Seq::<T>::empty();
        let mut current = &mut self.head;
        while current.as_ref().unwrap().next.is_some()
            invariant
                current.is_some(),
                original == prefix + chain(*current),
                chain(after_borrow(self.head)) == prefix + chain(*final(current)),
            decreases chain(*current).len(),
        {
            proof {
                lemma_chain_unfold(*current);
                prefix = prefix.push(*current.unwrap().data);
            }
            current = &mut current.as_mut().unwrap().next;
        }
        proof {
            lemma_chain_unfold(*current);
            lemma_chain_unfold(current.unwrap().next);
        }
        let last_node = current.take().unwrap();
        proof {
            assert(chain(self.head) =~= original.drop_last());
        }
        Some(*last_node.data)
    }

    /// Collects a shared handle to every value, head first.
    pub fn to_vec(&self) -> (values: Vec<&T>)
        ensures
            values@.len() == self@.len(),
            forall|i: int| 0 <= i < self@.len() ==> *#[trigger] values@[i] == self@[i],
    {
        let mut values: Vec<&T> = Vec::new();
        let mut current = &self.head;
        while current.is_some()
            invariant
                self@.len() == values@.len() + chain(*current).len(),
                self@.subrange(values@.len() as int, self@.len() as int) == chain(*current),
                forall|i: int| 0 <= i < values@.len() ==> *#[trigger] values@[i] == self@[i],
            decreases chain(*current).len(),
        {
            proof {
                lemma_chain_unfold(*current);
            }
            let node = current.as_ref().unwrap();
            let ghost done = values@.len() as int;
            assert(self@[done] == *node.data) by {
                assert(self@.subrange(done, self@.len() as int)[0] == chain(*current)[0]);
            }
            assert(self@.subrange(done + 1, self@.len() as int) =~= chain(node.next)) by {
                assert(self@.subrange(done, self@.len() as int).drop_first() =~= self@.subrange(
                    done + 1,
                    self@.len() as int,
                ));
            }
            values.push(&*node.data);
            current = &node.next;
        }
        values
    }

    /// Checks whether the list is empty.
    pub fn is_empty(&self) -> (empty: bool)
        ensures
            empty == (self@.len() == 0),
    {
        proof {
            lemma_chain_unfold(self.head);
        }
        self.head.is_none()
    }
}

impl<T> Drop for List<T> {
    /// Releases the chain node by node, so that a long list does not
    /// need a deep call stack to be destroyed.
    fn drop(&mut self)
        opens_invariants none
        no_unwind
    {
        let mut current: Link<T> = None;
        core::mem::swap(&mut current, &mut self.head);
        loop
            decreases chain(current).len(),
        {
            match current {
                Some(node) => {
                    proof {
                        lemma_chain_unfold(current);
                    }
                    let Node { data, next } = *node;
                    current = next;
                },
                None => {
                    break ;
                },
            }
        }
    }
}

} // verus!
