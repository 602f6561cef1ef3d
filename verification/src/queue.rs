//! First-in, first-out access to a linked list.

use vstd::prelude::*;
use crate::linked_list::{after_pop, after_pops, drained, lemma_drain_front, popped_value, LinkedList};
use crate::linked_list::node::{chain, lemma_chain_unfold, Node};

verus! {

/// A collection that hands its values back in the order they arrived.
pub trait Queue<T> {
    /// The waiting values, oldest first.
    spec fn queued(&self) -> Seq<T>;

    /// The implementor's own consistency condition.
    spec fn queue_wf(&self) -> bool;

    /// Appends `value` to the end of the queue.
    fn append(&mut self, value: T)
        requires
            old(self).queue_wf(),
            old(self).queued().len() < usize::MAX,
        ensures
            final(self).queue_wf(),
            final(self).queued() == old(self).queued().push(value),
    ;

    /// Removes and returns the oldest value, or `None` if the queue is empty.
    fn pop(&mut self) -> (front: Option<T>)
        requires
            old(self).queue_wf(),
        ensures
            final(self).queue_wf(),
            front == popped_value(old(self).queued()),
            final(self).queued() == after_pop(old(self).queued()),
    ;

    /// The number of waiting values, cut down to 32 bits.
    fn size(&self) -> (count: u32)
        requires
            self.queue_wf(),
        ensures
            count == self.queued().len() as u32,
            self.queued().len() <= u32::MAX ==> count == self.queued().len(),
    ;
}

/// The queue after each of `values` was appended to `items` in turn.
pub open spec fn appended_all<T>(items: Seq<T>, values: Seq<T>) -> Seq<T>
    decreases values.len(),
{
    if values.len() == 0 {
        items
    } else {
        appended_all(items.push(values[0]), values.drop_first())
    }
}

/// Appending one by one is concatenation.
pub proof fn lemma_appended_all<T>(items: Seq<T>, values: Seq<T>)
    ensures
        appended_all(items, values) == items + values,
    decreases values.len(),
{
    if values.len() == 0 {
        assert(items + values =~= items);
    } else {
        lemma_appended_all(items.push(values[0]), values.drop_first());
        assert(items.push(values[0]) + values.drop_first() =~= items + values);
    }
}

/// The queue law: values come out in the order they went in. After
/// `values` were appended to a queue that held `items`, the pops hand
/// out `items` and then `values`, each in its own order, and leave the
/// queue empty; a pop on the empty queue hands out `None` and leaves it
/// empty.
pub proof fn lemma_first_in_first_out<T>(items: Seq<T>, values: Seq<T>)
    ensures
        drained(appended_all(items, values), items.len() + values.len()) == (items
            + values).map_values(|value: T| Some(value)),
        after_pops(appended_all(items, values), items.len() + values.len()) == Seq::<T>::empty(),
        popped_value(Seq::<T>::empty()) == None::<T>,
        after_pop(Seq::<T>::empty()) == Seq::<T>::empty(),
{
    lemma_appended_all(items, values);
    assert((items + values) + Seq::<T>::empty() =~= items + values);
    lemma_drain_front(items + values, Seq::empty());
}

impl<T> Queue<T> for LinkedList<T> {
    open spec fn queued(&self) -> Seq<T> {
        self@
    }

    open spec fn queue_wf(&self) -> bool {
        self.wf()
    }

    fn append(&mut self, value: T) {
        self.size += 1;
        let new_node = Some(Box::new(Node::new(value)));
        if self.head.is_none() {
            self.head = new_node;
            assert(chain(self.head) =~= old(self)@.push(value));
            return;
        }
        let ghost original = chain(self.head);
        let ghost mut prefix = Seq::<T>::empty();
        let mut current = &mut self.head;
        while current.as_ref().unwrap().next.is_some()
            invariant
                current.is_some(),
                original == prefix + chain(*current),
                chain(after_borrow(self.head)) == prefix + chain(*final(current)),
            decreases chain(*current).len(),
        {
            proof {
                lemma_chain_unfold(*current);
                prefix = prefix.push(*current.unwrap().data);
            }
            current = &mut current.as_mut().unwrap().next;
        }
        let ghost last = chain(*current);
        proof {
            lemma_chain_unfold(*current);
        }
        if let Some(node) = current {
            node.next = new_node;
        }
        proof {
            lemma_chain_unfold(*current);
            assert(chain(*current) =~= last.push(value));
            assert(chain(self.head) =~= original.push(value));
        }
    }

    fn pop(&mut self) -> (front: Option<T>) {
        if self.head.is_none() {
            return None;
        }
        proof {
            lemma_chain_unfold(self.head);
        }
        let top_node = self.head.take().unwrap();
        self.head = top_node.next;
        self.size -= 1;
        return Some(*top_node.data);
    }

    fn size(&self) -> (count: u32) {
        #[verifier::truncate]
        (self.size as u32)
    }
}

} // verus!
