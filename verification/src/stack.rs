//! Last-in, first-out access to a linked list.

use vstd::prelude::*;
use crate::linked_list::{after_pop, after_pops, drained, lemma_drain_front, popped_value, LinkedList};
use crate::linked_list::node::{chain, lemma_chain_unfold, Node};

verus! {

/// A collection that hands its values back newest first.
pub trait Stack<T> {
    /// The stacked values, newest first.
    spec fn stacked(&self) -> Seq<T>;

    /// The implementor's own consistency condition.
    spec fn stack_wf(&self) -> bool;

    /// Adds `value` to the top of the stack.
    fn prepend(&mut self, value: T)
        requires
            old(self).stack_wf(),
            old(self).stacked().len() < usize::MAX,
        ensures
            final(self).stack_wf(),
            final(self).stacked() == seq![value] + old(self).stacked(),
    ;

    /// Removes and returns the top value, or `None` if the stack is empty.
    fn pop(&mut self) -> (top: Option<T>)
        requires
            old(self).stack_wf(),
        ensures
            final(self).stack_wf(),
            top == popped_value(old(self).stacked()),
            final(self).stacked() == after_pop(old(self).stacked()),
    ;

    /// The number of stacked values, cut down to 32 bits.
    fn size(&self) -> (count: u32)
        requires
            self.stack_wf(),
        ensures
            count == self.stacked().len() as u32,
            self.stacked().len() <= u32::MAX ==> count == self.stacked().len(),
    ;
}

/// The stack after each of `values` was put on top of `items` in turn.
pub open spec fn prepended_all<T>(items: Seq<T>, values: Seq<T>) -> Seq<T>
    decreases values.len(),
{
    if values.len() == 0 {
        items
    } else {
        prepended_all(seq![values[0]] + items, values.drop_first())
    }
}

/// Stacking one by one puts the values on top in reverse.
pub proof fn lemma_prepended_all<T>(items: Seq<T>, values: Seq<T>)
    ensures
        prepended_all(items, values) == values.reverse() + items,
    decreases values.len(),
{
    if values.len() == 0 {
        assert(values.reverse() + items =~= items);
    } else {
        lemma_prepended_all(seq![values[0]] + items, values.drop_first());
        assert(values.drop_first().reverse() + (seq![values[0]] + items) =~= values.reverse()
            + items);
    }
}

/// The stack law: values come off in exactly the reverse of the order
/// they went on. After `values` were put on a stack that held `items`,
/// as many pops hand out `values` in reverse and leave `items` as they
/// were; a pop on the empty stack hands out `None`.
pub proof fn lemma_last_in_first_out<T>(items: Seq<T>, values: Seq<T>)
    ensures
        drained(prepended_all(items, values), values.len()) == values.reverse().map_values(
            |value: T| Some(value),
        ),
        after_pops(prepended_all(items, values), values.len()) == items,
        popped_value(Seq::<T>::empty()) == None::<T>,
        after_pop(Seq::<T>::empty()) == Seq::<T>::empty(),
{
    lemma_prepended_all(items, values);
    lemma_drain_front(values.reverse(), items);
}

impl<T> Stack<T> for LinkedList<T> {
    open spec fn stacked(&self) -> Seq<T> {
        self@
    }

    open spec fn stack_wf(&self) -> bool {
        self.wf()
    }

    fn prepend(&mut self, value: T) {
        let mut new_node = Box::new(Node::new(value));
        new_node.next = self.head.take();
        self.head = Some(new_node);
        self.size += 1;
        proof {
            lemma_chain_unfold(self.head);
        }
    }

    fn pop(&mut self) -> (top: Option<T>) {
        if self.head.is_none() {
            return None;
        }
        proof {
            lemma_chain_unfold(self.head);
        }
        let top_node = self.head.take().unwrap();
        self.head = top_node.next;
        self.size -= 1;
        return Some(*top_node.data);
    }

    fn size(&self) -> (count: u32) {
        #[verifier::truncate]
        (self.size as u32)
    }
}

} // verus!
