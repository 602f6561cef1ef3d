//! A singly linked list with exclusive node-to-node ownership.

use vstd::prelude::*;

pub mod node;

use node::{chain, lemma_chain_unfold, Link, Node};

verus! {

/// A singly linked list that stores values of type `T`.
///
/// The list owns its head node, which owns the next one, and so on to
/// the end of the chain. It also caches the number of nodes.
pub struct LinkedList<T> {
    pub head: Link<T>,
    pub size: usize,
}

impl<T> View for LinkedList<T> {
    type V = Seq<T>;

    /// The stored values, head first.
    open spec fn view(&self) -> Seq<T> {
        chain(self.head)
    }
}

/// Index `i` holds the first value of `s` that `p` accepts.
pub open spec fn first_accepted<T, F: Fn(&T) -> bool>(p: F, s: Seq<T>, i: int) -> bool {
    &&& 0 <= i < s.len()
    &&& call_ensures(p, (&s[i],), true)
    &&& forall|j: int| 0 <= j < i ==> call_ensures(p, (&#[trigger] s[j],), false)
}

/// What removing the first value hands out: the first value, or `None`
/// if there is none.
pub open spec fn popped_value<T>(items: Seq<T>) -> Option<T> {
    if items.len() == 0 {
        None
    } else {
        Some(items[0])
    }
}

/// What removing the first value leaves behind: everything after it.
/// Nothing is removed from an empty sequence.
pub open spec fn after_pop<T>(items: Seq<T>) -> Seq<T> {
    if items.len() == 0 {
        items
    } else {
        items.drop_first()
    }
}

/// What `count` removals from the front hand out, in order.
pub open spec fn drained<T>(items: Seq<T>, count: nat) -> Seq<Option<T>>
    decreases count,
{
    if count == 0 {
        Seq::empty()
    } else {
        seq![popped_value(items)] + drained(after_pop(items), (count - 1) as nat)
    }
}

/// What `count` removals from the front leave behind.
pub open spec fn after_pops<T>(items: Seq<T>, count: nat) -> Seq<T>
    decreases count,
{
    if count == 0 {
        items
    } else {
        after_pops(after_pop(items), (count - 1) as nat)
    }
}

/// Removals from the front go through a sequence in order: as many
/// removals as `first` has values hand out exactly those values and
/// leave `rest`.
pub proof fn lemma_drain_front<T>(first: Seq<T>, rest: Seq<T>)
    ensures
        drained(first + rest, first.len()) == first.map_values(|value: T| Some(value)),
        after_pops(first + rest, first.len()) == rest,
    decreases first.len(),
{
    if first.len() > 0 {
        assert((first + rest).drop_first() =~= first.drop_first() + rest);
        lemma_drain_front(first.drop_first(), rest);
        assert(drained(first + rest, first.len()) =~= first.map_values(|value: T| Some(value)));
    } else {
        assert(drained(first + rest, first.len()) =~= first.map_values(|value: T| Some(value)));
        assert(first + rest =~= rest);
    }
}

/// A walk over `len` values hands index `i` to its callback: every
/// index but the last.
pub open spec fn walk_reaches(len: nat, i: int) -> bool {
    0 <= i < len - 1
}

/// `p` turned down every value of `s`.
pub open spec fn none_accepted<T, F: Fn(&T) -> bool>(p: F, s: Seq<T>) -> bool {
    forall|j: int| 0 <= j < s.len() ==> call_ensures(p, (&#[trigger] s[j],), false)
}

impl<T> LinkedList<T> {
    /// The cached length agrees with the number of nodes in the chain.
    pub open spec fn wf(&self) -> bool {
        self.size == chain(self.head).len()
    }

    /// Creates a new, empty linked list.
    pub fn new() -> (list: LinkedList<T>)
        ensures
            list.wf(),
            list@ == Seq::<T>::empty(),
    {
        LinkedList { head: None, size: 0 }
    }

    /// Returns the number of nodes in the linked list, cut down to 32 bits.
    pub fn size(&self) -> (count: u32)
        requires
            self.wf(),
        ensures
            count == self@.len() as u32,
            self@.len() <= u32::MAX ==> count == self@.len(),
    {
        #[verifier::truncate]
        (self.size as u32)
    }

    /// Collects a shared handle to every value, head first.
    pub fn to_vec(&self) -> (values: Vec<&T>)
        ensures
            values@.len() == self@.len(),
            forall|i: int| 0 <= i < self@.len() ==> *#[trigger] values@[i] == self@[i],
    {
        let mut values: Vec<&T> = Vec::new();
        let mut current = &self.head;
        while current.is_some()
            invariant
                self@.len() == values@.len() + chain(*current).len(),
                self@.subrange(values@.len() as int, self@.len() as int) == chain(*current),
                forall|i: int| 0 <= i < values@.len() ==> *#[trigger] values@[i] == self@[i],
            decreases chain(*current).len(),
        {
            proof {
                lemma_chain_unfold(*current);
            }
            let node = current.as_ref().unwrap();
            let ghost done = values@.len() as int;
            assert(self@[done] == *node.data) by {
                assert(self@.subrange(done, self@.len() as int)[0] == chain(*current)[0]);
            }
            assert(self@.subrange(done + 1, self@.len() as int) =~= chain(node.next)) by {
                assert(self@.subrange(done, self@.len() as int).drop_first() =~= self@.subrange(
                    done + 1,
                    self@.len() as int,
                ));
            }
            values.push(&*node.data);
            current = &node.next;
        }
        values
    }

    /// Checks whether the linked list is empty.
    pub fn is_empty(&self) -> (empty: bool)
        ensures
            empty == (self@.len() == 0),
    {
        proof {
            lemma_chain_unfold(self.head);
        }
        self.head.is_none()
    }

    /// Walks the chain from the head and hands each value, with its
    /// index, to `visit`, which may change it in place.
    ///
    /// The walk stops at the node that has no successor, so the last
    /// value of the list is never handed to `visit` and keeps its value.
    /// Whether the tail should be visited as well is an open design
    /// question; callers that need every value must not rely on this
    /// method until it is settled.
    pub fn for_each_mut<F>(&mut self, visit: F) where F: Fn(&mut T, usize)
        requires
            old(self).wf(),
            forall|i: usize, value: &mut T|
                walk_reaches(old(self)@.len(), i as int) && *value == old(self)@[i as int]
                    ==> #[trigger] call_requires(visit, (value, i)),
        ensures
            final(self).wf(),
            final(self)@.len() == old(self)@.len(),
            old(self)@.len() > 0 ==> final(self)@.last() == old(self)@.last(),
            forall|i: usize|
                #![trigger walk_reaches(old(self)@.len(), i as int)]
                walk_reaches(old(self)@.len(), i as int) ==> exists|value: &mut T|
                    #![trigger call_ensures(visit, (value, i), ())]
                    {
                        &&& *value == old(self)@[i as int]
                        &&& *final(value) == final(self)@[i as int]
                        &&& call_ensures(visit, (value, i), ())
                    },
    {
        if self.head.is_none() {
            return;
        }
        let ghost original = chain(self.head);
        let ghost mut prefix = Seq::<T>::empty();
        proof {
            lemma_chain_unfold(self.head);
        }
        let mut current = self.head.as_mut().unwrap();
        let mut cont: usize = 0;

        while current.next.is_some()
            invariant
                original == old(self)@,
                original.len() <= usize::MAX,
                self.size == original.len(),
                cont == prefix.len(),
                original.len() == prefix.len() + current.values().len(),
                original.subrange(cont as int, original.len() as int) == current.values(),
                chain(after_borrow(self.head)) == prefix + final(current).values(),
                forall|i: usize, value: &mut T|
                    walk_reaches(original.len(), i as int) && *value == original[i as int]
                        ==> #[trigger] call_requires(visit, (value, i)),
                forall|i: usize|
                    #![trigger walk_reaches(prefix.len() + 1, i as int)]
                    walk_reaches(prefix.len() + 1, i as int) ==> exists|value: &mut T|
                        #![trigger call_ensures(visit, (value, i), ())]
                        {
                            &&& *value == original[i as int]
                            &&& *final(value) == prefix[i as int]
                            &&& call_ensures(visit, (value, i), ())
                        },
            decreases chain(current.next).len(),
        {
            proof {
                lemma_chain_unfold(current.next);
            }
            let ghost before = prefix;
            let ghost rest = chain(current.next);
            assert(original[cont as int] == *current.data) by {
                assert(original.subrange(cont as int, original.len() as int)[0] == current.values()[0]);
            }
            let value: &mut T = &mut *current.data;
            visit(value, cont);
            proof {
                prefix = prefix.push(*current.data);
                assert(original.subrange(cont + 1, original.len() as int) =~= rest) by {
                    assert(original.subrange(cont as int, original.len() as int).drop_first()
                        =~= original.subrange(cont + 1, original.len() as int));
                }
                assert forall|i: usize|
                    #![trigger walk_reaches(prefix.len() + 1, i as int)]
                    walk_reaches(prefix.len() + 1, i as int) implies exists|value: &mut T|
                    #![trigger call_ensures(visit, (value, i), ())]
                    {
                        &&& *value == original[i as int]
                        &&& *final(value) == prefix[i as int]
                        &&& call_ensures(visit, (value, i), ())
                    } by {
                    if i < before.len() {
                        assert(walk_reaches(before.len() + 1, i as int));
                        assert(prefix[i as int] == before[i as int]);
                    }
                }
            }
            cont += 1;
            current = current.next.as_mut().unwrap()
        }
        proof {
            lemma_chain_unfold(current.next);
            assert(current.values() =~= seq![*current.data]);
            assert(chain(self.head) =~= prefix.push(original.last())) by {
                assert(original.subrange(cont as int, original.len() as int)[0] == current.values()[0]);
            }
        }
    }

    /// Walks the chain from the head and hands each value, with its
    /// index, to `visit`.
    ///
    /// The walk stops at the node that has no successor, so the last
    /// value of the list is never handed to `visit`. Whether the tail
    /// should be visited as well is an open design question; callers
    /// that need every value should use [`LinkedList::to_vec`].
    pub fn for_each<F>(&self, visit: F) where F: Fn(&T, usize)
        requires
            self.wf(),
            forall|i: usize|
                walk_reaches(self@.len(), i as int) ==> #[trigger] call_requires(
                    visit,
                    (&self@[i as int], i),
                ),
        ensures
            forall|i: usize|
                #[trigger] walk_reaches(self@.len(), i as int) ==> call_ensures(
                    visit,
                    (&self@[i as int], i),
                    (),
                ),
    {
        if self.head.is_none() {
            return;
        }
        proof {
            lemma_chain_unfold(self.head);
        }
        let mut current = self.head.as_ref().unwrap();
        let mut cont: usize = 0;

        while current.next.is_some()
            invariant
                self.wf(),
                self@.len() <= usize::MAX,
                cont + current.values().len() == self@.len(),
                self@.subrange(cont as int, self@.len() as int) == current.values(),
                forall|i: usize|
                    walk_reaches(self@.len(), i as int) ==> #[trigger] call_requires(
                        visit,
                        (&self@[i as int], i),
                    ),
                forall|i: usize|
                    #[trigger] walk_reaches(cont as nat + 1, i as int) ==> call_ensures(
                        visit,
                        (&self@[i as int], i),
                        (),
                    ),
            decreases chain(current.next).len(),
        {
            proof {
                lemma_chain_unfold(current.next);
            }
            assert(self@[cont as int] == *current.data) by {
                assert(self@.subrange(cont as int, self@.len() as int)[0] == current.values()[0]);
            }
            visit(&*current.data, cont);
            proof {
                assert forall|i: usize| #[trigger]
                    walk_reaches(cont as nat + 2, i as int) implies call_ensures(
                    visit,
                    (&self@[i as int], i),
                    (),
                ) by {
                    if i < cont {
                        assert(walk_reaches(cont as nat + 1, i as int));
                    }
                }
                assert(self@.subrange(cont + 1, self@.len() as int) =~= chain(current.next)) by {
                    assert(self@.subrange(cont as int, self@.len() as int).drop_first()
                        =~= self@.subrange(cont + 1, self@.len() as int));
                }
            }
            current = current.next.as_ref().unwrap();
            cont += 1;
        }
    }

    /// Removes and returns the last node in the linked list, if it exists.
    pub fn remove(&mut self) -> (last: Option<T>)
        requires
            old(self).wf(),
        ensures
            final(self).wf(),
            old(self)@.len() == 0 ==> last is None && final(self)@ == old(self)@,
            old(self)@.len() > 0 ==> last == Some(old(self)@.last()) && final(self)@ == old(
                self,
            )@.drop_last(),
    {
        if self.is_empty() {
            return None;
        }
        self.size -= 1;
        let ghost original = chain(self.head);
        let ghost mut prefix = Seq::<T>::empty();
        let mut current = &mut self.head;
        while current.as_ref().unwrap().next.is_some()
            invariant
                current.is_some(),
                original == prefix + chain(*current),
                chain(after_borrow(self.head)) == prefix + chain(*final(current)),
            decreases chain(*current).len(),
        {
            proof {
                lemma_chain_unfold(*current);
                prefix = prefix.push(*current.unwrap().data);
            }
            current = &mut current.as_mut().unwrap().next;
        }
        proof {
            lemma_chain_unfold(*current);
            lemma_chain_unfold(current.unwrap().next);
        }
        let last_node = current.take().unwrap();
        proof {
            assert(chain(self.head) =~= original.drop_last());
        }
        Some(*last_node.data)
    }

    /// Returns a copy of the first value, without removing it.
    pub fn peek_head(&self) -> (head: Option<T>) where T: Clone
        requires
            self.wf(),
        ensures
            self@.len() == 0 ==> head is None,
            self@.len() > 0 ==> head is Some && cloned(self@[0], head->0),
    {
        proof {
            lemma_chain_unfold(self.head);
        }
        if let Some(node) = self.head.as_ref() {
            return Some(*node.data.clone());
        }
        return None;
    }

    /// Removes and returns the first node in the linked list.
    pub fn pop(&mut self) -> (first: Option<T>)
        requires
            old(self).wf(),
        ensures
            final(self).wf(),
            first == popped_value(old(self)@),
            final(self)@ == after_pop(old(self)@),
    {
        if self.head.is_none() {
            return None;
        }
        proof {
            lemma_chain_unfold(self.head);
        }
        let top_node = self.head.take().unwrap();
        self.head = top_node.next;
        self.size -= 1;
        return Some(*top_node.data);
    }

    /// Finds the first value that `match_expression` accepts and hands out
    /// a mutable handle to it; the chain keeps its shape.
    pub fn find_as_mut_reference<F>(&mut self, match_expression: F) -> (found: Option<
        &mut T,
    >) where F: Fn(&T) -> bool
        requires
            old(self).wf(),
            forall|i: int|
                0 <= i < old(self)@.len() ==> call_requires(
                    match_expression,
                    (&#[trigger] old(self)@[i],),
                ),
        ensures
            final(self).wf(),
            final(self)@.len() == old(self)@.len(),
            match found {
                Some(value) => exists|i: int|
                    {
                        &&& first_accepted(match_expression, old(self)@, i)
                        &&& *value == old(self)@[i]
                        &&& final(self)@ == old(self)@.update(i, *final(value))
                    },
                None => {
                    &&& none_accepted(match_expression, old(self)@)
                    &&& final(self)@ == old(self)@
                },
            },
    {
        let ghost original = self@;
        let ghost mut prefix = Seq::<T>::empty();
        let mut current = &mut self.head;
        while current.is_some()
            invariant
                original == old(self)@,
                original == prefix + chain(*current),
                chain(after_borrow(self.head)) == prefix + chain(*final(current)),
                self.size == original.len(),
                none_accepted(match_expression, prefix),
                forall|i: int|
                    0 <= i < original.len() ==> call_requires(
                        match_expression,
                        (&#[trigger] original[i],),
                    ),
            decreases chain(*current).len(),
        {
            proof {
                lemma_chain_unfold(*current);
            }
            let ghost index = prefix.len() as int;
            assert(original[index] == *current.unwrap().data);
            let accepted = match_expression(&*current.as_ref().unwrap().data);
            if accepted {
                let ghost rest = chain(current.unwrap().next);
                let value: &mut T = &mut *current.as_mut().unwrap().data;
                proof {
                    assert(first_accepted(match_expression, original, index));
                    assert(prefix + (seq![*final(value)] + rest) =~= original.update(
                        index,
                        *final(value),
                    ));
                }
                return Some(value);
            }
            proof {
                prefix = prefix.push(*current.unwrap().data);
            }
            current = &mut current.as_mut().unwrap().next;
        }
        proof {
            lemma_chain_unfold(*current);
            assert(prefix =~= original);
        }
        None
    }

    /// Finds the first value that `match_expression` accepts and hands out
    /// a shared handle to it.
    pub fn find_as_reference<F>(&self, match_expression: F) -> (found: Option<&T>) where
        F: Fn(&T) -> bool,

        requires
            forall|i: int|
                0 <= i < self@.len() ==> call_requires(match_expression, (&#[trigger] self@[i],)),
        ensures
            match found {
                Some(value) => exists|i: int|
                    {
                        &&& first_accepted(match_expression, self@, i)
                        &&& *value == self@[i]
                    },
                None => none_accepted(match_expression, self@),
            },
    {
        let ghost mut prefix = Seq::<T>::empty();
        let mut current = &self.head;
        while current.is_some()
            invariant
                self@ == prefix + chain(*current),
                none_accepted(match_expression, prefix),
                forall|i: int|
                    0 <= i < self@.len() ==> call_requires(
                        match_expression,
                        (&#[trigger] self@[i],),
                    ),
            decreases chain(*current).len(),
        {
            proof {
                lemma_chain_unfold(*current);
            }
            let node = current.as_ref().unwrap();
            let ghost index = prefix.len() as int;
            assert(self@[index] == *node.data);
            if match_expression(&*node.data) {
                proof {
                    assert(first_accepted(match_expression, self@, index));
                }
                return Some(&*node.data);
            }
            proof {
                prefix = prefix.push(*node.data);
            }
            current = &node.next;
        }
        proof {
            lemma_chain_unfold(*current);
            assert(prefix =~= self@);
        }
        None
    }

    /// Searches from the head for the first value that `match_expression`
    /// accepts, unlinks that node and returns its value.
    pub fn find<F>(&mut self, match_expression: F) -> (found: Option<T>) where F: Fn(&T) -> bool
        requires
            old(self).wf(),
            forall|i: int|
                0 <= i < old(self)@.len() ==> call_requires(
                    match_expression,
                    (&#[trigger] old(self)@[i],),
                ),
        ensures
            final(self).wf(),
            match found {
                Some(value) => exists|i: int|
                    {
                        &&& first_accepted(match_expression, old(self)@, i)
                        &&& value == old(self)@[i]
                        &&& final(self)@ == old(self)@.remove(i)
                    },
                None => {
                    &&& none_accepted(match_expression, old(self)@)
                    &&& final(self)@ == old(self)@
                },
            },
            final(self)@.len() == old(self)@.len() - (if found is Some { 1int } else { 0int }),
    {
        let ghost original = self@;
        let ghost mut prefix = Seq::<T>::empty();
        let mut current = &mut self.head;
        while current.is_some()
            invariant
                original == old(self)@,
                original == prefix + chain(*current),
                chain(after_borrow(self.head)) == prefix + chain(*final(current)),
                self.size == original.len(),
                none_accepted(match_expression, prefix),
                forall|i: int|
                    0 <= i < original.len() ==> call_requires(
                        match_expression,
                        (&#[trigger] original[i],),
                    ),
            decreases chain(*current).len(),
        {
            proof {
                lemma_chain_unfold(*current);
            }
            let ghost index = prefix.len() as int;
            assert(original[index] == *current.unwrap().data);
            let accepted = match_expression(&*current.as_ref().unwrap().data);
            if accepted {
                let node = current.take().unwrap();
                *current = node.next;
                self.size -= 1;
                proof {
                    assert(chain(self.head) =~= original.remove(index));
                    assert(first_accepted(match_expression, original, index));
                }
                return Some(*node.data);
            }
            proof {
                prefix = prefix.push(*current.unwrap().data);
            }
            current = &mut current.as_mut().unwrap().next;
        }
        proof {
            lemma_chain_unfold(*current);
            assert(prefix =~= original);
        }
        None
    }
}

impl<T: Clone> Clone for LinkedList<T> {
    /// Builds a second chain that holds a clone of every value, in the
    /// same order.
    fn clone(&self) -> (copy: Self)
        ensures
            self.wf() ==> copy.wf(),
            copy@.len() == self@.len(),
            forall|i: int| 0 <= i < self@.len() ==> cloned(self@[i], #[trigger] copy@[i]),
    {
        let mut head: Link<T> = None;
        let ghost mut copied = Seq::<T>::empty();
        let mut tail = &mut head;
        let mut current = &self.head;
        while current.is_some()
            invariant
                *tail is None,
                chain(after_borrow(head)) == copied + chain(*final(tail)),
                self@.len() == copied.len() + chain(*current).len(),
                self@.subrange(copied.len() as int, self@.len() as int) == chain(*current),
                forall|i: int| 0 <= i < copied.len() ==> cloned(self@[i], #[trigger] copied[i]),
            decreases chain(*current).len(),
        {
            proof {
                lemma_chain_unfold(*current);
            }
            let node = current.as_ref().unwrap();
            let ghost done = copied.len() as int;
            assert(self@[done] == *node.data) by {
                assert(self@.subrange(done, self@.len() as int)[0] == chain(*current)[0]);
            }
            assert(self@.subrange(done + 1, self@.len() as int) =~= chain(node.next)) by {
                assert(self@.subrange(done, self@.len() as int).drop_first() =~= self@.subrange(
                    done + 1,
                    self@.len() as int,
                ));
            }
            let value = (*node.data).clone();
            proof {
                copied = copied.push(value);
            }
            *tail = Some(Box::new(Node::new(value)));
            tail = &mut tail.as_mut().unwrap().next;
            current = &node.next;
        }
        proof {
            assert(chain(head) =~= copied);
        }
        LinkedList { head, size: self.size }
    }
}

impl<T> Drop for LinkedList<T> {
    /// Releases the chain node by node, so that a long list does not
    /// need a deep call stack to be destroyed.
    fn drop(&mut self)
        opens_invariants none
        no_unwind
    {
        let mut current: Link<T> = None;
        core::mem::swap(&mut current, &mut self.head);
        loop
            decreases chain(current).len(),
        {
            match current {
                Some(node) => {
                    proof {
                        lemma_chain_unfold(current);
                    }
                    let Node { data, next } = *node;
                    current = next;
                },
                None => {
                    break ;
                },
            }
        }
    }
}

} // verus!
