//! The link-chain unit shared by every list in this crate.

use vstd::prelude::*;

verus! {

/// An owning pointer to the rest of a chain; `None` marks its end.
pub type Link<T> = Option<Box<Node<T>>>;

/// One link of a chain: a value and the exclusively owned remainder.
pub struct Node<T> {
    pub data: Box<T>,
    pub next: Link<T>,
}

/// The values reachable from `link`, first node first.
pub open spec fn chain<T>(link: Link<T>) -> Seq<T>
    decreases link,
{
    match link {
        None => Seq::empty(),
        Some(node) => seq![*node.data] + chain(node.next),
    }
}

impl<T> Node<T> {
    /// The values of this node and of every node after it.
    pub open spec fn values(self) -> Seq<T> {
        seq![*self.data] + chain(self.next)
    }

    /// A detached node that holds `value`.
    pub fn new(value: T) -> (node: Node<T>)
        ensures
            *node.data == value,
            node.next is None,
            node.values() == seq![value],
    {
        let node = Node { data: Box::new(value), next: None };
        assert(node.values() =~= seq![value]);
        node
    }
}

/// A chain is empty exactly when it has no first node, and otherwise
/// it is its first value followed by the rest.
pub proof fn lemma_chain_unfold<T>(link: Link<T>)
    ensures
        link is None <==> chain(link).len() == 0,
        link matches Some(node) ==> {
            &&& chain(link) == node.values()
            &&& chain(link).len() == 1 + chain(node.next).len()
            &&& chain(link)[0] == *node.data
            &&& chain(link).drop_first() == chain(node.next)
        },
{
    if let Some(node) = link {
        assert(chain(link).drop_first() =~= chain(node.next));
    }
}

} // verus!
