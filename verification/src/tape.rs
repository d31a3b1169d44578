use vstd::prelude::*;
use crate::node::Node;

verus! {

/// An append-only record of scalar operations.
///
/// A node built by the operators of [`crate::Value`] names only nodes recorded
/// before it, so a tape filled that way holds no cycle. A tape taken over
/// from elsewhere with [`Tape::from_nodes`] is held to nothing.
#[derive(Debug)]
pub struct Tape {
    nodes: Vec<Node>,
}

impl View for Tape {
    type V = Seq<Node>;

    closed spec fn view(&self) -> Seq<Node> {
        self.nodes@
    }
}

/// Node `n` exists and names only nodes recorded before it.
pub open spec fn placed(nodes: Seq<Node>, n: usize) -> bool {
    &&& n < nodes.len()
    &&& nodes[n as int].first() matches Some(a) ==> a < n
    &&& nodes[n as int].second() matches Some(b) ==> b < n
}

/// `node` names only positions below `len`.
pub open spec fn fits(node: Node, len: nat) -> bool {
    &&& node.first() matches Some(a) ==> a < len
    &&& node.second() matches Some(b) ==> b < len
}

/// Every node names only nodes recorded before it.
pub open spec fn ordered(nodes: Seq<Node>) -> bool {
    forall|n: usize| n < nodes.len() ==> placed(nodes, n)
}

impl Tape {
    /// An empty tape.
    pub fn new() -> (t: Tape)
        ensures
            t@ == Seq::<Node>::empty(),
    {
        Tape { nodes: Vec::new() }
    }

    /// A tape that holds the given nodes as they are.
    pub fn from_nodes(nodes: Vec<Node>) -> (t: Tape)
        ensures
            t@ == nodes@,
    {
        Tape { nodes }
    }

    /// The number of nodes recorded.
    pub fn len(&self) -> (n: usize)
        ensures
            n == self@.len(),
    {
        self.nodes.len()
    }

    pub fn is_empty(&self) -> (e: bool)
        ensures
            e == (self@.len() == 0),
    {
        self.nodes.len() == 0
    }

    /// The node at position `index`, if there is one.
    pub fn get(&self, index: usize) -> (r: Option<Node>)
        ensures
            r == if index < self@.len() {
                Some(self@[index as int])
            } else {
                None
            },
    {
        if index < self.nodes.len() {
            Some(self.nodes[index])
        } else {
            None
        }
    }

    /// The node at position `index`.
    pub(crate) fn node(&self, index: usize) -> (r: Node)
        requires
            index < self@.len(),
        ensures
            r == self@[index as int],
    {
        self.nodes[index]
    }

    /// Appends a node and returns its position.
    pub fn record(&mut self, node: Node) -> (index: usize)
        ensures
            final(self)@ == old(self)@.push(node),
            index == old(self)@.len(),
            ordered(old(self)@) && fits(node, old(self)@.len()) ==> ordered(final(self)@),
    {
        let index = self.nodes.len();
        self.nodes.push(node);
        proof {
            if ordered(old(self)@) && fits(node, old(self)@.len()) {
                assert forall|n: usize| n < self@.len() implies placed(self@, n) by {
                    if n < old(self)@.len() {
                        assert(placed(old(self)@, n));
                    }
                }
            }
        }
        index
    }

    /// Whether every node names only nodes recorded before it.
    pub fn is_ordered(&self) -> (r: bool)
        ensures
            r == ordered(self@),
    {
        let mut n: usize = 0;
        while n < self.nodes.len()
            invariant
                n <= self.nodes.len(),
                forall|m: usize| m < n ==> placed(self@, m),
            decreases self.nodes.len() - n,
        {
            let node = self.nodes[n];
            let fits = match node.first_operand() {
                Some(a) => a < n,
                None => true,
            } && match node.second_operand() {
                Some(b) => b < n,
                None => true,
            };
            if !fits {
                assert(!placed(self@, n));
                return false;
            }
            n += 1;
        }
        true
    }
}

} // verus!
