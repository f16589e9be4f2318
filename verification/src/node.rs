//! The nodes of the search tree, and the tree as a value of its own.

use crate::game_move::Move;
use vstd::prelude::*;

verus! {

/// What a node records of the move that leads to it.
#[derive(Debug)]
pub struct NodeData {
    /// How many times this node has been visited
    pub visited: u64,
    /// The move taken to arrive at this node
    pub mv: Move,
    /// The sum of the rewards that were banked at this node
    pub reward: i64,
}

#[derive(Debug)]
pub struct Node {
    /// The node's data
    pub data: NodeData,
    /// The nodes that are accessible from the current position
    pub children: Vec<Node>,
}

/// A tree of statistics as a value: the model of a `Node`.
pub struct NodeView {
    pub visited: nat,
    pub mv: u64,
    pub reward: int,
    pub children: Seq<NodeView>,
}

impl View for Node {
    type V = NodeView;

    open spec fn view(&self) -> NodeView {
        self.model()
    }
}

impl Node {
    /// The tree below the node as a value.
    pub open spec fn model(&self) -> NodeView
        decreases self,
    {
        NodeView {
            visited: self.data.visited as nat,
            mv: self.data.mv@,
            reward: self.data.reward as int,
            children: Seq::new(
                self.children@.len(),
                |i: int|
                    if 0 <= i < self.children@.len() {
                        self.children@[i].model()
                    } else {
                        arbitrary()
                    },
            ),
        }
    }
}

/// One more than `n`, but for the largest count that a node can hold.
pub open spec fn bump(n: nat) -> nat {
    if n < u64::MAX {
        n + 1
    } else {
        n
    }
}

impl NodeView {
    /// A node that has been visited once and has no child yet.
    pub open spec fn leaf(mv: u64) -> NodeView {
        NodeView { visited: 1, mv, reward: 0, children: Seq::empty() }
    }

    /// The node with one more visit.
    pub open spec fn visit(self) -> NodeView {
        NodeView { visited: bump(self.visited), ..self }
    }
}

/// The view of a node, field by field: the counts as they are, and each
/// child by its own view.
pub proof fn lemma_node_view(n: Node)
    ensures
        n@.visited == n.data.visited,
        n@.mv == n.data.mv@,
        n@.reward == n.data.reward,
        n@.children.len() == n.children@.len(),
        forall|i: int| 0 <= i < n.children@.len() ==> #[trigger] n@.children[i] == n.children@[i]@,
{
}

impl Node {
    /// The node that `mv` leads to when it is first tried: visited once,
    /// with no reward banked and no child.
    pub fn new(mv: Move) -> (r: Node)
        ensures
            r@ == NodeView::leaf(mv@),
    {
        let r = Node { data: NodeData { visited: 1, mv, reward: 0 }, children: Vec::new() };
        assert(r@.children =~= Seq::empty());
        r
    }

    /// Counts one more visit of the node.
    pub fn visit(&mut self)
        ensures
            final(self)@ == old(self)@.visit(),
    {
        self.data.visited = self.data.visited.saturating_add(1);
    }
}

} // verus!
