//! The search tree and the cursor that walks it.

use crate::bits::{count_bits, lemma_set_bits};
use crate::board::{choose_move, lemma_has_move, lemma_play_legal, Board};
use crate::game_move::Move;
use crate::model::{
    beats, clamped, descent, expanded_board, flipped_all, is_best, lemma_beats_transitive,
    lemma_child_parent, lemma_parent_child, lemma_tracks_backpropagated, lemma_tracks_child,
    lemma_tracks_counts, lemma_tracks_expanded, lemma_tracks_parent, reinserted, selects,
    swap_removed, CrumbView, ZipperView,
};
use crate::node::{lemma_node_view, Node, NodeData, NodeView};
use crate::outcome::Outcome;
use std::ops::Neg;
use vstd::prelude::*;

verus! {

/// A node that the focus went down through: the node without the child in
/// focus, and the place of that child among its children.
#[derive(Debug)]
struct Crumb {
    node: Node,
    index: usize,
}

impl View for Crumb {
    type V = CrumbView;

    closed spec fn view(&self) -> CrumbView {
        CrumbView { node: self.node@, index: self.index as nat }
    }
}

/// Provides focus for a certain node
#[derive(Debug)]
pub struct Zipper {
    /// The node that is receiving the focus
    node: Node,
    /// The nodes between the root and the focus, the root first
    path: Vec<Crumb>,
}

impl View for Zipper {
    type V = ZipperView;

    closed spec fn view(&self) -> ZipperView {
        ZipperView {
            focus: self.node@,
            path: Seq::new(self.path.len() as nat, |k: int| self.path[k]@),
        }
    }
}

/// Represents the Monte-Carlo search tree
#[derive(Debug)]
pub struct Tree {
    head: Zipper,
}

impl View for Tree {
    type V = ZipperView;

    closed spec fn view(&self) -> ZipperView {
        self.head@
    }
}

impl Tree {
    /// Create a new game tree
    pub fn new() -> (tree: Tree)
        ensures
            tree@ == ZipperView::root(),
    {
        Tree { head: Zipper::new(Node::new(Move::empty())) }
    }

    /// Returns the best move in the game tree: the move of the first child
    /// of the root with the greatest mean reward, and the empty move where
    /// the root has no child.
    pub fn best(&self) -> (mv: Move)
        requires
            forall|i: int|
                0 <= i < self@.focus.children.len() ==> (#[trigger] self@.focus.children[i]).visited
                    > 0,
        ensures
            self@.focus.children.len() == 0 ==> mv@ == 0,
            self@.focus.children.len() > 0 ==> exists|i: int|
                #![trigger self@.focus.children[i]]
                is_best(self@.focus.children, i) && mv@ == self@.focus.children[i].mv,
    {
        let children = &self.head.node.children;
        let ghost views = self@.focus.children;
        proof {
            lemma_node_view(self.head.node);
        }
        if children.len() == 0 {
            return Move::empty();
        }
        let mut best: usize = 0;
        let mut i: usize = 1;
        while i < children.len()
            invariant
                1 <= i <= children@.len(),
                views.len() == children@.len(),
                forall|k: int| 0 <= k < children@.len() ==> #[trigger] views[k] == children@[k]@,
                forall|k: int| 0 <= k < views.len() ==> (#[trigger] views[k]).visited > 0,
                is_best(views.take(i as int), best as int),
            decreases children@.len() - i,
        {
            let candidate = &children[i];
            let leader = &children[best];
            proof {
                lemma_node_view(*candidate);
                lemma_node_view(*leader);
                lemma_product_fits(candidate.data.reward, leader.data.visited);
                lemma_product_fits(leader.data.reward, candidate.data.visited);
            }
            let ours = (candidate.data.reward as i128) * (leader.data.visited as i128);
            let theirs = (leader.data.reward as i128) * (candidate.data.visited as i128);
            let ghost seen = views.take(i as int);
            let ghost more = views.take(i + 1);
            proof {
                assert forall|j: int| 0 <= j < i implies #[trigger] more[j] == seen[j] by {}
                assert(more[i as int] == views[i as int]);
            }
            if ours > theirs {
                proof {
                    assert(beats(views[i as int], views[best as int]));
                    assert forall|j: int| 0 <= j <= i implies !beats(
                        #[trigger] more[j],
                        more[i as int],
                    ) by {
                        if j < i {
                            assert(!beats(seen[j], seen[best as int]));
                            lemma_beats_transitive(more[j], views[best as int], views[i as int]);
                        }
                    }
                    assert forall|j: int| 0 <= j < i implies beats(
                        more[i as int],
                        #[trigger] more[j],
                    ) by {
                        assert(!beats(seen[j], seen[best as int]));
                        lemma_beats_transitive(more[j], views[best as int], views[i as int]);
                    }
                }
                best = i;
            } else {
                proof {
                    assert(!beats(views[i as int], views[best as int]));
                    assert forall|j: int| 0 <= j <= i implies !beats(
                        #[trigger] more[j],
                        more[best as int],
                    ) by {
                        if j < i {
                            assert(!beats(seen[j], seen[best as int]));
                        }
                    }
                    assert forall|j: int| 0 <= j < best implies beats(
                        more[best as int],
                        #[trigger] more[j],
                    ) by {
                        assert(beats(seen[best as int], seen[j]));
                    }
                }
            }
            i += 1;
        }
        let mv = children[best].data.mv;
        proof {
            assert(views.take(i as int) =~= views);
            lemma_node_view(children[best as int]);
            assert(is_best(views, best as int));
            assert(mv@ == self@.focus.children[best as int].mv);
        }
        mv
    }

    /// Flips the perspective from the one player to the other: the reward
    /// of every child of the root changes its sign.
    pub fn flip(&mut self)
        ensures
            final(self)@ == old(self)@.with_focus(
                old(self)@.focus.with_children(flipped_all(old(self)@.focus.children)),
            ),
    {
        let ghost before = self@.focus.children;
        proof {
            lemma_node_view(self.head.node);
        }
        let n = self.head.node.children.len();
        let mut i: usize = 0;
        while i < n
            invariant
                i <= n,
                n == before.len(),
                self.head.node.children@.len() == n,
                self.head.path == old(self).head.path,
                self.head.node.data == old(self).head.node.data,
                forall|k: int|
                    0 <= k < i ==> (#[trigger] self.head.node.children@[k])@
                        == before[k].flipped(),
                forall|k: int|
                    i <= k < n ==> (#[trigger] self.head.node.children@[k])@ == before[k],
            decreases n - i,
        {
            let mut child = self.head.node.children.remove(i);
            let ghost was = child@;
            proof {
                lemma_node_view(child);
            }
            child.data.reward = if child.data.reward == i64::MIN {
                i64::MAX
            } else {
                -child.data.reward
            };
            proof {
                lemma_node_view(child);
                assert(child@.children =~= was.children);
                assert(child@ == was.flipped());
            }
            self.head.node.children.insert(i, child);
            i += 1;
        }
        proof {
            lemma_node_view(self.head.node);
            assert(self@.path =~= old(self)@.path);
            assert(self@.focus.children =~= flipped_all(before));
        }
    }

    /// Obtain the corresponding zipper
    pub fn head(self) -> (zipper: Zipper)
        ensures
            zipper@ == self@,
    {
        self.head
    }
}

/// The product of a reward and a count of visits fits in an `i128`.
proof fn lemma_product_fits(r: i64, v: u64)
    ensures
        i128::MIN <= r * v <= i128::MAX,
{
    let (r, v) = (r as int, v as int);
    assert(-0x8000_0000_0000_0000 * 0xffff_ffff_ffff_ffff <= r * v <= 0x7fff_ffff_ffff_ffff
        * 0xffff_ffff_ffff_ffff) by (nonlinear_arith)
        requires
            -0x8000_0000_0000_0000 <= r <= 0x7fff_ffff_ffff_ffff,
            0 <= v <= 0xffff_ffff_ffff_ffff,
    ;
}

/// The sum of a banked reward and one more, held to the range of `i64`.
fn bank(reward: i64, delta: i64) -> (r: i64)
    requires
        -1 <= delta <= 1,
    ensures
        r == clamped(reward + delta),
{
    if delta > 0 && reward == i64::MAX {
        i64::MAX
    } else if delta < 0 && reward == i64::MIN {
        i64::MIN
    } else {
        reward + delta
    }
}

/// What selection asks of the policy that picks a child: it can be called
/// wherever there is a child, and it picks one of those it was given.
pub open spec fn policy_ok<F: Fn(&Vec<Node>, u64) -> usize>(policy: &F) -> bool {
    &&& forall|children: &Vec<Node>, n: u64|
        children@.len() > 0 ==> #[trigger] policy.requires((children, n))
    &&& forall|children: &Vec<Node>, n: u64, i: usize| #[trigger]
        policy.ensures((children, n), i) ==> i < children@.len()
}

/// The nodes `v` as values.
pub open spec fn node_views(v: Seq<Node>) -> Seq<NodeView> {
    Seq::new(v.len(), |i: int| v[i]@)
}

/// Whether `policy`, given the children of the focus of `z` and `rounds`,
/// picked child `i`.
pub open spec fn picked<F: Fn(&Vec<Node>, u64) -> usize>(
    policy: &F,
    rounds: u64,
    z: ZipperView,
    i: int,
) -> bool {
    exists|children: &Vec<Node>| #[trigger]
        policy.ensures((children, rounds), i as usize) && node_views(children@)
            == z.focus.children
}

/// Whether every one of `choices` is what `policy` picked at the node that
/// the choice was made at, after the visit of that node was counted.
pub open spec fn picks<F: Fn(&Vec<Node>, u64) -> usize>(
    policy: &F,
    rounds: u64,
    z: ZipperView,
    board: Board,
    choices: Seq<int>,
) -> bool {
    forall|k: int|
        #![trigger choices.take(k)]
        0 <= k < choices.len() ==> picked(
            policy,
            rounds,
            descent(z, board, choices.take(k)).0.visited(),
            choices[k],
        )
}

impl Zipper {
    /// The cursor over the tree below `node`, with `node` itself in focus.
    pub fn new(node: Node) -> (r: Zipper)
        ensures
            r@ == (ZipperView { focus: node@, path: Seq::empty() }),
    {
        let r = Zipper { node, path: Vec::new() };
        assert(r@.path =~= Seq::empty());
        r
    }

    /// Moves the focus to child `index` of the node in focus.
    pub fn child(self, index: usize) -> (r: Zipper)
        requires
            index < self@.focus.children.len(),
        ensures
            r@ == self@.child(index as int),
            self@.wf() ==> r@.wf(),
    {
        let ghost before = self@;
        proof {
            lemma_child_parent(before, index as int);
        }
        let Zipper { node: mut node, path: mut path } = self;
        let ghost full = node@;
        proof {
            lemma_node_view(node);
        }
        let child = node.children.swap_remove(index);
        assert(node@ == full.without(index as int)) by {
            lemma_node_view(node);
            assert(node@.children =~= swap_removed(full.children, index as int));
        }
        assert(child@ == full.children[index as int]);
        path.push(Crumb { node, index });
        let r = Zipper { node: child, path };
        assert(r@.path =~= before.child(index as int).path);
        r
    }

    /// Moves the focus back up, and puts the node that was in focus back
    /// where it was taken from.
    pub fn parent(self) -> (r: Zipper)
        requires
            !self@.at_root(),
            self@.wf(),
        ensures
            r@ == self@.parent(),
            r@.wf(),
    {
        let ghost before = self@;
        proof {
            lemma_parent_child(before);
        }
        let Zipper { node, path: mut path } = self;
        let crumb = path.pop().unwrap();
        assert(crumb@ == before.path.last());
        let Crumb { node: mut parent_node, index } = crumb;
        let ghost hollow = parent_node@;
        let ghost focus = node@;
        proof {
            lemma_node_view(parent_node);
            assert(index <= hollow.children.len());
        }
        parent_node.children.push(node);
        let moved = parent_node.children.swap_remove(index);
        parent_node.children.push(moved);
        assert(parent_node@ == hollow.filled(index as int, focus)) by {
            lemma_node_view(parent_node);
            assert(parent_node@.children =~= reinserted(hollow.children, index as int, focus));
        }
        let r = Zipper { node: parent_node, path };
        assert(r@.path =~= before.parent().path);
        r
    }

    /// Whether the focus can go up: whether it is not at the root.
    pub fn has_parent(&self) -> (r: bool)
        ensures
            r == !self@.at_root(),
    {
        self.path.len() > 0
    }

    /// After consuming the tree's head, we can give back ownership
    pub fn into_tree(self) -> (tree: Tree)
        ensures
            tree@ == self@,
    {
        Tree { head: self }
    }

    /// Counts one more visit of the node in focus.
    pub fn visit(&mut self)
        ensures
            final(self)@ == old(self)@.visited(),
    {
        self.node.visit();
    }

    /// Moves the focus to child `index` and plays the child's move on
    /// `board`.
    pub fn descend(self, board: &mut Board, index: usize) -> (r: Zipper)
        requires
            self@.tracks(*old(board)),
            index < self@.focus.children.len(),
        ensures
            r@ == self@.child(index as int),
            *final(board) == old(board).play_spec(self@.focus.children[index as int].mv),
            r@.tracks(*final(board)),
            r@.origin(*final(board)) == self@.origin(*old(board)),
    {
        proof {
            lemma_tracks_child(self@, *board, index as int);
        }
        let child = self.child(index);
        board.play(child.data().mv);
        child
    }

    /// Selection: goes down from the focus until it stands at a node where a
    /// candidate cell is still untried or the game has ended, and leaves that
    /// node as it is. At every node before it a visit is counted, and
    /// `policy` picks, from the node's children and `rounds`, the child to go
    /// on with, whose move is played on `board`.
    pub fn select<F: Fn(&Vec<Node>, u64) -> usize>(
        self,
        board: &mut Board,
        rounds: u64,
        policy: &F,
    ) -> (r: Zipper)
        requires
            self@.tracks(*old(board)),
            policy_ok(policy),
        ensures
            r@.tracks(*final(board)),
            r@.settled(*final(board)),
            r@.origin(*final(board)) == self@.origin(*old(board)),
            exists|choices: Seq<int>|
                {
                    &&& #[trigger] selects(self@, *old(board), choices)
                    &&& picks(policy, rounds, self@, *old(board), choices)
                    &&& r@ == descent(self@, *old(board), choices).0
                    &&& *final(board) == descent(self@, *old(board), choices).1
                },
            self@.settled(*old(board)) ==> r@ == self@ && *final(board) == *old(board),
    {
        let ghost start = self@;
        let ghost start_board = *board;
        let ghost mut choices: Seq<int> = Seq::empty();
        let mut zipper = self;
        loop
            invariant_except_break
                zipper@.tracks(*board),
                zipper@.origin(*board) == start.origin(start_board),
                selects(start, start_board, choices),
                picks(policy, rounds, start, start_board, choices),
                descent(start, start_board, choices) == (zipper@, *board),
                policy_ok(policy),
            ensures
                zipper@.tracks(*board),
                zipper@.settled(*board),
                zipper@.origin(*board) == start.origin(start_board),
                selects(start, start_board, choices),
                picks(policy, rounds, start, start_board, choices),
                zipper@ == descent(start, start_board, choices).0,
                *board == descent(start, start_board, choices).1,
                start.settled(start_board) ==> choices.len() == 0,
            decreases 64 - count_bits(board.all()),
        {
            let ghost before = zipper@;
            proof {
                lemma_node_view(zipper.node);
            }
            if zipper.node.children.len() < board.moves().len() as usize || board.game_over() {
                proof {
                    if choices.len() > 0 {
                        assert(choices.take(0) =~= Seq::<int>::empty());
                    }
                }
                break ;
            }
            proof {
                lemma_tracks_counts(before, *board, before.focus.visit());
                lemma_has_move(*board);
            }
            zipper.visit();
            proof {
                lemma_node_view(zipper.node);
            }
            let index = policy(&zipper.node.children, rounds);
            proof {
                let ghost longer = choices.push(index as int);
                assert(longer.drop_last() =~= choices);
                assert(picked(policy, rounds, zipper@, index as int)) by {
                    let given = &zipper.node.children;
                    assert(node_views(given@) =~= zipper@.focus.children);
                    assert(policy.ensures((given, rounds), (index as int) as usize));
                }
                assert forall|k: int|
                    #![trigger longer.take(k)]
                    0 <= k < longer.len() implies picked(
                    policy,
                    rounds,
                    descent(start, start_board, longer.take(k)).0.visited(),
                    longer[k],
                ) by {
                    if k < choices.len() {
                        assert(longer.take(k) =~= choices.take(k));
                    } else {
                        assert(longer.take(k) =~= choices);
                    }
                }
                assert forall|k: int|
                    #![trigger longer.take(k)]
                    0 <= k < longer.len() implies {
                    let (y, b) = descent(start, start_board, longer.take(k));
                    !y.settled(b) && 0 <= longer[k] < y.focus.children.len()
                } by {
                    if k < choices.len() {
                        assert(longer.take(k) =~= choices.take(k));
                    } else {
                        assert(longer.take(k) =~= choices);
                    }
                }
                choices = longer;
                lemma_tracks_child(zipper@, *board, index as int);
                lemma_play_legal(*board, zipper@.focus.children[index as int].mv);
            }
            zipper = zipper.descend(board, index);
            proof {
                lemma_set_bits(board.all());
            }
        }
        zipper
    }

    /// Expands the selected node, creating a new Zipper if the game is not
    /// yet over: the next untried candidate cell of `board` is played, and
    /// the focus goes down to a fresh child for it.
    pub fn expand(self, board: &mut Board) -> (r: Zipper)
        requires
            self@.tracks(*old(board)),
            self@.settled(*old(board)),
        ensures
            r@ == self@.expanded(*old(board)),
            *final(board) == expanded_board(self@, *old(board)),
            r@.tracks(*final(board)),
            r@.origin(*final(board)) == self@.origin(*old(board)),
    {
        proof {
            lemma_tracks_expanded(self@, *board);
        }
        if board.game_over() {
            return self;
        }
        let ghost before = self@;
        let mut zipper = self;
        proof {
            lemma_node_view(zipper.node);
        }
        let len = zipper.node.children.len();
        let mv = choose_move(&board.moves(), len);
        board.play(mv);
        let node = Node::new(mv);
        zipper.node.children.push(node);
        proof {
            lemma_node_view(zipper.node);
            assert(zipper.node@.children =~= before.focus.grown(NodeView::leaf(mv@)).children);
            assert(zipper@.path =~= before.path);
        }
        zipper.child(len)
    }

    /// Banks `outcome` at the focus and, seen from the other side at every
    /// step, at each node on the way up to the root, while the moves on the
    /// way are taken back from `board`. The root's own move, which places
    /// nothing, is not taken back.
    pub fn backpropagate(self, board: &mut Board, outcome: Outcome) -> (r: Zipper)
        requires
            self@.tracks(*old(board)),
        ensures
            r@ == self@.backpropagated(outcome),
            *final(board) == self@.origin(*old(board)),
            r@.at_root(),
            r@.tracks(*final(board)),
    {
        let ghost start = self@;
        let ghost start_board = *board;
        let ghost first = outcome;
        let mut zipper = self;
        let mut outcome = outcome;
        proof {
            lemma_tracks_backpropagated(start, start_board, first);
        }
        loop
            invariant_except_break
                zipper@.tracks(*board),
                zipper@.origin(*board) == start.origin(start_board),
                zipper@.backpropagated(outcome) == start.backpropagated(first),
            ensures
                zipper@ == start.backpropagated(first),
                *board == start.origin(start_board),
            decreases zipper@.path.len(),
        {
            let ghost before = zipper@;
            let ghost banked = before.with_focus(before.focus.rewarded(outcome));
            let mv = zipper.node.data.mv;
            proof {
                lemma_node_view(zipper.node);
                lemma_tracks_counts(before, *board, before.focus.rewarded(outcome));
            }
            zipper.node.data.reward = bank(zipper.node.data.reward, outcome.reward());
            proof {
                lemma_node_view(zipper.node);
                assert(zipper.node@.children =~= before.focus.children);
                assert(zipper@.path =~= before.path);
                assert(zipper@ == banked);
            }
            if zipper.has_parent() {
                proof {
                    lemma_tracks_parent(banked, *board);
                }
                board.unplay(mv);
                zipper = zipper.parent();
                outcome = outcome.neg();
            } else {
                break ;
            }
        }
        zipper
    }

    /// Receive a mutable reference to the focused node's data
    pub fn data_mut(&mut self) -> (data: &mut NodeData)
        ensures
            data.visited == old(self)@.focus.visited,
            data.mv@ == old(self)@.focus.mv,
            data.reward == old(self)@.focus.reward,
            final(self)@ == old(self)@.with_focus(
                NodeView {
                    visited: final(data).visited as nat,
                    mv: final(data).mv@,
                    reward: final(data).reward as int,
                    children: old(self)@.focus.children,
                },
            ),
    {
        proof {
            lemma_node_view(self.node);
        }
        &mut self.node.data
    }

    /// Receive a shared reference to the focused node's data
    pub fn data(&self) -> (data: &NodeData)
        ensures
            data.visited == self@.focus.visited,
            data.mv@ == self@.focus.mv,
            data.reward == self@.focus.reward,
    {
        &self.node.data
    }
}

} // verus!
