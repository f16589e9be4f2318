//! The search tree and its cursor as mathematical values, and what it means
//! for them to belong to a position.

use crate::bits::{count_bits, set_bits};
use crate::board::{lemma_listed_legal, lemma_play_legal, lemma_play_unplay, Board};
use crate::node::NodeView;
use crate::outcome::Outcome;
use vstd::prelude::*;

verus! {

/// `s` after `swap_remove(i)`: the last item has taken the place of item `i`.
pub open spec fn swap_removed<T>(s: Seq<T>, i: int) -> Seq<T>
    recommends
        0 <= i < s.len(),
{
    s.update(i, s.last()).drop_last()
}

/// `s` with `x` put at place `i`, and the item that stood there put back at
/// the end: what undoes `swap_removed`.
pub open spec fn reinserted<T>(s: Seq<T>, i: int, x: T) -> Seq<T>
    recommends
        0 <= i <= s.len(),
{
    if i < s.len() {
        s.update(i, x).push(s[i])
    } else {
        s.push(x)
    }
}

/// Putting back what was taken out gives the sequence one started with.
pub proof fn lemma_reinsert_removed<T>(s: Seq<T>, i: int)
    requires
        0 <= i < s.len(),
    ensures
        reinserted(swap_removed(s, i), i, s[i]) == s,
        swap_removed(s, i).len() == s.len() - 1,
{
    assert(reinserted(swap_removed(s, i), i, s[i]) =~= s);
}

/// Taking out what was put in gives the sequence one started with.
pub proof fn lemma_remove_reinserted<T>(s: Seq<T>, i: int, x: T)
    requires
        0 <= i <= s.len(),
    ensures
        swap_removed(reinserted(s, i, x), i) == s,
        reinserted(s, i, x)[i] == x,
        reinserted(s, i, x).len() == s.len() + 1,
{
    assert(swap_removed(reinserted(s, i, x), i) =~= s);
}

/// A reward sum held to the range that a node can store.
pub open spec fn clamped(r: int) -> int {
    if r > i64::MAX {
        i64::MAX as int
    } else if r < i64::MIN {
        i64::MIN as int
    } else {
        r
    }
}

impl NodeView {
    /// The node with `children` in place of its own.
    pub open spec fn with_children(self, children: Seq<NodeView>) -> NodeView {
        NodeView { children, ..self }
    }

    /// The node after child `i` has been taken out of it.
    pub open spec fn without(self, i: int) -> NodeView {
        self.with_children(swap_removed(self.children, i))
    }

    /// The node after `child` has been put back at place `i`.
    pub open spec fn filled(self, i: int, child: NodeView) -> NodeView {
        self.with_children(reinserted(self.children, i, child))
    }

    /// The node with `child` as its new last child.
    pub open spec fn grown(self, child: NodeView) -> NodeView {
        self.with_children(self.children.push(child))
    }

    /// The node with the reward of `outcome` banked.
    pub open spec fn rewarded(self, outcome: Outcome) -> NodeView {
        NodeView { reward: clamped(self.reward + outcome.reward_spec()), ..self }
    }

    /// The node with the sign of its reward changed.
    pub open spec fn flipped(self) -> NodeView {
        NodeView { reward: clamped(-self.reward), ..self }
    }
}

/// `children` with the sign of every reward changed.
pub open spec fn flipped_all(children: Seq<NodeView>) -> Seq<NodeView> {
    Seq::new(children.len(), |i: int| children[i].flipped())
}

/// Whether the mean reward of `a` is greater than that of `b`, both of them
/// visited: `a.reward / a.visited > b.reward / b.visited`, without the
/// division.
pub open spec fn beats(a: NodeView, b: NodeView) -> bool {
    a.reward * b.visited > b.reward * a.visited
}

/// Whether child `i` is the first of `children` with the greatest mean
/// reward.
pub open spec fn is_best(children: Seq<NodeView>, i: int) -> bool {
    &&& 0 <= i < children.len()
    &&& forall|j: int| 0 <= j < children.len() ==> !beats(#[trigger] children[j], children[i])
    &&& forall|j: int| 0 <= j < i ==> beats(children[i], #[trigger] children[j])
}

/// The order of the means carries over: a mean that is no greater than a
/// second is no greater than a third that the second is no greater than,
/// and is less than a third that the second is less than.
pub proof fn lemma_beats_transitive(a: NodeView, b: NodeView, c: NodeView)
    requires
        a.visited > 0,
        b.visited > 0,
        c.visited > 0,
    ensures
        !beats(a, b) && !beats(b, c) ==> !beats(a, c),
        !beats(a, b) && beats(c, b) ==> beats(c, a),
{
    let (ra, va) = (a.reward, a.visited as int);
    let (rb, vb) = (b.reward, b.visited as int);
    let (rc, vc) = (c.reward, c.visited as int);
    assert(ra * vb <= rb * va && rb * vc <= rc * vb ==> ra * vc <= rc * va) by (nonlinear_arith)
        requires
            va > 0,
            vb > 0,
            vc > 0,
    {
        if ra * vb <= rb * va && rb * vc <= rc * vb {
            assert((ra * vb) * vc <= (rb * va) * vc);
            assert((rb * vc) * va <= (rc * vb) * va);
            assert((ra * vc) * vb <= (rc * va) * vb);
        }
    }
    assert(rc * vb > rb * vc && ra * vb <= rb * va ==> rc * va > ra * vc) by (nonlinear_arith)
        requires
            va > 0,
            vb > 0,
            vc > 0,
    {
        if rc * vb > rb * vc && ra * vb <= rb * va {
            assert((rc * vb) * va > (rb * vc) * va);
            assert((ra * vb) * vc <= (rb * va) * vc);
            assert((rc * va) * vb > (ra * vc) * vb);
        }
    }
}

/// One step of the way from the root to the focus: a node without the child
/// that the way goes on through, and the place that the child was taken from.
pub struct CrumbView {
    pub node: NodeView,
    pub index: nat,
}

/// A cursor into the tree: the node in focus, and the way back to the root,
/// the root's crumb first.
pub struct ZipperView {
    pub focus: NodeView,
    pub path: Seq<CrumbView>,
}

impl ZipperView {
    /// The cursor of a fresh tree: the root in focus, never left.
    pub open spec fn root() -> ZipperView {
        ZipperView { focus: NodeView::leaf(0), path: Seq::empty() }
    }

    /// Whether the root is in focus.
    pub open spec fn at_root(self) -> bool {
        self.path.len() == 0
    }

    /// Every child on the way can be put back where it was taken from.
    pub open spec fn wf(self) -> bool {
        forall|k: int|
            0 <= k < self.path.len() ==> (#[trigger] self.path[k]).index
                <= self.path[k].node.children.len()
    }

    /// The cursor with the node `focus` in focus.
    pub open spec fn with_focus(self, focus: NodeView) -> ZipperView {
        ZipperView { focus, ..self }
    }

    /// The cursor after the focus has gone down to child `i`.
    pub open spec fn child(self, i: int) -> ZipperView
        recommends
            0 <= i < self.focus.children.len(),
    {
        ZipperView {
            focus: self.focus.children[i],
            path: self.path.push(CrumbView { node: self.focus.without(i), index: i as nat }),
        }
    }

    /// The cursor after the focus has gone up to the parent.
    pub open spec fn parent(self) -> ZipperView
        recommends
            !self.at_root(),
    {
        let crumb = self.path.last();
        ZipperView {
            focus: crumb.node.filled(crumb.index as int, self.focus),
            path: self.path.drop_last(),
        }
    }

    /// The whole tree: the root after the focus has gone all the way up.
    pub open spec fn tree(self) -> NodeView
        decreases self.path.len(),
    {
        if self.at_root() {
            self.focus
        } else {
            self.parent().tree()
        }
    }
}

/// Going down to a child and up again changes nothing.
pub proof fn lemma_child_parent(z: ZipperView, i: int)
    requires
        0 <= i < z.focus.children.len(),
    ensures
        z.child(i).parent() == z,
        z.wf() ==> z.child(i).wf(),
        z.child(i).tree() == z.tree(),
{
    lemma_reinsert_removed(z.focus.children, i);
    let c = z.child(i);
    assert(c.path.drop_last() =~= z.path);
    assert(c.parent().focus == z.focus);
}

/// Going up to the parent and down again to where one came from changes
/// nothing.
pub proof fn lemma_parent_child(z: ZipperView)
    requires
        z.wf(),
        !z.at_root(),
    ensures
        z.parent().child(z.path.last().index as int) == z,
        z.parent().wf(),
        (z.path.last().index as int) < z.parent().focus.children.len(),
        z.parent().tree() == z.tree(),
{
    let crumb = z.path.last();
    lemma_remove_reinserted(crumb.node.children, crumb.index as int, z.focus);
    let p = z.parent();
    let back = p.child(crumb.index as int);
    assert(back.path =~= z.path);
}

/// Whether the tree below `n` is a record of play from `pos`: child `i` of
/// every node is reached by the move at place `i` of the candidate cells of
/// the node's position, a node has no more children than its position has
/// candidate cells and none where the game has ended, and every node has
/// been visited.
pub open spec fn explores(n: NodeView, pos: Board) -> bool
    decreases n,
{
    let moves = pos.moves_spec();
    &&& n.visited >= 1
    &&& n.children.len() <= count_bits(moves)
    &&& pos.is_terminal() ==> n.children.len() == 0
    &&& forall|i: int|
        0 <= i < n.children.len() ==> {
            &&& (#[trigger] n.children[i]).mv == set_bits(moves)[i]
            &&& explores(n.children[i], pos.play_spec(set_bits(moves)[i]))
        }
}

/// Whether `n`, a node that child `hole` was taken out of, is a record of
/// play from `pos` but for that child.
pub open spec fn explores_around(n: NodeView, hole: int, pos: Board) -> bool {
    &&& 0 <= hole <= n.children.len()
    &&& hole < count_bits(pos.moves_spec())
    &&& explores(n.filled(hole, NodeView::leaf(set_bits(pos.moves_spec())[hole])), pos)
}

/// Whether `path` leads to a node that `child_mv` reaches and whose position
/// is `pos`: every crumb is a record of play from its own position, and the
/// move out of it is the one that its hole stands for.
pub open spec fn path_ok(path: Seq<CrumbView>, child_mv: u64, pos: Board) -> bool
    decreases path.len(),
{
    if path.len() == 0 {
        true
    } else {
        let crumb = path.last();
        let before = pos.unplay_spec(child_mv);
        &&& before.wf()
        &&& before.play_spec(child_mv) == pos
        &&& explores_around(crumb.node, crumb.index as int, before)
        &&& child_mv == set_bits(before.moves_spec())[crumb.index as int]
        &&& path_ok(path.drop_last(), crumb.node.mv, before)
    }
}

/// The position at the root of `path`, given the position `pos` of the node
/// that `child_mv` reaches at its end.
pub open spec fn origin_of(path: Seq<CrumbView>, child_mv: u64, pos: Board) -> Board
    decreases path.len(),
{
    if path.len() == 0 {
        pos
    } else {
        origin_of(path.drop_last(), path.last().node.mv, pos.unplay_spec(child_mv))
    }
}

impl ZipperView {
    /// Whether the cursor and `board` go together: `board` is the position
    /// of the node in focus, and the whole tree is a record of play from the
    /// position at its root.
    pub open spec fn tracks(self, board: Board) -> bool {
        &&& self.wf()
        &&& board.wf()
        &&& explores(self.focus, board)
        &&& path_ok(self.path, self.focus.mv, board)
    }

    /// The position at the root, given the position `board` of the focus.
    pub open spec fn origin(self, board: Board) -> Board {
        origin_of(self.path, self.focus.mv, board)
    }

    /// Whether selection stops at the focus: a candidate cell of `board` is
    /// still untried there, or the game has ended.
    pub open spec fn settled(self, board: Board) -> bool {
        self.focus.children.len() < count_bits(board.moves_spec()) || board.is_terminal()
    }

    /// The cursor with one more visit of the focus.
    pub open spec fn visited(self) -> ZipperView {
        self.with_focus(self.focus.visit())
    }

    /// The cursor after the focus gained a child for the next untried
    /// candidate cell of `board` and went down to it; unchanged where the
    /// game has ended.
    pub open spec fn expanded(self, board: Board) -> ZipperView {
        if board.is_terminal() {
            self
        } else {
            let next = self.focus.children.len() as int;
            let mv = set_bits(board.moves_spec())[next];
            self.with_focus(self.focus.grown(NodeView::leaf(mv))).child(next)
        }
    }

    /// The cursor after `outcome` has been banked at the focus and, with the
    /// sign changed at every step, at each node on the way up to the root.
    pub open spec fn backpropagated(self, outcome: Outcome) -> ZipperView
        decreases self.path.len(),
    {
        let banked = self.with_focus(self.focus.rewarded(outcome));
        if self.at_root() {
            banked
        } else {
            banked.parent().backpropagated(outcome.negated())
        }
    }
}

/// Where the cursor and the board stand after the focus went down through
/// the children at `choices`, one after the other, with a visit counted at
/// every node that was left and the move of every node that was entered
/// played.
pub open spec fn descent(z: ZipperView, board: Board, choices: Seq<int>) -> (ZipperView, Board)
    decreases choices.len(),
{
    if choices.len() == 0 {
        (z, board)
    } else {
        let (y, b) = descent(z, board, choices.drop_last());
        let i = choices.last();
        (y.visited().child(i), b.play_spec(y.focus.children[i].mv))
    }
}

/// Whether selection may go down through `choices`: every choice is a child
/// of the node that it is made at, and selection does not stop at that node.
pub open spec fn selects(z: ZipperView, board: Board, choices: Seq<int>) -> bool {
    forall|k: int|
        #![trigger choices.take(k)]
        0 <= k < choices.len() ==> {
            let (y, b) = descent(z, board, choices.take(k));
            !y.settled(b) && 0 <= choices[k] < y.focus.children.len()
        }
}

impl ZipperView {
    /// The number of children of the root, the one on the way to the focus
    /// counted in.
    pub open spec fn root_children(self) -> nat {
        if self.at_root() {
            self.focus.children.len()
        } else {
            self.path[0].node.children.len() + 1
        }
    }
}

/// Going down keeps the children of the root, and so does going up.
pub proof fn lemma_root_children_moves(z: ZipperView, i: int)
    requires
        z.wf(),
    ensures
        0 <= i < z.focus.children.len() ==> z.child(i).root_children() == z.root_children(),
        !z.at_root() ==> z.parent().root_children() == z.root_children(),
{
    if 0 <= i < z.focus.children.len() {
        lemma_reinsert_removed(z.focus.children, i);
    }
    if !z.at_root() {
        let crumb = z.path.last();
        lemma_remove_reinserted(crumb.node.children, crumb.index as int, z.focus);
    }
}

/// Selection keeps the children of the root.
pub proof fn lemma_root_children_descent(z: ZipperView, board: Board, choices: Seq<int>)
    requires
        z.tracks(board),
        selects(z, board, choices),
    ensures
        descent(z, board, choices).0.tracks(descent(z, board, choices).1),
        descent(z, board, choices).0.root_children() == z.root_children(),
        descent(z, board, choices).0.origin(descent(z, board, choices).1) == z.origin(board),
        descent(z, board, choices).0.path.len() == z.path.len() + choices.len(),
    decreases choices.len(),
{
    if choices.len() > 0 {
        let shorter = choices.drop_last();
        assert(choices.take(choices.len() - 1) =~= shorter);
        assert forall|k: int|
            #![trigger shorter.take(k)]
            0 <= k < shorter.len() implies {
            let (y, b) = descent(z, board, shorter.take(k));
            !y.settled(b) && 0 <= shorter[k] < y.focus.children.len()
        } by {
            assert(shorter.take(k) =~= choices.take(k));
        }
        lemma_root_children_descent(z, board, shorter);
        let (y, b) = descent(z, board, shorter);
        lemma_tracks_counts(y, b, y.focus.visit());
        lemma_tracks_child(y.visited(), b, choices.last());
        lemma_root_children_moves(y.visited(), choices.last());
    }
}

/// Expansion adds a child to a root that it is made at, where the game
/// goes on, and leaves the children of the root alone otherwise.
pub proof fn lemma_root_children_expanded(z: ZipperView, board: Board)
    requires
        z.wf(),
    ensures
        z.expanded(board).root_children() == z.root_children() + if z.at_root()
            && !board.is_terminal() {
            1nat
        } else {
            0nat
        },
{
    if !board.is_terminal() {
        let next = z.focus.children.len() as int;
        let mv = set_bits(board.moves_spec())[next];
        let g = z.with_focus(z.focus.grown(NodeView::leaf(mv)));
        lemma_root_children_moves(g, next);
    }
}

/// Backpropagation keeps the children of the root.
pub proof fn lemma_root_children_backpropagated(z: ZipperView, outcome: Outcome)
    requires
        z.wf(),
    ensures
        z.backpropagated(outcome).root_children() == z.root_children(),
        z.backpropagated(outcome).at_root(),
    decreases z.path.len(),
{
    let banked = z.with_focus(z.focus.rewarded(outcome));
    if !z.at_root() {
        lemma_root_children_moves(banked, 0);
        lemma_parent_child(banked);
        lemma_root_children_backpropagated(banked.parent(), outcome.negated());
    }
}

/// The position after expansion: `board` with the next untried candidate
/// cell played, or `board` itself where the game has ended.
pub open spec fn expanded_board(z: ZipperView, board: Board) -> Board {
    if board.is_terminal() {
        board
    } else {
        board.play_spec(set_bits(board.moves_spec())[z.focus.children.len() as int])
    }
}

/// A node that a child was taken out of becomes a record of play again when
/// a record of play for the move of its hole is put there.
pub proof fn lemma_fill(n: NodeView, hole: int, pos: Board, child: NodeView)
    requires
        explores_around(n, hole, pos),
        child.mv == set_bits(pos.moves_spec())[hole],
        explores(child, pos.play_spec(child.mv)),
    ensures
        explores(n.filled(hole, child), pos),
{
    let moves = pos.moves_spec();
    let stub = NodeView::leaf(set_bits(moves)[hole]);
    let a = n.filled(hole, stub);
    let b = n.filled(hole, child);
    lemma_remove_reinserted(n.children, hole, stub);
    lemma_remove_reinserted(n.children, hole, child);
    assert forall|i: int| 0 <= i < b.children.len() implies {
        &&& (#[trigger] b.children[i]).mv == set_bits(moves)[i]
        &&& explores(b.children[i], pos.play_spec(set_bits(moves)[i]))
    } by {
        if i != hole {
            assert(b.children[i] == a.children[i]);
        }
    }
}

/// Taking a child out of a record of play leaves a record of play but for
/// that child, and the child is a record of play from the position that its
/// move leads to.
pub proof fn lemma_hollow(n: NodeView, i: int, pos: Board)
    requires
        explores(n, pos),
        0 <= i < n.children.len(),
    ensures
        explores_around(n.without(i), i, pos),
        n.children[i].mv == set_bits(pos.moves_spec())[i],
        explores(n.children[i], pos.play_spec(n.children[i].mv)),
        !pos.is_terminal(),
{
    let moves = pos.moves_spec();
    let stub = NodeView::leaf(set_bits(moves)[i]);
    let h = n.without(i);
    let a = h.filled(i, stub);
    lemma_reinsert_removed(n.children, i);
    assert(a.children =~= n.children.update(i, stub));
    assert forall|k: int| 0 <= k < a.children.len() implies {
        &&& (#[trigger] a.children[k]).mv == set_bits(moves)[k]
        &&& explores(a.children[k], pos.play_spec(set_bits(moves)[k]))
    } by {
        if k != i {
            assert(a.children[k] == n.children[k]);
        }
    }
}

/// Where the cursor and the board go together and the focus goes down to a
/// child while the child's move is played, they still go together, over
/// the same position at the root.
pub proof fn lemma_tracks_child(z: ZipperView, board: Board, i: int)
    requires
        z.tracks(board),
        0 <= i < z.focus.children.len(),
    ensures
        z.child(i).tracks(board.play_spec(z.focus.children[i].mv)),
        z.child(i).origin(board.play_spec(z.focus.children[i].mv)) == z.origin(board),
        board.legal(z.focus.children[i].mv),
{
    let mv = z.focus.children[i].mv;
    let c = z.child(i);
    let next = board.play_spec(mv);
    lemma_hollow(z.focus, i, board);
    lemma_listed_legal(board, i);
    lemma_play_legal(board, mv);
    lemma_play_unplay(board, mv);
    lemma_child_parent(z, i);
    assert(c.path.drop_last() =~= z.path);
    assert(c.path.last().node == z.focus.without(i));
    assert(next.unplay_spec(mv) == board);
}

/// Where the cursor and the board go together and the focus goes up to the
/// parent while the move of the focus is taken back, they still go
/// together, over the same position at the root.
pub proof fn lemma_tracks_parent(z: ZipperView, board: Board)
    requires
        z.tracks(board),
        !z.at_root(),
    ensures
        z.parent().tracks(board.unplay_spec(z.focus.mv)),
        z.parent().origin(board.unplay_spec(z.focus.mv)) == z.origin(board),
{
    let crumb = z.path.last();
    let before = board.unplay_spec(z.focus.mv);
    lemma_fill(crumb.node, crumb.index as int, before, z.focus);
    lemma_parent_child(z);
}

/// Where the cursor and the board go together, the whole tree is a record
/// of play from the position at its root, and play can have reached that
/// position.
pub proof fn lemma_tracks_tree(z: ZipperView, board: Board)
    requires
        z.tracks(board),
    ensures
        explores(z.tree(), z.origin(board)),
        z.origin(board).wf(),
    decreases z.path.len(),
{
    if !z.at_root() {
        lemma_tracks_parent(z, board);
        lemma_tracks_tree(z.parent(), board.unplay_spec(z.focus.mv));
    }
}

/// Counting a visit of the focus, or banking a reward there, leaves the
/// cursor and the board together.
pub proof fn lemma_tracks_counts(z: ZipperView, board: Board, focus: NodeView)
    requires
        z.tracks(board),
        focus.children == z.focus.children,
        focus.mv == z.focus.mv,
        focus.visited >= 1,
    ensures
        z.with_focus(focus).tracks(board),
        z.with_focus(focus).origin(board) == z.origin(board),
{
}

/// Expansion leaves the cursor and the board together, over the same
/// position at the root. Where the game goes on, it plays a legal move.
pub proof fn lemma_tracks_expanded(z: ZipperView, board: Board)
    requires
        z.tracks(board),
        z.settled(board),
    ensures
        z.expanded(board).tracks(expanded_board(z, board)),
        z.expanded(board).origin(expanded_board(z, board)) == z.origin(board),
        !board.is_terminal() ==> board.legal(
            set_bits(board.moves_spec())[z.focus.children.len() as int],
        ),
{
    if !board.is_terminal() {
        let next = z.focus.children.len() as int;
        let mv = set_bits(board.moves_spec())[next];
        let grown = z.focus.grown(NodeView::leaf(mv));
        let g = z.with_focus(grown);
        assert forall|i: int| 0 <= i < grown.children.len() implies {
            &&& (#[trigger] grown.children[i]).mv == set_bits(board.moves_spec())[i]
            &&& explores(grown.children[i], board.play_spec(set_bits(board.moves_spec())[i]))
        } by {
            if i < next {
                assert(grown.children[i] == z.focus.children[i]);
            }
        }
        assert(g.tracks(board));
        lemma_tracks_child(g, board, next);
    }
}

/// Backpropagation ends at the root, with the cursor and the position at
/// the root together, and changes neither the shape of the tree nor the
/// position at its root.
pub proof fn lemma_tracks_backpropagated(z: ZipperView, board: Board, outcome: Outcome)
    requires
        z.tracks(board),
    ensures
        z.backpropagated(outcome).at_root(),
        z.backpropagated(outcome).tracks(z.origin(board)),
    decreases z.path.len(),
{
    let banked = z.with_focus(z.focus.rewarded(outcome));
    lemma_tracks_counts(z, board, z.focus.rewarded(outcome));
    if !z.at_root() {
        lemma_tracks_parent(banked, board);
        lemma_tracks_backpropagated(
            banked.parent(),
            board.unplay_spec(z.focus.mv),
            outcome.negated(),
        );
    }
}

} // verus!
