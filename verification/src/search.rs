//! The four phases of a round put together, and the rounds of a search.

use crate::bits::{count_bits, lemma_set_bits, set_bits};
use crate::board::{
    lemma_has_move, lemma_listed_legal, lemma_play_legal, lemma_play_unplay, random_move, Board,
};
use crate::game_move::Move;
use crate::model::{
    beats, descent, expanded_board, explores, flipped_all, is_best,
    lemma_root_children_backpropagated, lemma_root_children_descent,
    lemma_root_children_expanded, selects, CrumbView, ZipperView,
};
use crate::node::{Node, NodeView};
use crate::outcome::Outcome;
use crate::player::Player;
use crate::tree::{picks, policy_ok, Tree, Zipper};
use rand::rngs::ThreadRng;
use vstd::prelude::*;

verus! {

/// How the game that ended in `pos` went for `player`.
pub open spec fn result_for(pos: Board, player: Player) -> Outcome {
    match pos.winner_spec() {
        Some(winner) => if winner == player {
            Outcome::Won
        } else {
            Outcome::Lost
        },
        None => Outcome::Drawn,
    }
}

/// The position after `moves` have been played from `pos`, one after the
/// other.
pub open spec fn played(pos: Board, moves: Seq<u64>) -> Board
    decreases moves.len(),
{
    if moves.len() == 0 {
        pos
    } else {
        played(pos, moves.drop_last()).play_spec(moves.last())
    }
}

/// Whether `moves` is a game played out from `pos`: every move is legal
/// where it is played, the game has not ended before it, and it has ended
/// after the last.
pub open spec fn playout(pos: Board, moves: Seq<u64>) -> bool {
    &&& forall|k: int|
        #![trigger moves.take(k)]
        0 <= k < moves.len() ==> {
            let p = played(pos, moves.take(k));
            !p.is_terminal() && p.legal(moves[k])
        }
    &&& played(pos, moves).is_terminal()
}

/// Whether `outcome` is how some game played out from `pos` went for the
/// player to move in `pos`.
pub open spec fn played_out(pos: Board, outcome: Outcome) -> bool {
    exists|moves: Seq<u64>| #[trigger]
        playout(pos, moves) && outcome == result_for(played(pos, moves), pos.turn)
}

/// How the game that has ended on `board` went for `colour`.
pub fn result(board: &Board, colour: Player) -> (outcome: Outcome)
    ensures
        outcome == result_for(*board, colour),
{
    match board.winner() {
        Some(winner) => {
            if winner == colour {
                Outcome::Won
            } else {
                Outcome::Lost
            }
        },
        None => Outcome::Drawn,
    }
}

/// Play random moves until an outcome is achieved, then take them all back.
/// The outcome is in the eyes of the player to move.
pub fn simulate(board: &mut Board, rng: &mut ThreadRng) -> (outcome: Outcome)
    requires
        old(board).wf(),
    ensures
        *final(board) == *old(board),
        played_out(*old(board), outcome),
        old(board).is_terminal() ==> outcome == result_for(*old(board), old(board).turn),
{
    let ghost start = *board;
    let colour = board.turn;
    let mut line: Vec<Move> = Vec::new();
    let ghost mut moves: Seq<u64> = Seq::empty();
    while !board.game_over()
        invariant
            start.wf(),
            board.wf(),
            *board == played(start, moves),
            moves.len() == line@.len(),
            forall|k: int| 0 <= k < moves.len() ==> #[trigger] line@[k]@ == moves[k],
            forall|k: int|
                #![trigger moves.take(k)]
                0 <= k < moves.len() ==> {
                    let p = played(start, moves.take(k));
                    p.wf() && !p.is_terminal() && p.legal(moves[k])
                },
            start.is_terminal() ==> moves.len() == 0,
        decreases 64 - count_bits(board.all()),
    {
        proof {
            lemma_has_move(*board);
        }
        let candidates = board.moves();
        let mv = random_move(&candidates, rng);
        proof {
            let k = choose|k: int|
                0 <= k < count_bits(candidates.0) && mv@ == #[trigger] set_bits(candidates.0)[k];
            lemma_listed_legal(*board, k);
            lemma_play_legal(*board, mv@);
            let longer = moves.push(mv@);
            assert(longer.drop_last() =~= moves);
            assert forall|k: int|
                #![trigger longer.take(k)]
                0 <= k < longer.len() implies {
                let p = played(start, longer.take(k));
                p.wf() && !p.is_terminal() && p.legal(longer[k])
            } by {
                if k < moves.len() {
                    assert(longer.take(k) =~= moves.take(k));
                } else {
                    assert(longer.take(k) =~= moves);
                }
            }
            moves = longer;
        }
        board.play(mv);
        line.push(mv);
        proof {
            lemma_set_bits(board.all());
        }
    }
    let outcome = result(board, colour);
    let ghost all_moves = moves;
    proof {
        assert(all_moves.take(all_moves.len() as int) =~= all_moves);
        assert(playout(start, all_moves));
    }
    while line.len() > 0
        invariant
            playout(start, all_moves),
            outcome == result_for(played(start, all_moves), start.turn),
            start.is_terminal() ==> all_moves.len() == 0,
            line@.len() <= all_moves.len(),
            *board == played(start, all_moves.take(line@.len() as int)),
            forall|k: int| 0 <= k < line@.len() ==> #[trigger] line@[k]@ == all_moves[k],
            forall|k: int|
                #![trigger all_moves.take(k)]
                0 <= k < all_moves.len() ==> {
                    let p = played(start, all_moves.take(k));
                    p.wf() && !p.is_terminal() && p.legal(all_moves[k])
                },
        decreases line@.len(),
    {
        let ghost n = line@.len() as int;
        let mv = line.pop().unwrap();
        proof {
            let shorter = all_moves.take(n - 1);
            assert(all_moves.take(n).drop_last() =~= shorter);
            assert(all_moves.take(n).last() == mv@);
            lemma_play_unplay(played(start, shorter), mv@);
        }
        board.unplay(mv);
    }
    proof {
        assert(all_moves.take(0) =~= Seq::<u64>::empty());
    }
    outcome
}

/// What one round makes of the cursor `z` at the root over `board`, where
/// selection went down through `choices` and the playout ended in `outcome`.
pub open spec fn round_of(
    z: ZipperView,
    board: Board,
    choices: Seq<int>,
    outcome: Outcome,
) -> ZipperView {
    let (y, b) = descent(z, board, choices);
    y.expanded(b).backpropagated(outcome)
}

/// Whether round number `rounds` may have gone this way: selection went
/// down through `choices`, each of them picked by `policy`, and `outcome` is
/// how a game played out from the expanded position went.
pub open spec fn round_ok<F: Fn(&Vec<Node>, u64) -> usize>(
    policy: &F,
    rounds: u64,
    z: ZipperView,
    board: Board,
    choices: Seq<int>,
    outcome: Outcome,
) -> bool {
    let (y, b) = descent(z, board, choices);
    &&& selects(z, board, choices)
    &&& picks(policy, rounds, z, board, choices)
    &&& played_out(expanded_board(y, b), outcome)
}

/// One round: selection, expansion, a playout and backpropagation. The
/// board is left as it was found.
pub fn round<F: Fn(&Vec<Node>, u64) -> usize>(
    zipper: Zipper,
    board: &mut Board,
    rounds: u64,
    policy: &F,
    rng: &mut ThreadRng,
) -> (r: Zipper)
    requires
        zipper@.tracks(*old(board)),
        zipper@.at_root(),
        policy_ok(policy),
    ensures
        *final(board) == *old(board),
        r@.tracks(*final(board)),
        r@.at_root(),
        exists|choices: Seq<int>, outcome: Outcome|
            {
                &&& #[trigger] round_ok(policy, rounds, zipper@, *old(board), choices, outcome)
                &&& r@ == round_of(zipper@, *old(board), choices, outcome)
            },
        r@.focus.children.len() >= zipper@.focus.children.len(),
        !old(board).is_terminal() ==> r@.focus.children.len() >= 1,
{
    let ghost start = zipper@;
    let ghost start_board = *board;
    let selected = zipper.select(board, rounds, policy);
    let ghost choices = choose|choices: Seq<int>|
        {
            &&& #[trigger] selects(start, start_board, choices)
            &&& picks(policy, rounds, start, start_board, choices)
            &&& selected@ == descent(start, start_board, choices).0
            &&& *board == descent(start, start_board, choices).1
        };
    proof {
        lemma_root_children_descent(start, start_board, choices);
        lemma_root_children_expanded(selected@, *board);
        if choices.len() == 0 {
            assert(descent(start, start_board, choices) == (start, start_board));
        }
    }
    let expanded = selected.expand(board);
    let outcome = simulate(board, rng);
    proof {
        lemma_root_children_backpropagated(expanded@, outcome);
    }
    let r = expanded.backpropagate(board, outcome);
    proof {
        assert(round_ok(policy, rounds, start, start_board, choices, outcome));
        assert(r@ == round_of(start, start_board, choices, outcome));
    }
    r
}

/// The number of round `k` of a run that starts with round `first`.
pub open spec fn round_number(first: u64, k: int) -> u64 {
    if first + k > u64::MAX {
        u64::MAX
    } else {
        (first + k) as u64
    }
}

/// What the rounds of `log` make of the cursor `z` at the root over
/// `board`: each entry holds the choices of one round's selection and the
/// outcome of its playout.
pub open spec fn rounds_of(
    z: ZipperView,
    board: Board,
    log: Seq<(Seq<int>, Outcome)>,
) -> ZipperView
    decreases log.len(),
{
    if log.len() == 0 {
        z
    } else {
        round_of(rounds_of(z, board, log.drop_last()), board, log.last().0, log.last().1)
    }
}

/// Whether the rounds of a run that starts with round `first` may have
/// gone the way that `log` says, round by round.
pub open spec fn rounds_ok<F: Fn(&Vec<Node>, u64) -> usize>(
    policy: &F,
    first: u64,
    z: ZipperView,
    board: Board,
    log: Seq<(Seq<int>, Outcome)>,
) -> bool {
    forall|k: int|
        #![trigger log.take(k)]
        0 <= k < log.len() ==> round_ok(
            policy,
            round_number(first, k),
            rounds_of(z, board, log.take(k)),
            board,
            log[k].0,
            log[k].1,
        )
}

/// `count` rounds, one after the other, numbered from `first` on.
pub fn run_rounds<F: Fn(&Vec<Node>, u64) -> usize>(
    zipper: Zipper,
    board: &mut Board,
    first: u64,
    count: u64,
    policy: &F,
    rng: &mut ThreadRng,
) -> (r: Zipper)
    requires
        zipper@.tracks(*old(board)),
        zipper@.at_root(),
        policy_ok(policy),
    ensures
        *final(board) == *old(board),
        r@.tracks(*final(board)),
        r@.at_root(),
        exists|log: Seq<(Seq<int>, Outcome)>|
            {
                &&& log.len() == count
                &&& #[trigger] rounds_ok(policy, first, zipper@, *old(board), log)
                &&& r@ == rounds_of(zipper@, *old(board), log)
            },
        r@.focus.children.len() >= zipper@.focus.children.len(),
        count > 0 && !old(board).is_terminal() ==> r@.focus.children.len() >= 1,
{
    let mut zipper = zipper;
    let mut done: u64 = 0;
    let ghost start = zipper@;
    let ghost mut log: Seq<(Seq<int>, Outcome)> = Seq::empty();
    while done < count
        invariant
            done <= count,
            *board == *old(board),
            zipper@.tracks(*board),
            zipper@.at_root(),
            policy_ok(policy),
            log.len() == done,
            rounds_ok(policy, first, start, *board, log),
            zipper@ == rounds_of(start, *board, log),
            zipper@.focus.children.len() >= start.focus.children.len(),
            done > 0 && !board.is_terminal() ==> zipper@.focus.children.len() >= 1,
        decreases count - done,
    {
        let ghost before = zipper@;
        let number = first.saturating_add(done);
        zipper = round(zipper, board, number, policy, rng);
        proof {
            let (choices, outcome) = choose|choices: Seq<int>, outcome: Outcome|
                {
                    &&& #[trigger] round_ok(policy, number, before, *board, choices, outcome)
                    &&& zipper@ == round_of(before, *board, choices, outcome)
                };
            let longer = log.push((choices, outcome));
            assert(longer.drop_last() =~= log);
            assert forall|k: int|
                #![trigger longer.take(k)]
                0 <= k < longer.len() implies round_ok(
                policy,
                round_number(first, k),
                rounds_of(start, *board, longer.take(k)),
                *board,
                longer[k].0,
                longer[k].1,
            ) by {
                if k < log.len() {
                    assert(longer.take(k) =~= log.take(k));
                } else {
                    assert(longer.take(k) =~= log);
                }
            }
            log = longer;
        }
        done += 1;
    }
    zipper
}

/// Whether `mv` is the move that a search with the tree of `z` settles on:
/// with the rewards of the root's children turned to the root's side, the
/// move of the first child with the greatest mean reward; the empty move
/// where the root has no child.
pub open spec fn settles(z: ZipperView, mv: u64) -> bool {
    if z.focus.children.len() == 0 {
        mv == 0
    } else {
        exists|i: int|
            #![trigger z.focus.children[i]]
            is_best(flipped_all(z.focus.children), i) && mv == z.focus.children[i].mv
    }
}

/// The move that the search settles on.
pub fn settle(zipper: Zipper) -> (mv: Move)
    requires
        zipper@.at_root(),
        exists|board: Board| #[trigger] zipper@.tracks(board),
    ensures
        settles(zipper@, mv@),
{
    let ghost before = zipper@;
    let mut tree = zipper.into_tree();
    tree.flip();
    proof {
        let board = choose|board: Board| #[trigger] before.tracks(board);
        assert forall|i: int| 0 <= i < tree@.focus.children.len() implies (
        #[trigger] tree@.focus.children[i]).visited > 0 by {
            assert(explores(before.focus.children[i], board.play_spec(before.focus.children[i].mv)));
        }
    }
    let mv = tree.best();
    proof {
        if before.focus.children.len() > 0 {
            let i = choose|i: int|
                #![trigger tree@.focus.children[i]]
                is_best(tree@.focus.children, i) && mv@ == tree@.focus.children[i].mv;
            assert(tree@.focus.children[i] == before.focus.children[i].flipped());
            assert(mv@ == before.focus.children[i].mv);
        }
    }
    mv
}

/// Searches `board` for `budget` rounds, numbered from 1 on, over a fresh
/// tree, and gives the move that it settles on: a legal move, or the empty
/// move where no round was made or the game has ended.
pub fn search_rounds<F: Fn(&Vec<Node>, u64) -> usize>(
    board: &Board,
    budget: u64,
    policy: &F,
    rng: &mut ThreadRng,
) -> (mv: Move)
    requires
        board.wf(),
        policy_ok(policy),
    ensures
        exists|log: Seq<(Seq<int>, Outcome)>|
            {
                &&& log.len() == budget
                &&& #[trigger] rounds_ok(policy, 1, ZipperView::root(), *board, log)
                &&& settles(rounds_of(ZipperView::root(), *board, log), mv@)
            },
        budget == 0 || board.is_terminal() ==> mv@ == 0,
        budget > 0 && !board.is_terminal() ==> board.legal(mv@),
{
    let mut scratch = *board;
    let zipper = Tree::new().head();
    let zipper = run_rounds(zipper, &mut scratch, 1, budget, policy, rng);
    let mv = settle(zipper);
    proof {
        if zipper@.focus.children.len() > 0 {
            let i = choose|i: int|
                #![trigger zipper@.focus.children[i]]
                is_best(flipped_all(zipper@.focus.children), i) && mv@
                    == zipper@.focus.children[i].mv;
            lemma_listed_legal(*board, i);
        }
    }
    mv
}

/// Whether `mv` wins at once: the side to move in `board` has won after it.
pub open spec fn wins_at_once(board: Board, mv: u64) -> bool {
    board.play_spec(mv).winner_spec() == Some(board.turn)
}

/// The child that a round leaves for a move that won at once when it was
/// first tried: visited once, with one loss banked for the side that is
/// to move after it.
pub open spec fn won_leaf(mv: u64) -> NodeView {
    NodeView { visited: 1, mv, reward: -1, children: Seq::empty() }
}

/// The round that first tries a move that wins at once. Where only the
/// last candidate cell of the root is untried and its move wins at once,
/// the round makes no choice, its playout is over before it starts, and it
/// leaves the root with `won_leaf` as its new last child and one win banked.
pub proof fn lemma_round_tries_win(
    z: ZipperView,
    board: Board,
    choices: Seq<int>,
    outcome: Outcome,
)
    requires
        z.tracks(board),
        z.at_root(),
        !board.is_terminal(),
        z.focus.children.len() + 1 == count_bits(board.moves_spec()),
        wins_at_once(board, set_bits(board.moves_spec())[z.focus.children.len() as int]),
        selects(z, board, choices),
        played_out(
            expanded_board(descent(z, board, choices).0, descent(z, board, choices).1),
            outcome,
        ),
    ensures
        choices.len() == 0,
        outcome == Outcome::Lost,
        round_of(z, board, choices, outcome) == z.with_focus(
            z.focus.grown(
                won_leaf(set_bits(board.moves_spec())[z.focus.children.len() as int]),
            ).rewarded(Outcome::Won),
        ),
{
    let n = z.focus.children.len() as int;
    let w = set_bits(board.moves_spec())[n];
    if choices.len() > 0 {
        assert(choices.take(0) =~= Seq::<int>::empty());
        assert(descent(z, board, choices.take(0)) == (z, board));
    }
    assert(descent(z, board, choices) == (z, board));
    let pos = board.play_spec(w);
    assert(expanded_board(z, board) == pos);
    assert(pos.is_terminal());
    let moves = choose|moves: Seq<u64>| #[trigger]
        playout(pos, moves) && outcome == result_for(played(pos, moves), pos.turn);
    if moves.len() > 0 {
        assert(moves.take(0) =~= Seq::<u64>::empty());
        assert(played(pos, moves.take(0)) == pos);
    }
    assert(played(pos, moves) == pos);
    assert(outcome == Outcome::Lost);
    let grown = z.with_focus(z.focus.grown(NodeView::leaf(w)));
    let expanded = grown.child(n);
    assert(z.expanded(board) == expanded);
    let banked = expanded.with_focus(expanded.focus.rewarded(Outcome::Lost));
    assert(banked.focus == won_leaf(w)) by {
        assert(banked.focus.children =~= Seq::<NodeView>::empty());
    }
    assert(banked.path.len() == 1);
    let crumb = banked.path.last();
    assert(crumb.index == n);
    assert(crumb.node.children =~= z.focus.children);
    let up = banked.parent();
    assert(up.path =~= Seq::<CrumbView>::empty());
    assert(up.focus.children =~= z.focus.children.push(won_leaf(w)));
    assert(up.focus == z.focus.grown(won_leaf(w)));
    assert(expanded.backpropagated(Outcome::Lost) == up.backpropagated(Outcome::Won));
    assert(up.backpropagated(Outcome::Won) == up.with_focus(up.focus.rewarded(Outcome::Won)));
    assert(z.path =~= Seq::<CrumbView>::empty());
}

/// A round that goes down to a child of the root whose move won at once.
/// The game has ended there, so selection stops at the child, nothing is
/// expanded and the playout is over before it starts: the round counts a
/// visit at the root, banks one more loss at the child, whose visits stay
/// as they are, and one more win at the root.
pub proof fn lemma_round_revisits_win(
    z: ZipperView,
    board: Board,
    choices: Seq<int>,
    outcome: Outcome,
)
    requires
        z.tracks(board),
        z.at_root(),
        !z.settled(board),
        choices.len() > 0,
        0 <= choices[0] < z.focus.children.len(),
        wins_at_once(board, z.focus.children[choices[0]].mv),
        selects(z, board, choices),
        played_out(
            expanded_board(descent(z, board, choices).0, descent(z, board, choices).1),
            outcome,
        ),
    ensures
        choices.len() == 1,
        outcome == Outcome::Lost,
        round_of(z, board, choices, outcome) == z.with_focus(
            z.focus.visit().with_children(
                z.focus.children.update(
                    choices[0],
                    z.focus.children[choices[0]].rewarded(Outcome::Lost),
                ),
            ).rewarded(Outcome::Won),
        ),
{
    let i = choices[0];
    let child = z.focus.children[i];
    let first = choices.take(1);
    assert(first.drop_last() =~= Seq::<int>::empty());
    assert(first.last() == i);
    assert(descent(z, board, first.drop_last()) == (z, board));
    let down = z.visited().child(i);
    let pos = board.play_spec(child.mv);
    assert(descent(z, board, first) == (down, pos));
    assert(pos.is_terminal());
    assert(down.settled(pos));
    if choices.len() > 1 {
        assert(false);
    }
    assert(choices =~= first);
    assert(expanded_board(down, pos) == pos);
    let moves = choose|moves: Seq<u64>| #[trigger]
        playout(pos, moves) && outcome == result_for(played(pos, moves), pos.turn);
    if moves.len() > 0 {
        assert(moves.take(0) =~= Seq::<u64>::empty());
        assert(played(pos, moves.take(0)) == pos);
    }
    assert(played(pos, moves) == pos);
    assert(outcome == Outcome::Lost);
    assert(down.expanded(pos) == down);
    let banked = down.with_focus(child.rewarded(Outcome::Lost));
    assert(banked.path.len() == 1);
    let crumb = banked.path.last();
    assert(crumb.index == i);
    assert(crumb.node == z.focus.visit().without(i));
    let up = banked.parent();
    assert(up.path =~= Seq::<CrumbView>::empty());
    assert(up.focus.children =~= z.focus.children.update(i, child.rewarded(Outcome::Lost)));
    assert(down.backpropagated(Outcome::Lost) == up.backpropagated(Outcome::Won));
    assert(up.backpropagated(Outcome::Won) == up.with_focus(up.focus.rewarded(Outcome::Won)));
    assert(z.path =~= Seq::<CrumbView>::empty());
}

/// After the round that first tries a winning move, the search settles on
/// that move, where every child that the root had before has, seen from
/// the root, a mean reward below one.
pub proof fn lemma_settles_on_win(
    z: ZipperView,
    board: Board,
    choices: Seq<int>,
    outcome: Outcome,
    mv: u64,
)
    requires
        z.tracks(board),
        z.at_root(),
        !board.is_terminal(),
        z.focus.children.len() + 1 == count_bits(board.moves_spec()),
        wins_at_once(board, set_bits(board.moves_spec())[z.focus.children.len() as int]),
        forall|j: int|
            0 <= j < z.focus.children.len() ==> (#[trigger] z.focus.children[j]).flipped().reward
                < z.focus.children[j].visited,
        selects(z, board, choices),
        played_out(
            expanded_board(descent(z, board, choices).0, descent(z, board, choices).1),
            outcome,
        ),
        settles(round_of(z, board, choices, outcome), mv),
    ensures
        mv == set_bits(board.moves_spec())[z.focus.children.len() as int],
{
    let n = z.focus.children.len() as int;
    let w = set_bits(board.moves_spec())[n];
    lemma_round_tries_win(z, board, choices, outcome);
    let after = round_of(z, board, choices, outcome);
    let children = after.focus.children;
    assert(children == z.focus.children.push(won_leaf(w)));
    let turned = flipped_all(children);
    let i = choose|i: int|
        #![trigger after.focus.children[i]]
        is_best(turned, i) && mv == after.focus.children[i].mv;
    if i < n {
        let other = z.focus.children[i];
        assert(turned[i] == other.flipped());
        assert(turned[n] == won_leaf(w).flipped());
        assert(!beats(turned[n], turned[i]));
        assert(turned[n].reward == 1 && turned[n].visited == 1);
        assert(beats(turned[n], turned[i])) by {
            assert(1 * turned[i].visited > turned[i].reward * 1);
        }
    }
}

/// Whether the clock and the stop flag are looked at after round `rounds`:
/// they are after every 1024 rounds.
pub fn is_checkpoint(rounds: u64) -> (r: bool)
    ensures
        r == (rounds % 1024 == 0),
{
    rounds % 1024 == 0
}

/// After any round, the next checkpoint is at most 1024 rounds away: a
/// search that is asked to stop learns of it within that many rounds.
pub proof fn lemma_next_checkpoint(rounds: u64) -> (k: int)
    ensures
        1 <= k <= 1024,
        (rounds + k) % 1024 == 0,
{
    1024 - (rounds % 1024) as int
}

} // verus!
