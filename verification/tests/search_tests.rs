use connect4::bitboard::BitBoard;
use connect4::board::Board;
use connect4::node::Node;
use connect4::outcome::Outcome;
use connect4::player::Player;
use connect4::search::{is_checkpoint, result, round, run_rounds, search_rounds, settle, simulate};
use connect4::tree::Tree;

/// The upper confidence bound over the children of a node.
fn ucb1(children: &Vec<Node>, rounds: u64) -> usize {
    let mut best = (f64::NEG_INFINITY, 0);
    for (idx, child) in children.iter().enumerate() {
        let visited = child.data.visited as f64;
        let expected = -(child.data.reward as f64) / visited;
        let score = expected + 2. * ((rounds as f64).ln() / visited).sqrt();
        if score > best.0 {
            best = (score, idx);
        }
    }
    best.1
}

fn first_child(_children: &Vec<Node>, _rounds: u64) -> usize {
    0
}

fn board(yellow: u64, red: u64, turn: Player) -> Board {
    Board { yellow: BitBoard(yellow), red: BitBoard(red), turn }
}

#[test]
fn simulate_restores_the_board() {
    let mut rng = rand::thread_rng();
    let start = Board::default();
    let mut b = start;
    for _ in 0..50 {
        let _ = simulate(&mut b, &mut rng);
        assert_eq!(b, start);
    }
}

#[test]
fn simulate_on_a_won_board_reports_the_winner() {
    let mut rng = rand::thread_rng();
    let mut b = board(0b1111, 0b111 << 8, Player::Red);
    assert_eq!(simulate(&mut b, &mut rng), Outcome::Lost);
    let mut b = board(0b1111, 0b111 << 8, Player::Yellow);
    assert_eq!(simulate(&mut b, &mut rng), Outcome::Won);
}

#[test]
fn result_is_stated_for_the_given_side() {
    let b = board(0b1111, 0b111 << 8, Player::Red);
    assert_eq!(result(&b, Player::Yellow), Outcome::Won);
    assert_eq!(result(&b, Player::Red), Outcome::Lost);
    assert_eq!(result(&Board::default(), Player::Red), Outcome::Drawn);
}

#[test]
fn one_round_from_a_fresh_tree_leaves_the_board_alone() {
    let mut rng = rand::thread_rng();
    let start = board(0b0110, 0b1001, Player::Yellow);
    let mut b = start;
    let zipper = round(Tree::new().head(), &mut b, 1, &ucb1, &mut rng);
    assert_eq!(b, start);
    assert!(!zipper.has_parent());
    // selection stopped at the root, so no visit was counted there; the
    // first child was made
    assert_eq!(zipper.data().visited, 1);
    let tree = zipper.into_tree();
    assert_eq!(tree.best().bitboard(), BitBoard(1 << 4));
}

#[test]
fn many_rounds_leave_the_board_alone() {
    let mut rng = rand::thread_rng();
    let start = Board::default();
    let mut b = start;
    let zipper = run_rounds(Tree::new().head(), &mut b, 1, 2000, &ucb1, &mut rng);
    assert_eq!(b, start);
    // the first eight rounds stop at the root and make its children; every
    // later round leaves the root and counts a visit there
    assert_eq!(zipper.data().visited, 1 + 2000 - 8);
    assert!(!zipper.has_parent());
}

#[test]
fn search_without_rounds_gives_the_empty_move() {
    let mut rng = rand::thread_rng();
    let mv = search_rounds(&Board::default(), 0, &ucb1, &mut rng);
    assert_eq!(mv.bitboard(), BitBoard(0));
    assert_eq!(mv.column(), None);
}

#[test]
fn search_on_a_finished_game_gives_the_empty_move() {
    let mut rng = rand::thread_rng();
    let b = board(0b1111, 0b111 << 8, Player::Red);
    let mv = search_rounds(&b, 100, &ucb1, &mut rng);
    assert_eq!(mv.bitboard(), BitBoard(0));
}

#[test]
fn search_gives_a_legal_move_whatever_the_policy() {
    let mut rng = rand::thread_rng();
    let b = Board::default();
    let mv = search_rounds(&b, 300, &first_child, &mut rng);
    assert_eq!(mv.bitboard() & b.moves(), mv.bitboard());
    assert_eq!(mv.bitboard().len(), 1);
}

#[test]
fn search_finds_the_winning_column() {
    // Yellow has three stones stacked in column 2, Red three in column 5.
    let yellow = 1u64 << 2 | 1 << 10 | 1 << 18;
    let red = 1u64 << 5 | 1 << 13 | 1 << 21;
    let b = board(yellow, red, Player::Yellow);
    let mut rng = rand::thread_rng();
    let mv = search_rounds(&b, 20_000, &ucb1, &mut rng);
    assert_eq!(mv.column(), Some(2));
    assert_eq!(mv.bitboard(), BitBoard(1 << 26));
}

#[test]
fn search_converges_to_the_last_untried_winning_move() {
    // Only column 7 wins at once for Yellow; it is the last move to be tried.
    let yellow = 1u64 << 7 | 1 << 15 | 1 << 23;
    let red = 1u64 << 0 | 1 << 8 | 1 << 1;
    let b = board(yellow, red, Player::Yellow);
    let mut rng = rand::thread_rng();
    let mv = search_rounds(&b, 20_000, &ucb1, &mut rng);
    assert_eq!(mv.column(), Some(7));
}

#[test]
fn settle_on_a_fresh_tree_gives_the_empty_move() {
    assert_eq!(settle(Tree::new().head()).bitboard(), BitBoard(0));
}

#[test]
fn checkpoints_come_every_1024_rounds() {
    assert!(is_checkpoint(0));
    assert!(!is_checkpoint(1));
    assert!(!is_checkpoint(1023));
    assert!(is_checkpoint(1024));
    assert!(is_checkpoint(4096));
    assert!(!is_checkpoint(4097));
}

fn last_child(children: &Vec<Node>, _rounds: u64) -> usize {
    children.len() - 1
}

#[test]
fn the_round_that_first_tries_a_winning_move_settles_on_it() {
    // Column 7 wins at once for Yellow, and its cell is the last candidate.
    let yellow = 1u64 << 7 | 1 << 15 | 1 << 23;
    let red = 1u64 << 0 | 1 << 8 | 1 << 1;
    let start = board(yellow, red, Player::Yellow);
    let mut b = start;
    let mut rng = rand::thread_rng();
    let mut zipper = Tree::new().head();
    // every other move is tried first, each with a drawn playout
    for _ in 0..7 {
        zipper = zipper.expand(&mut b).backpropagate(&mut b, Outcome::Drawn);
    }
    zipper = round(zipper, &mut b, 8, &first_child, &mut rng);
    assert_eq!(b, start);
    assert_eq!(zipper.data().visited, 1);
    assert_eq!(zipper.data().reward, 1);
    let won = zipper.child(7);
    assert_eq!(won.data().mv.bitboard(), BitBoard(1 << 31));
    assert_eq!(won.data().visited, 1);
    assert_eq!(won.data().reward, -1);
    let zipper = won.parent();
    // every round that goes down to the winning move banks one more loss
    // there and one more win at the root, and counts a visit at the root
    let zipper = run_rounds(zipper, &mut b, 9, 3, &last_child, &mut rng);
    assert_eq!(b, start);
    assert_eq!(zipper.data().visited, 4);
    assert_eq!(zipper.data().reward, 4);
    let won = zipper.child(7);
    assert_eq!(won.data().visited, 1);
    assert_eq!(won.data().reward, -4);
    let mv = settle(won.parent());
    assert_eq!(mv.column(), Some(7));
    assert_eq!(mv.bitboard(), BitBoard(1 << 31));
}

#[test]
fn a_tie_at_the_greatest_mean_goes_to_the_earlier_child() {
    // As above, but the playout after the first move went to Yellow: the
    // first child and the winning move have the same mean, seen from the root.
    let yellow = 1u64 << 7 | 1 << 15 | 1 << 23;
    let red = 1u64 << 0 | 1 << 8 | 1 << 1;
    let mut b = board(yellow, red, Player::Yellow);
    let mut rng = rand::thread_rng();
    let mut zipper = Tree::new().head();
    zipper = zipper.expand(&mut b).backpropagate(&mut b, Outcome::Lost);
    for _ in 0..6 {
        zipper = zipper.expand(&mut b).backpropagate(&mut b, Outcome::Drawn);
    }
    zipper = round(zipper, &mut b, 8, &first_child, &mut rng);
    assert_eq!(settle(zipper).column(), Some(2));
}
