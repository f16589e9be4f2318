use connect4::bitboard::BitBoard;
use connect4::board::Board;
use connect4::game_move::Move;
use connect4::node::Node;
use connect4::outcome::Outcome;
use connect4::player::Player;
use connect4::score::Score;
use connect4::tree::{Tree, Zipper};

fn first(_children: &Vec<Node>, _rounds: u64) -> usize {
    0
}

fn last(children: &Vec<Node>, _rounds: u64) -> usize {
    children.len() - 1
}

#[test]
fn new_node_is_visited_once() {
    let node = Node::new(Move::new(BitBoard(4)));
    assert_eq!(node.data.visited, 1);
    assert_eq!(node.data.reward, 0);
    assert_eq!(node.data.mv.bitboard(), BitBoard(4));
    assert!(node.children.is_empty());
}

#[test]
fn node_visit_counts_and_saturates() {
    let mut node = Node::new(Move::empty());
    node.visit();
    assert_eq!(node.data.visited, 2);
    node.data.visited = u64::MAX;
    node.visit();
    assert_eq!(node.data.visited, u64::MAX);
}

#[test]
fn fresh_tree_has_the_root_in_focus() {
    let zipper = Tree::new().head();
    assert!(!zipper.has_parent());
    assert_eq!(zipper.data().visited, 1);
    assert_eq!(zipper.data().reward, 0);
    assert_eq!(zipper.data().mv.bitboard(), BitBoard(0));
}

#[test]
fn expand_tries_the_moves_in_order() {
    let mut b = Board::default();
    let start = b;
    let mut zipper = Tree::new().head();
    for col in 0..8 {
        let child = zipper.expand(&mut b);
        assert!(child.has_parent());
        assert_eq!(child.data().mv.column(), Some(col));
        assert_eq!(child.data().visited, 1);
        assert_eq!(b.yellow, BitBoard(1 << col));
        assert_eq!(b.turn, Player::Red);
        zipper = child.backpropagate(&mut b, Outcome::Drawn);
        assert_eq!(b, start);
        assert!(!zipper.has_parent());
    }
}

#[test]
fn expand_leaves_a_finished_game_alone() {
    let mut b = Board { yellow: BitBoard(0b1111), red: BitBoard(0b111 << 8), turn: Player::Red };
    let start = b;
    let zipper = Tree::new().head().expand(&mut b);
    assert!(!zipper.has_parent());
    assert_eq!(b, start);
}

#[test]
fn child_then_parent_keeps_the_order_of_the_children() {
    let mut b = Board::default();
    let mut zipper = Tree::new().head();
    for _ in 0..5 {
        zipper = zipper.expand(&mut b).backpropagate(&mut b, Outcome::Drawn);
    }
    for index in 0..5 {
        let child = zipper.child(index);
        assert_eq!(child.data().mv.column(), Some(index));
        zipper = child.parent();
    }
    for index in (0..5).rev() {
        let child = zipper.child(index);
        assert_eq!(child.data().mv.column(), Some(index));
        zipper = child.parent();
    }
}

#[test]
fn backpropagate_banks_rewards_with_alternating_sign() {
    let mut b = Board::default();
    let start = b;
    let root = Tree::new().head();
    let child = root.expand(&mut b);
    let grandchild = child.expand(&mut b);
    assert_eq!(grandchild.data().mv.bitboard(), BitBoard(1 << 1));
    let root = grandchild.backpropagate(&mut b, Outcome::Won);
    assert_eq!(b, start);
    assert_eq!(root.data().reward, 1);
    let child = root.child(0);
    assert_eq!(child.data().reward, -1);
    let grandchild = child.child(0);
    assert_eq!(grandchild.data().reward, 1);
}

#[test]
fn select_stops_where_a_move_is_untried() {
    let mut b = Board::default();
    let start = b;
    let mut root = Tree::new().head();
    root.data_mut().reward = 5;
    let zipper = root.select(&mut b, 1, &first);
    // the focus is left as it was: no visit is counted where selection stops
    assert!(!zipper.has_parent());
    assert_eq!(zipper.data().visited, 1);
    assert_eq!(zipper.data().reward, 5);
    assert_eq!(zipper.data().mv.bitboard(), BitBoard(0));
    assert_eq!(b, start);
}

#[test]
fn select_leaves_a_finished_game_alone() {
    let mut b = Board { yellow: BitBoard(0b1111), red: BitBoard(0b111 << 8), turn: Player::Red };
    let start = b;
    let zipper = Tree::new().head().select(&mut b, 1, &first);
    assert!(!zipper.has_parent());
    assert_eq!(zipper.data().visited, 1);
    assert_eq!(b, start);
}

#[test]
fn select_goes_down_where_every_move_was_tried() {
    let mut b = Board::default();
    let start = b;
    let mut zipper = Tree::new().head();
    for _ in 0..8 {
        zipper = zipper.expand(&mut b).backpropagate(&mut b, Outcome::Drawn);
    }
    let selected = zipper.select(&mut b, 9, &last);
    assert!(selected.has_parent());
    assert_eq!(selected.data().mv.column(), Some(7));
    // the visit is counted at the root, which was left, not at the child
    assert_eq!(selected.data().visited, 1);
    assert_eq!(b.yellow, BitBoard(1 << 7));
    let root = selected.backpropagate(&mut b, Outcome::Lost);
    assert_eq!(b, start);
    assert_eq!(root.data().visited, 2);
    assert_eq!(root.data().reward, 1);
}

#[test]
fn descend_plays_the_move_of_the_child() {
    let mut b = Board::default();
    let mut zipper = Tree::new().head();
    for _ in 0..3 {
        zipper = zipper.expand(&mut b).backpropagate(&mut b, Outcome::Drawn);
    }
    let child = zipper.descend(&mut b, 2);
    assert_eq!(child.data().mv.column(), Some(2));
    assert_eq!(b.yellow, BitBoard(1 << 2));
    assert_eq!(b.turn, Player::Red);
}

#[test]
fn best_is_the_first_child_with_the_greatest_mean() {
    let mut b = Board::default();
    let mut zipper = Tree::new().head();
    let outcomes = [Outcome::Lost, Outcome::Won, Outcome::Won, Outcome::Drawn];
    for outcome in outcomes {
        zipper = zipper.expand(&mut b).backpropagate(&mut b, outcome);
    }
    let mut tree = zipper.into_tree();
    // rewards -1, 1, 1, 0 over one visit each: the first of the two ones
    assert_eq!(tree.best().column(), Some(1));
    tree.flip();
    // rewards 1, -1, -1, 0
    assert_eq!(tree.best().column(), Some(0));
}

#[test]
fn best_on_a_fresh_tree_is_the_empty_move() {
    assert_eq!(Tree::new().best().bitboard(), BitBoard(0));
}

#[test]
fn best_compares_means_not_sums() {
    let mut b = Board::default();
    let mut zipper = Tree::new().head();
    // child 0: reward 2 over 3 visits; child 1: reward 1 over 1 visit
    zipper = zipper.expand(&mut b).backpropagate(&mut b, Outcome::Won);
    zipper = zipper.expand(&mut b).backpropagate(&mut b, Outcome::Won);
    let mut child = zipper.child(0);
    child.visit();
    child.visit();
    zipper = child.parent();
    let child = zipper.descend(&mut b, 0);
    zipper = child.backpropagate(&mut b, Outcome::Won);
    assert_eq!(zipper.into_tree().best().column(), Some(1));
}

#[test]
fn outcome_negation_and_reward() {
    assert_eq!(-Outcome::Won, Outcome::Lost);
    assert_eq!(-Outcome::Lost, Outcome::Won);
    assert_eq!(-Outcome::Drawn, Outcome::Drawn);
    assert_eq!(Outcome::Won.reward(), 1);
    assert_eq!(Outcome::Lost.reward(), -1);
    assert_eq!(Outcome::Drawn.reward(), 0);
}

#[test]
fn score_counts_and_inverts() {
    let mut score = Score::default();
    score.update(&Outcome::Won);
    score.update(&Outcome::Won);
    score.update(&Outcome::Lost);
    score.update(&Outcome::Drawn);
    assert_eq!((score.wins(), score.losses()), (2, 1));
    score.invert();
    assert_eq!((score.wins(), score.losses()), (1, 2));
    let negated = -score;
    assert_eq!((negated.wins(), negated.losses()), (2, 1));
}

#[test]
fn player_not_changes_sides() {
    assert_eq!(!Player::Yellow, Player::Red);
    assert_eq!(!Player::Red, Player::Yellow);
    assert_eq!(Player::default(), Player::Yellow);
}

#[test]
fn data_mut_changes_the_node_in_focus() {
    let mut zipper = Tree::new().head();
    zipper.data_mut().reward = -3;
    zipper.data_mut().visited = 9;
    assert_eq!(zipper.data().reward, -3);
    assert_eq!(zipper.data().visited, 9);
    assert!(!zipper.has_parent());
}

#[test]
fn rewards_stay_within_range() {
    let mut b = Board::default();
    let mut zipper = Tree::new().head();
    zipper.data_mut().reward = i64::MAX;
    zipper = zipper.backpropagate(&mut b, Outcome::Won);
    assert_eq!(zipper.data().reward, i64::MAX);
    zipper = zipper.backpropagate(&mut b, Outcome::Lost);
    assert_eq!(zipper.data().reward, i64::MAX - 1);
    zipper.data_mut().reward = i64::MIN;
    zipper = zipper.backpropagate(&mut b, Outcome::Lost);
    assert_eq!(zipper.data().reward, i64::MIN);
    zipper = zipper.backpropagate(&mut b, Outcome::Drawn);
    assert_eq!(zipper.data().reward, i64::MIN);
}

#[test]
fn flip_changes_the_sign_of_the_rewards_of_the_children() {
    let mut b = Board::default();
    let mut zipper = Tree::new().head();
    for outcome in [Outcome::Won, Outcome::Lost, Outcome::Drawn] {
        zipper = zipper.expand(&mut b).backpropagate(&mut b, outcome);
    }
    let mut last = zipper.child(2);
    last.data_mut().reward = i64::MIN;
    let root_reward = { let z = last.parent(); let r = z.data().reward; zipper = z; r };
    let mut tree = zipper.into_tree();
    tree.flip();
    let zipper = tree.head();
    assert_eq!(zipper.data().reward, root_reward);
    let rewards: Vec<i64> = {
        let mut rewards = Vec::new();
        let mut z = zipper;
        for index in 0..3 {
            let child = z.child(index);
            rewards.push(child.data().reward);
            z = child.parent();
        }
        rewards
    };
    assert_eq!(rewards, vec![-1, 1, i64::MAX]);
}

#[test]
fn a_cursor_can_be_made_over_any_node() {
    let mut node = Node::new(Move::new(BitBoard(2)));
    node.children.push(Node::new(Move::new(BitBoard(1))));
    node.children.push(Node::new(Move::new(BitBoard(4))));
    node.children.push(Node::new(Move::new(BitBoard(8))));
    let zipper = Zipper::new(node);
    assert!(!zipper.has_parent());
    let first = zipper.child(0);
    assert_eq!(first.data().mv.bitboard(), BitBoard(1));
    // the last child stands where the first was taken from, and goes back
    let zipper = first.parent();
    let second = zipper.child(1);
    assert_eq!(second.data().mv.bitboard(), BitBoard(4));
    let third = second.parent().child(2);
    assert_eq!(third.data().mv.bitboard(), BitBoard(8));
}
