use connect4::bitboard::{a1_h8, h1_a8, horizontal, vertical, BitBoard};
use connect4::board::{choose_move, moves_list, random_move, Board};
use connect4::game_move::Move;
use connect4::player::Player;

fn board(yellow: u64, red: u64, turn: Player) -> Board {
    Board { yellow: BitBoard(yellow), red: BitBoard(red), turn }
}

#[test]
fn empty_board_has_one_move_per_column() {
    let b = Board::default();
    assert_eq!(b.moves(), BitBoard(0xff));
    assert_eq!(b.moves().len(), 8);
    assert_eq!(b.winner(), None);
    assert!(!b.game_over());
}

#[test]
fn play_then_unplay_restores_the_board() {
    let mut b = Board::default();
    let start = b;
    let mv = b.from_column(3);
    assert_eq!(mv.bitboard(), BitBoard(1 << 3));
    b.play(mv);
    assert_eq!(b.yellow, BitBoard(1 << 3));
    assert_eq!(b.turn, Player::Red);
    assert_eq!(b.moves(), BitBoard(0xf7 | (1 << 11)));
    b.unplay(mv);
    assert_eq!(b, start);
}

#[test]
fn horizontal_four_wins() {
    assert_eq!(horizontal(BitBoard(0b1111)), BitBoard(0b1000));
    assert_eq!(horizontal(BitBoard(0b0111)), BitBoard(0));
    // a run that wraps from one rank into the next is no run
    assert_eq!(horizontal(BitBoard(0b11_1100_0000)), BitBoard(0));
    assert_eq!(board(0b1111, 0, Player::Red).winner(), Some(Player::Yellow));
    assert_eq!(board(0, 0b1111 << 8, Player::Red).winner(), Some(Player::Red));
}

#[test]
fn vertical_four_wins() {
    let col = 1u64 | 1 << 8 | 1 << 16 | 1 << 24;
    assert_eq!(vertical(BitBoard(col)), BitBoard(1 << 24));
    assert_eq!(board(0, col << 5, Player::Yellow).winner(), Some(Player::Red));
}

#[test]
fn diagonal_fours_win() {
    let rising = 1u64 | 1 << 9 | 1 << 18 | 1 << 27;
    assert_eq!(a1_h8(BitBoard(rising)), BitBoard(1 << 27));
    assert_eq!(h1_a8(BitBoard(rising)), BitBoard(0));
    let falling = 1u64 << 3 | 1 << 10 | 1 << 17 | 1 << 24;
    assert_eq!(h1_a8(BitBoard(falling)), BitBoard(1 << 24));
    assert_eq!(a1_h8(BitBoard(falling)), BitBoard(0));
    assert_eq!(board(rising, 0, Player::Yellow).winner(), Some(Player::Yellow));
    assert_eq!(board(0, falling, Player::Yellow).winner(), Some(Player::Red));
}

#[test]
fn three_in_a_row_does_not_win() {
    let threes = 0b111u64 | 1 << 8 | 1 << 16 | 1 << 9 | 1 << 18 | 1 << 15 | 1 << 22 | 1 << 29;
    let b = board(threes, 0, Player::Yellow);
    assert_eq!(b.winner(), None);
    assert!(!b.game_over());
}

#[test]
fn full_board_is_over() {
    // columns filled in pairs of ranks so that nobody has four in a row
    let pattern: u64 = 0x3333_cccc_3333_cccc;
    let a = 0x00ff_00ff_00ff_00ffu64;
    let yellow = (pattern & a) | (!pattern & !a);
    let b = board(yellow, !yellow, Player::Yellow);
    assert!((b.red | b.yellow).is_full());
    assert!(b.game_over());
    assert_eq!(b.moves(), BitBoard(0));
}

#[test]
fn moves_list_is_lowest_bit_first() {
    let list = moves_list(&BitBoard(0b1010_0100));
    let bits: Vec<u64> = list.iter().map(|m| m.bitboard().0).collect();
    assert_eq!(bits, vec![0b100, 0b10_0000, 0b1000_0000]);
    assert!(moves_list(&BitBoard(0)).is_empty());
    assert_eq!(choose_move(&BitBoard(0b1010_0100), 1).bitboard(), BitBoard(0b10_0000));
}

#[test]
fn random_move_is_one_of_the_candidates() {
    let mut rng = rand::thread_rng();
    let bb = BitBoard(0b1010_0100);
    for _ in 0..64 {
        let mv = random_move(&bb, &mut rng).bitboard().0;
        assert!(mv == 0b100 || mv == 0b10_0000 || mv == 0b1000_0000);
    }
}

#[test]
fn move_column_is_the_column_of_its_cell() {
    assert_eq!(Move::new(BitBoard(1 << 19)).column(), Some(3));
    assert_eq!(Move::new(BitBoard(1)).column(), Some(0));
    assert_eq!(Move::new(BitBoard(1 << 63)).column(), Some(7));
    assert_eq!(Move::empty().column(), None);
}

#[test]
fn a_full_column_holds_no_candidate() {
    // column 0 is full, column 1 holds three stones, the others are empty
    let full = 0x0101_0101_0101_0101u64;
    let yellow = (full & 0x0001_0001_0001_0001) | 1 << 1 | 1 << 17;
    let red = (full & 0x0100_0100_0100_0100) | 1 << 9;
    let b = board(yellow, red, Player::Yellow);
    assert!(b.is_wf());
    let moves = b.moves();
    assert!(moves.column(0).is_empty());
    assert_eq!(moves.column(1), BitBoard(1 << 25));
    for col in 2..8 {
        assert_eq!(moves.column(col), BitBoard(1 << col));
    }
    assert_eq!(moves.len(), 7);
    assert_eq!(b.from_column(1).bitboard(), BitBoard(1 << 25));
}

#[test]
fn reached_positions_have_one_candidate_per_open_column() {
    let mut rng = rand::thread_rng();
    for _ in 0..20 {
        let mut b = Board::default();
        while !b.game_over() {
            assert!(b.is_wf());
            let all = b.red | b.yellow;
            let moves = b.moves();
            assert!((moves & all).is_empty());
            for col in 0..8 {
                let open = all.column(col) != BitBoard(0x0101_0101_0101_0101 << col);
                assert_eq!(moves.column(col).len(), if open { 1 } else { 0 });
            }
            let before = b;
            let mv = random_move(&moves, &mut rng);
            b.play(mv);
            let mut back = b;
            back.unplay(mv);
            assert_eq!(back, before);
        }
    }
}

#[test]
fn positions_with_hanging_or_shared_stones_are_not_reached() {
    assert!(Board::default().is_wf());
    assert!(board(1, 1 << 8, Player::Yellow).is_wf());
    // a stone in the air
    assert!(!board(1 << 8, 0, Player::Yellow).is_wf());
    assert!(!board(1, 1 << 16, Player::Yellow).is_wf());
    // a cell that both players hold
    assert!(!board(1, 1, Player::Yellow).is_wf());
}

#[test]
fn bitboard_operations() {
    let a = BitBoard(0b1100);
    let b = BitBoard(0b1010);
    assert_eq!(a & b, BitBoard(0b1000));
    assert_eq!(a | b, BitBoard(0b1110));
    assert_eq!(a ^ b, BitBoard(0b0110));
    assert_eq!(!a, BitBoard(!0b1100u64));
    assert_eq!(a - 1, BitBoard(0b1011));
    assert_eq!(a.shl(2), BitBoard(0b110000));
    assert_eq!(a.shr(2), BitBoard(0b11));
    assert_eq!(BitBoard::idx(5), BitBoard(32));
    assert_eq!(a.len(), 2);
    assert!(BitBoard(0).is_empty());
    assert!(!a.is_empty());
    assert!(BitBoard(u64::MAX).is_full());
    assert!(!a.is_full());
    assert_eq!(BitBoard(u64::MAX).column(2), BitBoard(0x0404_0404_0404_0404));
    assert_eq!(BitBoard::COLUMNS, 8);
}

#[test]
fn move_notation_names_the_column() {
    assert_eq!(Move::new(BitBoard(1 << 19)).notation(), "3");
    assert_eq!(Move::new(BitBoard(1 << 56)).notation(), "0");
    assert_eq!(Move::new(BitBoard(1 << 7)).notation(), "7");
    assert_eq!(Move::empty().notation(), "None");
}
