//! A move: the one cell that a stone is dropped into.

use crate::bitboard::{cell, BitBoard};
use crate::bits::{lemma_const_bits, lemma_nonzero_has_bit};
use vstd::prelude::*;

verus! {

/// A Connect 4 move. Represents the placement of a single stone at a certain
/// column.
#[derive(Clone, Copy, Debug)]
pub struct Move(BitBoard);

impl View for Move {
    type V = u64;

    /// The cells of the move as a word: one bit for a move on the board, none
    /// for the empty move.
    closed spec fn view(&self) -> u64 {
        self.0.0
    }
}

impl Move {
    /// Create a new move from a bitboard
    pub fn new(bb: BitBoard) -> (r: Move)
        ensures
            r@ == bb.0,
    {
        Move(bb)
    }

    /// Retrieve the move's bitboard
    pub fn bitboard(self) -> (r: BitBoard)
        ensures
            r.0 == self@,
    {
        self.0
    }

    /// The move that places nothing, as the root of a search tree holds it.
    pub fn empty() -> (r: Move)
        ensures
            r@ == 0,
    {
        Move(BitBoard(0))
    }

    /// The lowest column that the move has a cell in, if it has a cell.
    pub fn column(self) -> (r: Option<usize>)
        ensures
            r is None <==> self@ == 0,
            r matches Some(c) ==> {
                &&& c < 8
                &&& exists|rank: int| cell(self@, c as int, rank)
                &&& forall|col: int, rank: int| cell(self@, col, rank) ==> c <= col
            },
    {
        let mut col: usize = 0;
        while col < BitBoard::COLUMNS
            invariant
                col <= 8,
                forall|c: int, rank: int| 0 <= c < col ==> !cell(self@, c, rank),
            decreases 8 - col,
        {
            let in_column = self.bitboard().column(col);
            if !in_column.is_empty() {
                proof {
                    let i = lemma_nonzero_has_bit(in_column.0);
                    assert(cell(in_column.0, i % 8, i / 8));
                    assert(cell(self@, col as int, i / 8));
                    if self@ == 0 {
                        lemma_const_bits();
                    }
                }
                return Some(col);
            }
            proof {
                lemma_const_bits();
                assert forall|rank: int| !cell(self@, col as int, rank) by {
                    if cell(self@, col as int, rank) {
                        assert(cell(in_column.0, col as int, rank));
                    }
                }
            }
            col += 1;
        }
        proof {
            if self@ != 0 {
                let i = lemma_nonzero_has_bit(self@);
                assert(cell(self@, i % 8, i / 8));
            }
        }
        None
    }
}

/// The digit that names column `c`.
pub open spec fn column_name(c: int) -> Seq<char> {
    if c == 0 {
        "0"@
    } else if c == 1 {
        "1"@
    } else if c == 2 {
        "2"@
    } else if c == 3 {
        "3"@
    } else if c == 4 {
        "4"@
    } else if c == 5 {
        "5"@
    } else if c == 6 {
        "6"@
    } else {
        "7"@
    }
}

impl Move {
    /// The move as the protocol writes it: the number of its column, counted
    /// from zero, or `None` for the empty move.
    pub fn notation(self) -> (r: String)
        ensures
            self@ == 0 ==> r@ == "None"@,
            self@ != 0 ==> exists|c: int, rank: int|
                {
                    &&& #[trigger] cell(self@, c, rank)
                    &&& forall|col: int, other: int| cell(self@, col, other) ==> c <= col
                    &&& r@ == column_name(c)
                },
    {
        match self.column() {
            None => "None".to_owned(),
            Some(c) => {
                let name = if c == 0 {
                    "0"
                } else if c == 1 {
                    "1"
                } else if c == 2 {
                    "2"
                } else if c == 3 {
                    "3"
                } else if c == 4 {
                    "4"
                } else if c == 5 {
                    "5"
                } else if c == 6 {
                    "6"
                } else {
                    "7"
                };
                name.to_owned()
            },
        }
    }
}

impl Default for Move {
    fn default() -> (r: Move)
        ensures
            r@ == 0,
    {
        Move(BitBoard(0))
    }
}

} // verus!
