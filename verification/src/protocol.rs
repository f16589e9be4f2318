//! What a command does to the engine: the new position, and what is left
//! for the caller to do.

use crate::bitboard::BitBoard;
use crate::board::Board;
use crate::command::{CommandType, EngineOption};
use crate::player::Player;
use vstd::prelude::*;

verus! {

/// What the command loop does after a command has been applied.
#[derive(Clone, Copy, Debug, PartialEq, Eq, Structural)]
pub enum Action {
    /// Nothing: the command was about the position alone.
    Nothing,
    /// Say who the engine is and which options it has.
    Identify,
    /// Say that the engine is ready.
    Ready,
    /// Search the position, for this many microseconds or until stopped.
    Search(Option<u64>),
    /// Stop the search that is running.
    Stop,
    /// Leave the loop.
    Quit,
}

/// The position after `command`.
pub open spec fn applied_board(board: Board, command: CommandType) -> Board {
    match command {
        CommandType::Startpos => Board {
            yellow: BitBoard(0),
            red: BitBoard(0),
            turn: Player::Yellow,
        },
        CommandType::SetOption(EngineOption::Turn(player)) => Board { turn: player, ..board },
        CommandType::CustomPosition(red, yellow) => Board { red, yellow, ..board },
        _ => board,
    }
}

/// What `command` leaves for the command loop to do.
pub open spec fn action_of(command: CommandType) -> Action {
    match command {
        CommandType::C4i => Action::Identify,
        CommandType::Isready => Action::Ready,
        CommandType::Exit => Action::Quit,
        CommandType::GoInfinite => Action::Search(None),
        CommandType::GoTime(micros) => Action::Search(Some(micros)),
        CommandType::Stop => Action::Stop,
        CommandType::Startpos => Action::Nothing,
        CommandType::SetOption(_) => Action::Nothing,
        CommandType::CustomPosition(_, _) => Action::Nothing,
    }
}

/// Applies `command` to the position and tells what is left to do.
pub fn apply(board: &mut Board, command: CommandType) -> (action: Action)
    ensures
        *final(board) == applied_board(*old(board), command),
        action == action_of(command),
{
    match command {
        CommandType::C4i => Action::Identify,
        CommandType::Isready => Action::Ready,
        CommandType::Exit => Action::Quit,
        CommandType::GoInfinite => Action::Search(None),
        CommandType::GoTime(micros) => Action::Search(Some(micros)),
        CommandType::Stop => Action::Stop,
        CommandType::Startpos => {
            *board = Board::default();
            Action::Nothing
        },
        CommandType::SetOption(option) => {
            match option {
                EngineOption::Turn(player) => {
                    board.turn = player;
                },
            }
            Action::Nothing
        },
        CommandType::CustomPosition(red, yellow) => {
            board.red = red;
            board.yellow = yellow;
            Action::Nothing
        },
    }
}

/// Whether a search stops at a checkpoint: the time is up, or a stop was
/// asked for. A search without a time limit stops when asked to.
pub fn must_stop(elapsed_micros: u128, limit_micros: Option<u64>, stop_requested: bool) -> (r:
    bool)
    ensures
        r == (stop_requested || match limit_micros {
            Some(limit) => elapsed_micros > limit,
            None => false,
        }),
{
    stop_requested || match limit_micros {
        Some(limit) => elapsed_micros > limit as u128,
        None => false,
    }
}

} // verus!
