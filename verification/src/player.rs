//! The two sides of a game.

use vstd::prelude::*;

verus! {

#[derive(Clone, Copy, Debug, PartialEq, Eq, Structural)]
pub enum Player {
    Yellow,
    Red,
}

impl Player {
    /// The other side.
    pub open spec fn other(self) -> Player {
        match self {
            Player::Red => Player::Yellow,
            Player::Yellow => Player::Red,
        }
    }
}

impl Default for Player {
    /// Yellow moves first.
    fn default() -> (r: Player)
        ensures
            r == Player::Yellow,
    {
        Player::Yellow
    }
}

impl std::ops::Not for Player {
    type Output = Player;

    fn not(self) -> (r: Player) {
        match self {
            Player::Red => Player::Yellow,
            Player::Yellow => Player::Red,
        }
    }
}

impl vstd::std_specs::ops::NotSpecImpl for Player {
    open spec fn obeys_not_spec() -> bool {
        true
    }

    open spec fn not_req(self) -> bool {
        true
    }

    open spec fn not_spec(self) -> Player {
        self.other()
    }
}

/// Changing sides twice gives the side one started with.
pub proof fn lemma_other_twice(p: Player)
    ensures
        p.other().other() == p,
        p.other() != p,
{
}

} // verus!
