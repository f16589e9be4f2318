//! The tally of a match between two engines.

use crate::player::Player;
use vstd::prelude::*;

verus! {

#[derive(Clone, Copy, Debug, PartialEq, Eq)]
pub struct Session {
    games_played: usize,
    /// Results ordered by (p1 wins, draws, p2 wins)
    results: (usize, usize, usize),
}

impl Session {
    /// The number of games played.
    pub closed spec fn games(self) -> nat {
        self.games_played as nat
    }

    /// The wins of the first player, the draws, and the wins of the second.
    pub closed spec fn tally(self) -> (nat, nat, nat) {
        (self.results.0 as nat, self.results.1 as nat, self.results.2 as nat)
    }

    /// The session of one game that `winner` won, seen from the player who
    /// had the side `first`: a win for the first player where the winner
    /// had that side, a draw where nobody won.
    pub fn of_game(winner: Option<Player>, first: Player) -> (r: Session)
        ensures
            r.games() == 1,
            r.tally() == match winner {
                Some(colour) => if colour == first {
                    (1nat, 0nat, 0nat)
                } else {
                    (0nat, 0nat, 1nat)
                },
                None => (0nat, 1nat, 0nat),
            },
    {
        let results = match winner {
            Some(colour) => {
                if colour == first {
                    (1, 0, 0)
                } else {
                    (0, 0, 1)
                }
            },
            None => (0, 1, 0),
        };
        Session { games_played: 1, results }
    }

    pub fn games_played(&self) -> (r: usize)
        ensures
            r == self.games(),
    {
        self.games_played
    }

    pub fn results(&self) -> (r: (usize, usize, usize))
        ensures
            (r.0 as nat, r.1 as nat, r.2 as nat) == self.tally(),
    {
        self.results
    }
}

impl Default for Session {
    fn default() -> (r: Session)
        ensures
            r.games() == 0,
            r.tally() == (0nat, 0nat, 0nat),
    {
        Session { games_played: 0, results: (0, 0, 0) }
    }
}

impl std::ops::Add for Session {
    type Output = Session;

    fn add(self, rhs: Session) -> (r: Session) {
        Session {
            games_played: self.games_played + rhs.games_played,
            results: (
                self.results.0 + rhs.results.0,
                self.results.1 + rhs.results.1,
                self.results.2 + rhs.results.2,
            ),
        }
    }
}

impl vstd::std_specs::ops::AddSpecImpl for Session {
    open spec fn obeys_add_spec() -> bool {
        true
    }

    open spec fn add_req(self, rhs: Session) -> bool {
        &&& self.games() + rhs.games() <= usize::MAX
        &&& self.tally().0 + rhs.tally().0 <= usize::MAX
        &&& self.tally().1 + rhs.tally().1 <= usize::MAX
        &&& self.tally().2 + rhs.tally().2 <= usize::MAX
    }

    open spec fn add_spec(self, rhs: Session) -> Session {
        self.sum(rhs)
    }
}

impl Session {
    /// The two sessions taken together.
    pub closed spec fn sum(self, rhs: Session) -> Session {
        Session {
            games_played: (self.games_played + rhs.games_played) as usize,
            results: (
                (self.results.0 + rhs.results.0) as usize,
                (self.results.1 + rhs.results.1) as usize,
                (self.results.2 + rhs.results.2) as usize,
            ),
        }
    }
}

/// The sum of two sessions counts the games and the results of both.
pub proof fn lemma_sum(a: Session, b: Session)
    requires
        a.games() + b.games() <= usize::MAX,
        a.tally().0 + b.tally().0 <= usize::MAX,
        a.tally().1 + b.tally().1 <= usize::MAX,
        a.tally().2 + b.tally().2 <= usize::MAX,
    ensures
        a.sum(b).games() == a.games() + b.games(),
        a.sum(b).tally() == (
            a.tally().0 + b.tally().0,
            a.tally().1 + b.tally().1,
            a.tally().2 + b.tally().2,
        ),
{
}

} // verus!
