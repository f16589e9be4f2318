//! A tally of wins and losses.

use crate::outcome::Outcome;
use vstd::prelude::*;

verus! {

#[derive(Clone, Copy, Debug)]
pub struct Score {
    wins: usize,
    losses: usize,
}

impl Score {
    /// The tally as the pair of wins and losses.
    pub closed spec fn tally(self) -> (nat, nat) {
        (self.wins as nat, self.losses as nat)
    }

    /// The score with wins and losses swapped.
    pub closed spec fn inverted(self) -> Score {
        Score { wins: self.losses, losses: self.wins }
    }

    /// Counts one more game. A draw changes neither count.
    pub fn update(&mut self, outcome: &Outcome)
        requires
            *outcome == Outcome::Won ==> old(self).tally().0 < usize::MAX,
            *outcome == Outcome::Lost ==> old(self).tally().1 < usize::MAX,
        ensures
            final(self).tally() == match *outcome {
                Outcome::Won => (old(self).tally().0 + 1, old(self).tally().1),
                Outcome::Lost => (old(self).tally().0, old(self).tally().1 + 1),
                Outcome::Drawn => old(self).tally(),
            },
    {
        match outcome {
            Outcome::Won => {
                self.wins += 1;
            },
            Outcome::Lost => {
                self.losses += 1;
            },
            Outcome::Drawn => {},
        }
    }

    pub fn wins(&self) -> (r: usize)
        ensures
            r == self.tally().0,
    {
        self.wins
    }

    pub fn losses(&self) -> (r: usize)
        ensures
            r == self.tally().1,
    {
        self.losses
    }

    /// Swaps wins and losses: the tally as the other side sees it.
    pub fn invert(&mut self)
        ensures
            final(self).tally() == (old(self).tally().1, old(self).tally().0),
    {
        let wins = self.wins;
        self.wins = self.losses;
        self.losses = wins;
    }
}

impl Default for Score {
    fn default() -> (r: Score)
        ensures
            r.tally() == (0nat, 0nat),
    {
        Score { wins: 0, losses: 0 }
    }
}

impl std::ops::Neg for Score {
    type Output = Score;

    fn neg(self) -> (r: Score) {
        Score { wins: self.losses, losses: self.wins }
    }
}

impl vstd::std_specs::ops::NegSpecImpl for Score {
    open spec fn obeys_neg_spec() -> bool {
        true
    }

    open spec fn neg_req(self) -> bool {
        true
    }

    open spec fn neg_spec(self) -> Score {
        self.inverted()
    }
}

/// The inverted score has wins and losses swapped.
pub proof fn lemma_inverted(s: Score)
    ensures
        s.inverted().tally() == (s.tally().1, s.tally().0),
{
}

} // verus!
