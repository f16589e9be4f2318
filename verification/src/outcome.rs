//! How a game ended, seen from one side.

use vstd::prelude::*;

verus! {

/// The result of a game for the player to move at the point where the
/// result is stated.
#[derive(Clone, Copy, Debug, PartialEq, Eq, Structural)]
pub enum Outcome {
    Won,
    Lost,
    Drawn,
}

impl Outcome {
    /// The same result, seen from the other side.
    pub open spec fn negated(self) -> Outcome {
        match self {
            Outcome::Won => Outcome::Lost,
            Outcome::Lost => Outcome::Won,
            Outcome::Drawn => Outcome::Drawn,
        }
    }

    /// What the result is worth: 1 for a win, -1 for a loss, 0 for a draw.
    pub open spec fn reward_spec(self) -> int {
        match self {
            Outcome::Won => 1,
            Outcome::Drawn => 0,
            Outcome::Lost => -1,
        }
    }

    pub fn reward(&self) -> (r: i64)
        ensures
            r == self.reward_spec(),
    {
        match self {
            Outcome::Won => 1,
            Outcome::Drawn => 0,
            Outcome::Lost => -1,
        }
    }
}

impl std::ops::Neg for Outcome {
    type Output = Outcome;

    fn neg(self) -> (r: Outcome) {
        match self {
            Outcome::Won => Outcome::Lost,
            Outcome::Lost => Outcome::Won,
            Outcome::Drawn => Outcome::Drawn,
        }
    }
}

impl vstd::std_specs::ops::NegSpecImpl for Outcome {
    open spec fn obeys_neg_spec() -> bool {
        true
    }

    open spec fn neg_req(self) -> bool {
        true
    }

    open spec fn neg_spec(self) -> Outcome {
        self.negated()
    }
}

/// What one side wins the other loses: the rewards of a result and of its
/// negation add up to nothing, and negating twice changes nothing.
pub proof fn lemma_negated(o: Outcome)
    ensures
        o.negated().negated() == o,
        o.negated().reward_spec() == -o.reward_spec(),
        (o.negated() == o) <==> o == Outcome::Drawn,
{
}

} // verus!
