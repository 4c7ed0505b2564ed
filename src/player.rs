//! A player: a name, a running total and six dice.
use crate::dice::{Dice, DiceTrait, RollResult};
use vstd::prelude::*;

verus! {

/// How many dice each player holds.
pub const DICE_PER_PLAYER: usize = 6;

/// A player of the game; always holds exactly six dice.
pub struct Player<D> {
    id: String,
    score: u32,
    dice: Vec<Dice<D>>,
}

/// Why a player could not be made: not six dice (how many there were).
#[derive(Debug, Clone, Copy, PartialEq, Eq, Structural)]
pub enum PlayerCreationError {
    InvalidDiceCount(usize),
}

impl<D> Player<D> {
    #[verifier::type_invariant]
    spec fn has_all_dice(self) -> bool {
        self.dice@.len() == DICE_PER_PLAYER
    }
}

impl<D: DiceTrait + Clone> Player<D> {
    pub closed spec fn name(&self) -> Seq<char> {
        self.id@
    }

    /// The points the player has banked in the game.
    pub closed spec fn points(&self) -> u32 {
        self.score
    }

    pub closed spec fn dice_held(&self) -> Seq<Dice<D>> {
        self.dice@
    }

    /// A player with no points; there must be exactly six dice.
    pub fn new(id: &str, dice: Vec<Dice<D>>) -> (r: Result<Self, PlayerCreationError>)
        ensures
            r is Err <==> dice@.len() != DICE_PER_PLAYER,
            r is Err ==> r == Err::<Self, PlayerCreationError>(
                PlayerCreationError::InvalidDiceCount(dice@.len() as usize),
            ),
            r is Ok ==> r->Ok_0.name() == id@ && r->Ok_0.points() == 0 && r->Ok_0.dice_held()
                == dice@,
    {
        if dice.len() != DICE_PER_PLAYER {
            return Err(PlayerCreationError::InvalidDiceCount(dice.len()));
        }
        Ok(Player { id: id.to_owned(), score: 0, dice })
    }

    pub fn id(&self) -> (r: &str)
        ensures
            r@ == self.name(),
    {
        self.id.as_str()
    }

    pub fn score(&self) -> (r: u32)
        ensures
            r == self.points(),
    {
        self.score
    }

    /// Copies of the player's dice.
    pub fn dice(&self) -> (r: Vec<Dice<D>>)
        ensures
            r@.len() == DICE_PER_PLAYER,
            self.dice_held().len() == DICE_PER_PLAYER,
    {
        proof {
            use_type_invariant(self);
        }
        self.dice.clone()
    }

    /// Rolls all six dice.
    pub fn roll(&self) -> (r: Vec<RollResult>)
        ensures
            r@.len() == DICE_PER_PLAYER,
    {
        proof {
            use_type_invariant(self);
        }
        let mut r: Vec<RollResult> = Vec::new();
        let mut i: usize = 0;
        while i < self.dice.len()
            invariant
                i <= self.dice@.len(),
                r@.len() == i,
            decreases self.dice@.len() - i,
        {
            r.push(self.dice[i].roll());
            i = i + 1;
        }
        r
    }

    /// Banks points; the total stops at the largest `u32`.
    pub(crate) fn add_points(&mut self, points: u32)
        ensures
            final(self).points() == if old(self).points() + points <= u32::MAX {
                (old(self).points() + points) as u32
            } else {
                u32::MAX
            },
            final(self).name() == old(self).name(),
            final(self).dice_held() == old(self).dice_held(),
    {
        proof {
            use_type_invariant(&*self);
        }
        self.score = self.score.saturating_add(points);
    }
}

} // verus!
