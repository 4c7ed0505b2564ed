//! A game: a fixed list of players taking turns in round-robin order.
use crate::dice::{DiceTrait, RollResult};
use crate::player::{Player, DICE_PER_PLAYER};
use crate::retain_indexed::kept;
use crate::turn::{
    sum_of, unselected_mask, use_dice_outcome, RollError, Turn, UseDiceError,
};
use vstd::prelude::*;

verus! {

/// The fewest players a game can have.
pub const MIN_PLAYERS: usize = 2;

/// `base + points`, or the largest `u32` where that does not fit.
pub open spec fn credited(base: u32, points: nat) -> u32 {
    if base + points <= u32::MAX {
        (base + points) as u32
    } else {
        u32::MAX
    }
}

/// The players, in turn order, and the turn in play.
pub struct FarkleGame<D> {
    players: Vec<Player<D>>,
    turn: Turn<D>,
}

/// Why a game could not be set up: fewer than two players (how many there were).
#[derive(Debug, Clone, Copy, PartialEq, Eq, Structural)]
pub enum ZonkCreationError {
    NotEnoughPlayers(usize),
}

impl<D: DiceTrait + Clone> FarkleGame<D> {
    pub closed spec fn roster(&self) -> Seq<Player<D>> {
        self.players@
    }

    /// The turn in play.
    pub closed spec fn turn(&self) -> Turn<D> {
        self.turn
    }

    pub closed spec fn wf(&self) -> bool {
        &&& self.players@.len() >= MIN_PLAYERS
        &&& self.turn.wf()
        &&& self.turn.player() < self.players@.len()
    }

    /// A well-formed game has at least two players, and the player whose turn
    /// it is is one of them; so the next player is another one.
    pub proof fn lemma_wf_players(&self)
        requires
            self.wf(),
        ensures
            self.roster().len() >= MIN_PLAYERS,
            self.current() < self.roster().len(),
            self.next_index() < self.roster().len(),
            self.next_index() != self.current(),
    {
        let c = self.current() as int;
        let n = self.roster().len() as int;
        if c + 1 < n {
            assert((c + 1) % n == c + 1) by (nonlinear_arith)
                requires
                    0 <= c + 1 < n,
            ;
        } else {
            assert((c + 1) % n == 0) by (nonlinear_arith)
                requires
                    c + 1 == n,
                    n >= 2,
            ;
        }
    }

    /// The position of the player whose turn it is.
    pub open spec fn current(&self) -> nat {
        self.turn().player()
    }

    /// The position of the player who plays after the current one.
    pub open spec fn next_index(&self) -> nat {
        (self.current() + 1) % self.roster().len()
    }

    /// The current player banks `points`, and the next player gets a new turn.
    pub open spec fn turn_passed(&self, after: &Self, points: nat) -> bool {
        let cur = self.current() as int;
        let p = after.roster()[cur];
        let q = self.roster()[cur];
        &&& after.roster().len() == self.roster().len()
        &&& forall|i: int|
            0 <= i < self.roster().len() && i != cur ==> #[trigger] after.roster()[i]
                == self.roster()[i]
        &&& p.points() == credited(q.points(), points)
        &&& p.name() == q.name()
        &&& p.dice_held() == q.dice_held()
        &&& after.current() == self.next_index()
        &&& after.turn().pending() is None
        &&& after.turn().ledger() == Seq::<u32>::empty()
        &&& after.turn().dice_left().len() == DICE_PER_PLAYER
    }

    /// When a turn passes on, the player who had it gains exactly the points
    /// credited for the turn (as long as the total fits in a `u32`), and no
    /// other player's total changes.
    pub proof fn lemma_turn_end_credits_exactly(&self, after: &Self, points: nat)
        requires
            self.wf(),
            self.turn_passed(after, points),
            self.roster()[self.current() as int].points() + points <= u32::MAX,
        ensures
            after.roster()[self.current() as int].points() == self.roster()[self.current() as int].points()
                + points,
            forall|i: int|
                0 <= i < self.roster().len() && i != self.current() ==> #[trigger] after.roster()[i].points()
                    == self.roster()[i].points(),
    {
        assert forall|i: int|
            0 <= i < self.roster().len() && i != self.current() implies #[trigger] after.roster()[i].points()
                == self.roster()[i].points() by {
            assert(after.roster()[i] == self.roster()[i]);
        }
    }

    /// A game of at least two players; the first of them starts.
    pub fn new(players: Vec<Player<D>>) -> (r: Result<Self, ZonkCreationError>)
        ensures
            r is Err <==> players@.len() < MIN_PLAYERS,
            r is Err ==> r == Err::<Self, ZonkCreationError>(
                ZonkCreationError::NotEnoughPlayers(players@.len() as usize),
            ),
            r is Ok ==> {
                let g = r->Ok_0;
                &&& g.wf()
                &&& g.roster() == players@
                &&& g.current() == 0
                &&& g.turn().pending() is None
                &&& g.turn().ledger() == Seq::<u32>::empty()
                &&& g.turn().dice_left().len() == DICE_PER_PLAYER
            },
    {
        if players.len() < MIN_PLAYERS {
            return Err(ZonkCreationError::NotEnoughPlayers(players.len()));
        }
        let turn = Turn::new(players[0].dice(), 0);
        Ok(FarkleGame { turn, players })
    }

    pub fn get_players(&self) -> (r: &[Player<D>])
        ensures
            r@ == self.roster(),
    {
        self.players.as_slice()
    }

    pub fn get_current_player(&self) -> (r: &Player<D>)
        requires
            self.wf(),
        ensures
            *r == self.roster()[self.current() as int],
    {
        &self.players[self.turn.player_index()]
    }

    fn get_next_player_index(&self) -> (r: usize)
        requires
            self.wf(),
        ensures
            r == self.next_index(),
    {
        let i = self.turn.player_index();
        let n = self.players.len();
        (i + 1) % n
    }

    pub fn get_next_player(&self) -> (r: &Player<D>)
        requires
            self.wf(),
        ensures
            *r == self.roster()[self.next_index() as int],
    {
        &self.players[self.get_next_player_index()]
    }

    pub fn get_last_roll_result(&self) -> (r: Option<Vec<RollResult>>)
        ensures
            r is Some <==> self.turn().pending() is Some,
            r is Some ==> r->Some_0@ == self.turn().pending()->Some_0,
    {
        self.turn.get_last_roll_result()
    }

    /// Rolls the current player's remaining dice.
    pub fn roll(&mut self) -> (r: Result<Vec<RollResult>, RollError>)
        requires
            old(self).wf(),
        ensures
            final(self).wf(),
            final(self).roster() == old(self).roster(),
            final(self).current() == old(self).current(),
            final(self).turn().dice_left() == old(self).turn().dice_left(),
            final(self).turn().ledger() == old(self).turn().ledger(),
            old(self).turn().pending() is Some ==> r == Err::<Vec<RollResult>, RollError>(
                RollError::InvalidState,
            ) && final(self).turn().pending() == old(self).turn().pending(),
            old(self).turn().pending() is None ==> r is Ok && final(self).turn().pending() == Some(
                r->Ok_0@,
            ) && r->Ok_0@.len() == old(self).turn().dice_left().len(),
    {
        self.turn.roll()
    }

    /// Ends the turn: the current player banks the points locked in this turn,
    /// and the next player gets a new turn. A pending roll that was not used
    /// adds nothing.
    pub fn next_turn(&mut self)
        requires
            old(self).wf(),
        ensures
            final(self).wf(),
            old(self).turn_passed(final(self), sum_of(old(self).turn().ledger())),
    {
        let points = self.turn.total_score();
        self.credit_current(points);
        self.pass_turn();
    }

    /// Adds `points` to the current player's total.
    fn credit_current(&mut self, points: u32)
        requires
            old(self).wf(),
        ensures
            final(self).wf(),
            final(self).turn() == old(self).turn(),
            final(self).roster().len() == old(self).roster().len(),
            forall|i: int|
                0 <= i < old(self).roster().len() && i != old(self).current()
                    ==> #[trigger] final(self).roster()[i] == old(self).roster()[i],
            ({
                let cur = old(self).current() as int;
                let p = final(self).roster()[cur];
                let q = old(self).roster()[cur];
                &&& p.points() == credited(q.points(), points as nat)
                &&& p.name() == q.name()
                &&& p.dice_held() == q.dice_held()
            }),
    {
        let index = self.turn.player_index();
        let mut player = self.players.remove(index);
        player.add_points(points);
        self.players.insert(index, player);
        proof {
            assert forall|i: int|
                0 <= i < old(self).roster().len() && i != index implies #[trigger] self.players@[i]
                == old(self).players@[i] by {
                if i < index {
                    assert(self.players@[i] == old(self).players@.remove(index as int)[i]);
                } else {
                    assert(self.players@[i] == old(self).players@.remove(index as int)[i - 1]);
                }
            }
        }
    }

    /// Starts a fresh turn for the next player.
    fn pass_turn(&mut self)
        requires
            old(self).wf(),
        ensures
            final(self).wf(),
            final(self).roster() == old(self).roster(),
            final(self).current() == old(self).next_index(),
            final(self).turn().pending() is None,
            final(self).turn().ledger() == Seq::<u32>::empty(),
            final(self).turn().dice_left().len() == DICE_PER_PLAYER,
    {
        let next = self.get_next_player_index();
        self.turn = Turn::new(self.players[next].dice(), next);
    }

    pub fn is_waiting_for_roll(&self) -> (r: bool)
        ensures
            r == self.turn().pending() is None,
    {
        self.turn.is_waiting_for_roll()
    }

    /// Locks in dice of the pending roll. When no die is left the current
    /// player banks the turn's points and the turn passes on.
    pub fn use_dice(&mut self, dice_indexes: Vec<usize>) -> (r: Result<u32, UseDiceError>)
        requires
            old(self).wf(),
        ensures
            final(self).wf(),
            use_dice_outcome(old(self).turn().pending(), dice_indexes@, r),
            r is Err ==> final(self).roster() == old(self).roster() && final(self).turn().dice_left()
                == old(self).turn().dice_left() && final(self).turn().ledger()
                == old(self).turn().ledger() && final(self).turn().pending() == old(self).turn().pending()
                && final(self).current() == old(self).current(),
            ({
                let n = old(self).turn().dice_left().len();
                r is Ok && n > dice_indexes@.len() ==> {
                    &&& final(self).roster() == old(self).roster()
                    &&& final(self).current() == old(self).current()
                    &&& final(self).turn().pending() is None
                    &&& final(self).turn().ledger() == old(self).turn().ledger().push(r->Ok_0)
                    &&& final(self).turn().dice_left() == kept(
                        old(self).turn().dice_left(),
                        unselected_mask(dice_indexes@, n),
                    )
                }
            }),
            r is Ok && old(self).turn().dice_left().len() == dice_indexes@.len()
                ==> old(self).turn_passed(final(self), sum_of(old(self).turn().ledger().push(r->Ok_0))),
    {
        let score = self.turn.use_dice(dice_indexes);
        match score {
            Ok(score) => {
                if self.turn.is_finished() {
                    let points = self.turn.total_score();
                    self.credit_current(points);
                    self.pass_turn();
                }
                Ok(score)
            },
            Err(e) => Err(e),
        }
    }

    /// What `use_dice` would return, with the game left as it is.
    pub fn try_use_dice(&self, dice_indexes: Vec<usize>) -> (r: Result<u32, UseDiceError>)
        requires
            self.wf(),
        ensures
            use_dice_outcome(self.turn().pending(), dice_indexes@, r),
    {
        let mut turn = self.turn.snapshot();
        turn.use_dice(dice_indexes)
    }
}

} // verus!
