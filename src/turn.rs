//! One player's turn: roll the remaining dice, then lock in a scoring selection.
use crate::dice::{Dice, DiceTrait, RollResult};
use crate::retain_indexed::{count_kept, kept, lemma_kept_len, RetainIndexed};
use crate::scoring::{
    MAX_SCORED_DICE, face_count, get_score, has_combination, is_scoring, leftover_count, leftover_of, score_of,
};
use vstd::prelude::*;

verus! {

/// The dice of `roll` at the positions `indexes`, in the order of `indexes`.
pub open spec fn selected(roll: Seq<RollResult>, indexes: Seq<usize>) -> Seq<RollResult> {
    indexes.map_values(|i: usize| roll[i as int])
}

/// Every index points into a roll of `n` dice, and none repeats.
pub open spec fn valid_indexes(indexes: Seq<usize>, n: nat) -> bool {
    &&& forall|k: int| 0 <= k < indexes.len() ==> #[trigger] indexes[k] < n
    &&& indexes.no_duplicates()
}

/// For each of `n` positions, whether it is not among `indexes`.
pub open spec fn unselected_mask(indexes: Seq<usize>, n: nat) -> Seq<bool> {
    Seq::new(n, |i: int| !indexes.contains(i as usize))
}

/// The sum of the points in `s`.
pub open spec fn sum_of(s: Seq<u32>) -> nat
    decreases s.len(),
{
    if s.len() == 0 {
        0
    } else {
        sum_of(s.drop_last()) + s.last() as nat
    }
}

/// What locking in the dice at `indexes` of the pending roll returns: an
/// error without a roll, for an index out of range or repeated, or for a
/// selection that leaves dice over (with those dice); else its points.
pub open spec fn use_dice_outcome(
    pending: Option<Seq<RollResult>>,
    indexes: Seq<usize>,
    r: Result<u32, UseDiceError>,
) -> bool {
    match pending {
        None => r == Err::<u32, UseDiceError>(UseDiceError::InvalidState),
        Some(roll) => {
            let sel = selected(roll, indexes);
            if !valid_indexes(indexes, roll.len()) {
                r == Err::<u32, UseDiceError>(UseDiceError::WrongDiceIndexes)
            } else if !is_scoring(sel) {
                &&& r matches Err(UseDiceError::InvalidDiceCombination(l))
                &&& r->Err_0->InvalidDiceCombination_0@ == leftover_of(sel)
            } else {
                r == Ok::<u32, UseDiceError>(score_of(sel) as u32)
            }
        },
    }
}

/// Whether the turn waits for a roll or has a roll to select dice from.
#[derive(Debug, Clone)]
pub enum TurnState {
    WaitForRoll,
    RollResult(Vec<RollResult>),
}

/// The turn of one player: the dice not locked in yet, the points of each
/// selection locked in so far, and whether a roll is pending.
#[derive(Debug, Clone)]
pub struct Turn<D> {
    dice: Vec<Dice<D>>,
    player_index: usize,
    actions_score: Vec<u32>,
    turn_state: TurnState,
}

/// Why a roll was refused: a roll is already pending.
#[derive(Debug, Clone, Copy, PartialEq, Eq, Structural)]
pub enum RollError {
    InvalidState,
}

/// Why a selection was refused: no roll pending, an index out of range or
/// repeated, or dice that no combination takes up (carried along).
#[derive(Debug, Clone, PartialEq, Eq)]
pub enum UseDiceError {
    InvalidState,
    WrongDiceIndexes,
    InvalidDiceCombination(Vec<RollResult>),
}

proof fn lemma_sum_push(s: Seq<u32>, x: u32)
    ensures
        sum_of(s.push(x)) == sum_of(s) + x,
{
    assert(s.push(x).drop_last() =~= s);
}

proof fn lemma_sum_take(s: Seq<u32>, k: int)
    requires
        0 <= k < s.len(),
    ensures
        sum_of(s.take(k + 1)) == sum_of(s.take(k)) + s[k],
{
    assert(s.take(k + 1).drop_last() =~= s.take(k));
}

proof fn lemma_sum_prefix(s: Seq<u32>, k: int)
    requires
        0 <= k <= s.len(),
    ensures
        sum_of(s.take(k)) <= sum_of(s),
    decreases s.len() - k,
{
    if k < s.len() {
        lemma_sum_take(s, k);
        lemma_sum_prefix(s, k + 1);
    } else {
        assert(s.take(k) =~= s);
    }
}

proof fn lemma_count_kept_le(m: Seq<bool>)
    ensures
        count_kept(m) <= m.len(),
    decreases m.len(),
{
    if m.len() > 0 {
        lemma_count_kept_le(m.drop_last());
    }
}

proof fn lemma_count_kept_set(m: Seq<bool>, i: int)
    requires
        0 <= i < m.len(),
        !m[i],
    ensures
        count_kept(m.update(i, true)) == count_kept(m) + 1,
    decreases m.len(),
{
    let u = m.update(i, true);
    if i == m.len() - 1 {
        assert(u.drop_last() =~= m.drop_last());
    } else {
        assert(u.drop_last() =~= m.drop_last().update(i, true));
        lemma_count_kept_set(m.drop_last(), i);
    }
}

proof fn lemma_count_kept_all_false(m: Seq<bool>)
    requires
        forall|i: int| 0 <= i < m.len() ==> !#[trigger] m[i],
    ensures
        count_kept(m) == 0,
    decreases m.len(),
{
    if m.len() > 0 {
        lemma_count_kept_all_false(m.drop_last());
    }
}

proof fn lemma_count_kept_negated(m: Seq<bool>, k: Seq<bool>)
    requires
        m.len() == k.len(),
        forall|i: int| 0 <= i < m.len() ==> #[trigger] k[i] == !m[i],
    ensures
        count_kept(k) == m.len() - count_kept(m),
    decreases m.len(),
{
    if m.len() > 0 {
        lemma_count_kept_negated(m.drop_last(), k.drop_last());
    }
}

impl<D: DiceTrait> Turn<D> {
    /// The dice not locked in yet.
    pub closed spec fn dice_left(&self) -> Seq<Dice<D>> {
        self.dice@
    }

    pub closed spec fn player(&self) -> nat {
        self.player_index as nat
    }

    /// The points of each selection locked in this turn, in order.
    pub closed spec fn ledger(&self) -> Seq<u32> {
        self.actions_score@
    }

    /// The roll to select dice from, if the turn has one.
    pub closed spec fn pending(&self) -> Option<Seq<RollResult>> {
        match self.turn_state {
            TurnState::WaitForRoll => None,
            TurnState::RollResult(v) => Some(v@),
        }
    }

    pub closed spec fn wf(&self) -> bool {
        &&& self.dice@.len() <= MAX_SCORED_DICE
        &&& sum_of(self.actions_score@) <= 400 * (MAX_SCORED_DICE - self.dice@.len())
        &&& (self.turn_state matches TurnState::RollResult(v) ==> v@.len() == self.dice@.len())
    }

    /// A turn of the player at `player_index` with these dice, waiting for a
    /// roll. The number of dice is bounded only so that the turn's points fit
    /// in a `u32`.
    pub fn new(dice: Vec<Dice<D>>, player_index: usize) -> (r: Self)
        requires
            dice@.len() <= MAX_SCORED_DICE,
        ensures
            r.wf(),
            r.dice_left() == dice@,
            r.player() == player_index,
            r.ledger() == Seq::<u32>::empty(),
            r.pending() is None,
    {
        Turn { dice, player_index, actions_score: Vec::new(), turn_state: TurnState::WaitForRoll }
    }

    /// The points locked in this turn so far.
    pub fn total_score(&self) -> (r: u32)
        requires
            self.wf(),
        ensures
            r == sum_of(self.ledger()),
    {
        let mut total: u32 = 0;
        let mut k: usize = 0;
        while k < self.actions_score.len()
            invariant
                self.wf(),
                k <= self.actions_score@.len(),
                total == sum_of(self.actions_score@.take(k as int)),
            decreases self.actions_score@.len() - k,
        {
            proof {
                lemma_sum_take(self.actions_score@, k as int);
                lemma_sum_prefix(self.actions_score@, k + 1);
            }
            total = total + self.actions_score[k];
            k = k + 1;
        }
        assert(self.actions_score@.take(k as int) =~= self.actions_score@);
        total
    }

    pub fn player_index(&self) -> (r: usize)
        ensures
            r == self.player(),
    {
        self.player_index
    }

    pub fn is_waiting_for_roll(&self) -> (r: bool)
        ensures
            r == self.pending() is None,
    {
        match self.turn_state {
            TurnState::WaitForRoll => true,
            TurnState::RollResult(_) => false,
        }
    }

    /// Rolls every die left; only while waiting for a roll.
    pub fn roll(&mut self) -> (r: Result<Vec<RollResult>, RollError>)
        requires
            old(self).wf(),
        ensures
            final(self).wf(),
            final(self).dice_left() == old(self).dice_left(),
            final(self).player() == old(self).player(),
            final(self).ledger() == old(self).ledger(),
            old(self).pending() is Some ==> r == Err::<Vec<RollResult>, RollError>(
                RollError::InvalidState,
            ) && final(self).pending() == old(self).pending(),
            old(self).pending() is None ==> r is Ok && final(self).pending() == Some(r->Ok_0@)
                && r->Ok_0@.len() == old(self).dice_left().len(),
    {
        if !self.is_waiting_for_roll() {
            return Err(RollError::InvalidState);
        }
        let mut roll_result: Vec<RollResult> = Vec::new();
        let mut i: usize = 0;
        while i < self.dice.len()
            invariant
                i <= self.dice@.len(),
                roll_result@.len() == i,
            decreases self.dice@.len() - i,
        {
            roll_result.push(self.dice[i].roll());
            i = i + 1;
        }
        self.turn_state = TurnState::RollResult(roll_result.clone());
        Ok(roll_result)
    }

    /// The roll to select dice from, if there is one.
    pub fn get_last_roll_result(&self) -> (r: Option<Vec<RollResult>>)
        ensures
            r is Some <==> self.pending() is Some,
            r is Some ==> r->Some_0@ == self.pending()->Some_0,
    {
        match &self.turn_state {
            TurnState::RollResult(roll_result) => Some(roll_result.clone()),
            TurnState::WaitForRoll => None,
        }
    }

    /// Whether some die of the pending roll belongs to a combination.
    pub fn has_any_combination(&self) -> (r: bool)
        requires
            self.wf(),
        ensures
            r == (self.pending() is Some && has_combination(self.pending()->Some_0)),
    {
        let state = match &self.turn_state {
            TurnState::RollResult(roll_result) => roll_result,
            TurnState::WaitForRoll => {
                return false;
            },
        };
        match get_score(state.clone()) {
            Ok(_) => {
                proof {
                    let s = state@;
                    assert(face_count(s, s.last()@) > 0) by {
                        assert(s.drop_last().push(s.last()) =~= s);
                    }
                    assert(leftover_count(s, s.last()@) == 0);
                }
                true
            },
            Err(rest) => rest.len() != state.len(),
        }
    }

    /// Locks in the dice at `dice_indexes` of the pending roll, which must
    /// form combinations with no die left over, and returns their points.
    pub fn use_dice(&mut self, dice_indexes: Vec<usize>) -> (r: Result<u32, UseDiceError>)
        requires
            old(self).wf(),
        ensures
            final(self).wf(),
            final(self).player() == old(self).player(),
            use_dice_outcome(old(self).pending(), dice_indexes@, r),
            r is Err ==> final(self).dice_left() == old(self).dice_left() && final(self).ledger()
                == old(self).ledger() && final(self).pending() == old(self).pending(),
            r is Ok ==> final(self).pending() is None && final(self).ledger() == old(self).ledger().push(
                r->Ok_0,
            ) && final(self).dice_left() == kept(
                old(self).dice_left(),
                unselected_mask(dice_indexes@, old(self).dice_left().len()),
            ) && final(self).dice_left().len() == old(self).dice_left().len()
                - dice_indexes@.len(),
            r is Ok ==> final(self).dice_left().len() < old(self).dice_left().len(),
    {
        let state = match &self.turn_state {
            TurnState::RollResult(roll_result) => roll_result,
            TurnState::WaitForRoll => {
                return Err(UseDiceError::InvalidState);
            },
        };
        let ghost roll = state@;
        let ghost idx = dice_indexes@;
        let n = state.len();
        let mut mask: Vec<bool> = Vec::new();
        while mask.len() < n
            invariant
                mask@.len() <= n,
                forall|i: int| 0 <= i < mask@.len() ==> !#[trigger] mask@[i],
            decreases n - mask@.len(),
        {
            mask.push(false);
        }
        proof {
            assert(count_kept(mask@) == 0) by {
                lemma_count_kept_all_false(mask@);
            }
            assert(idx.take(0) =~= Seq::<usize>::empty());
        }
        let mut used: Vec<RollResult> = Vec::new();
        let mut j: usize = 0;
        while j < dice_indexes.len()
            invariant
                self.wf(),
                *self == *old(self),
                self.pending() == Some(roll),
                n == roll.len(),
                roll == state@,
                idx == dice_indexes@,
                mask@.len() == n,
                j <= idx.len(),
                forall|k: int| 0 <= k < j ==> #[trigger] idx[k] < n,
                idx.take(j as int).no_duplicates(),
                forall|i: int| 0 <= i < n ==> #[trigger] mask@[i] == idx.take(j as int).contains(i as usize),
                count_kept(mask@) == j,
                used@ == selected(roll, idx.take(j as int)),
            decreases idx.len() - j,
        {
            let index = dice_indexes[j];
            if index >= n || mask[index] {
                proof {
                    if index < n {
                        assert(idx.take(j as int).contains(index));
                        let k = choose|k: int| 0 <= k < j && idx.take(j as int)[k] == index;
                        assert(idx[k] == idx[j as int]);
                    }
                }
                return Err(UseDiceError::WrongDiceIndexes);
            }
            proof {
                lemma_count_kept_set(mask@, index as int);
                let t = idx.take(j as int);
                let t2 = idx.take(j + 1);
                assert(t2 =~= t.push(index));
                assert forall|a: int, b: int| 0 <= a < t2.len() && 0 <= b < t2.len() && a != b
                    implies t2[a] != t2[b] by {
                    if a == j {
                        assert(t[b] == t2[b]);
                    } else if b == j {
                        assert(t[a] == t2[a]);
                    }
                }
                assert forall|i: int| 0 <= i < n implies #[trigger] mask@.update(index as int, true)[i]
                    == t2.contains(i as usize) by {
                    if i == index {
                        assert(t2[j as int] == index);
                    } else {
                        assert(mask@[i] == t.contains(i as usize));
                    }
                    if t.contains(i as usize) {
                        let k = choose|k: int| 0 <= k < t.len() && t[k] == i as usize;
                        assert(t2[k] == i as usize);
                    }
                    if t2.contains(i as usize) && i != index {
                        let k = choose|k: int| 0 <= k < t2.len() && t2[k] == i as usize;
                        assert(t[k] == i as usize);
                    }
                }
                assert(selected(roll, t2) =~= selected(roll, t).push(roll[index as int]));
            }
            mask.set(index, true);
            used.push(state[index]);
            j = j + 1;
        }
        proof {
            assert(idx.take(j as int) =~= idx);
            lemma_count_kept_le(mask@);
        }
        let score = match get_score(used) {
            Ok(score) => score,
            Err(unused) => {
                return Err(UseDiceError::InvalidDiceCombination(unused));
            },
        };
        let ghost old_dice = self.dice@;
        let ghost m = mask@;
        let keep_die = move |i: usize, _die: &Dice<D>| -> (b: bool)
            ensures
                i < mask@.len() ==> b == !mask@[i as int],
            {
                if i < mask.len() {
                    !mask[i]
                } else {
                    true
                }
            };
        self.dice.retain_indexed(keep_die);
        proof {
            let keep = choose|keep: Seq<bool>|
                {
                    &&& keep.len() == old_dice.len()
                    &&& forall|i: int|
                        0 <= i < keep.len() ==> #[trigger] keep_die.ensures(
                            (i as usize, &old_dice[i]),
                            keep[i],
                        )
                    &&& self.dice@ == kept(old_dice, keep)
                };
            assert(keep =~= unselected_mask(idx, n as nat)) by {
                assert forall|i: int| 0 <= i < n implies keep[i] == !m[i] by {
                    assert(keep_die.ensures((i as usize, &old_dice[i]), keep[i]));
                }
            }
            lemma_kept_len(old_dice, keep);
            lemma_count_kept_negated(m, keep);
            lemma_sum_push(self.actions_score@, score);
        }
        self.turn_state = TurnState::WaitForRoll;
        self.actions_score.push(score);
        Ok(score)
    }

    pub fn is_finished(&self) -> (r: bool)
        ensures
            r == (self.dice_left().len() == 0),
    {
        self.dice.len() == 0
    }
}

impl<D: DiceTrait + Clone> Turn<D> {
    /// A copy of the turn to try a move on; the dice are copies too.
    pub(crate) fn snapshot(&self) -> (r: Self)
        requires
            self.wf(),
        ensures
            r.wf(),
            r.player() == self.player(),
            r.ledger() == self.ledger(),
            r.pending() == self.pending(),
            r.dice_left().len() == self.dice_left().len(),
    {
        let turn_state = match &self.turn_state {
            TurnState::WaitForRoll => TurnState::WaitForRoll,
            TurnState::RollResult(v) => TurnState::RollResult(v.clone()),
        };
        Turn {
            dice: self.dice.clone(),
            player_index: self.player_index,
            actions_score: self.actions_score.clone(),
            turn_state,
        }
    }
}

} // verus!
