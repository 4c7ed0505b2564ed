use farkle::{
    Dice, DiceTrait, FarkleGame, Player, PlayerCreationError, RegularDice, RollError,
    RollResult, Turn, UseDiceError, ZonkCreationError,
};

/// A die that always shows the same face.
#[derive(Debug, Clone)]
struct Fixed(u8);

impl DiceTrait for Fixed {
    fn roll(&self) -> RollResult {
        RollResult::new(self.0).unwrap()
    }
}

fn fixed_dice(faces: [u8; 6]) -> Vec<Dice<Fixed>> {
    faces.iter().map(|&f| Dice::new(Fixed(f))).collect()
}

fn player(name: &str, faces: [u8; 6]) -> Player<Fixed> {
    match Player::new(name, fixed_dice(faces)) {
        Ok(p) => p,
        Err(e) => panic!("player not created: {:?}", e),
    }
}

fn game(faces: [u8; 6]) -> FarkleGame<Fixed> {
    match FarkleGame::new(vec![player("Player 1", faces), player("Player 2", faces)]) {
        Ok(g) => g,
        Err(e) => panic!("game not created: {:?}", e),
    }
}

fn values(v: &[RollResult]) -> Vec<u8> {
    v.iter().map(|r| r.value()).collect()
}

#[test]
fn hot_dice_ends_the_turn_and_banks() {
    let mut g = game([1, 1, 1, 5, 5, 5]);
    assert_eq!(g.get_current_player().id(), "Player 1");
    let roll = g.roll().unwrap();
    assert_eq!(values(&roll), vec![1, 1, 1, 5, 5, 5]);
    assert_eq!(g.use_dice(vec![0, 1, 2, 3, 4, 5]), Ok(1500));
    assert_eq!(g.get_players()[0].score(), 1500);
    assert_eq!(g.get_current_player().id(), "Player 2");
    assert_eq!(g.get_next_player().id(), "Player 1");
    assert!(g.is_waiting_for_roll());
}

#[test]
fn invalid_selection_then_triplet() {
    let mut g = game([2, 3, 4, 4, 4, 6]);
    g.roll().unwrap();
    match g.use_dice(vec![0, 1]) {
        Err(UseDiceError::InvalidDiceCombination(l)) => assert_eq!(values(&l), vec![2, 3]),
        other => panic!("unexpected result {:?}", other),
    }
    assert!(!g.is_waiting_for_roll());
    assert_eq!(g.use_dice(vec![2, 3, 4]), Ok(400));
    assert!(g.is_waiting_for_roll());
    let again = g.roll().unwrap();
    assert_eq!(values(&again), vec![2, 3, 6]);
    assert_eq!(g.get_current_player().id(), "Player 1");
}

#[test]
fn roll_twice_is_refused() {
    let mut g = game([1, 2, 3, 4, 5, 6]);
    assert!(g.roll().is_ok());
    assert_eq!(g.roll(), Err(RollError::InvalidState));
    assert!(g.get_last_roll_result().is_some());
}

#[test]
fn use_dice_needs_a_roll_and_valid_indexes() {
    let mut g = game([1, 2, 3, 4, 5, 6]);
    assert_eq!(g.use_dice(vec![0]), Err(UseDiceError::InvalidState));
    assert!(g.get_last_roll_result().is_none());
    g.roll().unwrap();
    assert_eq!(g.use_dice(vec![6]), Err(UseDiceError::WrongDiceIndexes));
    assert_eq!(g.use_dice(vec![0, 0, 0]), Err(UseDiceError::WrongDiceIndexes));
    assert_eq!(g.use_dice(vec![]), Err(UseDiceError::InvalidDiceCombination(vec![])));
    assert_eq!(g.try_use_dice(vec![0, 4]), Ok(150));
    assert!(!g.is_waiting_for_roll());
    assert_eq!(g.use_dice(vec![0, 4]), Ok(150));
}

#[test]
fn next_turn_banks_when_waiting() {
    let mut g = game([1, 2, 3, 4, 5, 6]);
    g.roll().unwrap();
    assert_eq!(g.use_dice(vec![0]), Ok(100));
    g.roll().unwrap();
    assert_eq!(g.use_dice(vec![3]), Ok(50));
    assert_eq!(g.get_players()[0].score(), 0);
    g.next_turn();
    assert_eq!(g.get_players()[0].score(), 150);
    assert_eq!(g.get_current_player().id(), "Player 2");
    g.next_turn();
    assert_eq!(g.get_current_player().id(), "Player 1");
}

#[test]
fn next_turn_with_a_pending_roll_banks_the_ledger() {
    let mut g = game([1, 2, 3, 4, 5, 6]);
    g.roll().unwrap();
    assert_eq!(g.use_dice(vec![0]), Ok(100));
    g.roll().unwrap();
    g.next_turn();
    assert_eq!(g.get_players()[0].score(), 100);
    assert_eq!(g.get_current_player().id(), "Player 2");
}

#[test]
fn setup_errors() {
    match FarkleGame::new(vec![player("solo", [1, 1, 1, 1, 1, 1])]) {
        Err(e) => assert_eq!(e, ZonkCreationError::NotEnoughPlayers(1)),
        Ok(_) => panic!("a game of one player"),
    }
    let mut dice = fixed_dice([1, 1, 1, 1, 1, 1]);
    dice.pop();
    match Player::new("five", dice) {
        Err(e) => assert_eq!(e, PlayerCreationError::InvalidDiceCount(5)),
        Ok(_) => panic!("a player with five dice"),
    }
}

#[test]
fn turn_state_machine() {
    let mut t = Turn::new(fixed_dice([4, 4, 4, 2, 3, 6]), 1);
    assert_eq!(t.player_index(), 1);
    assert!(t.is_waiting_for_roll());
    assert!(!t.has_any_combination());
    t.roll().unwrap();
    assert!(!t.is_waiting_for_roll());
    assert!(t.has_any_combination());
    assert_eq!(t.use_dice(vec![0, 1, 2]), Ok(400));
    assert!(t.is_waiting_for_roll());
    assert_eq!(t.total_score(), 400);
    t.roll().unwrap();
    assert!(!t.has_any_combination());
    assert!(!t.is_finished());
}

#[test]
fn regular_dice_roll_faces_in_range() {
    let d = Dice::regular();
    for _ in 0..200 {
        let v = d.roll().value();
        assert!((1..=6).contains(&v));
    }
    let p = match Player::new("p", vec![Dice::new(RegularDice); 6]) {
        Ok(p) => p,
        Err(e) => panic!("{:?}", e),
    };
    assert_eq!(p.roll().len(), 6);
    assert_eq!(p.dice().len(), 6);
    assert_eq!(p.score(), 0);
}

#[test]
fn partial_combination_counts_as_any() {
    let mut t = Turn::new(fixed_dice([1, 2, 3, 4, 6, 6]), 0);
    t.roll().unwrap();
    assert!(t.has_any_combination());
    assert_eq!(t.get_last_roll_result().map(|v| values(&v)), Some(vec![1, 2, 3, 4, 6, 6]));
    assert_eq!(t.use_dice(vec![0, 1]), Err(UseDiceError::InvalidDiceCombination(vec![RollResult::new(2).unwrap()])));
    assert_eq!(t.use_dice(vec![0]), Ok(100));
    assert_eq!(t.total_score(), 100);
}
