use dice_game::game::{DiceGame, DiceSlotDescription};
use dice_game::scoring::ScoreRule;

fn score_of(description: DiceSlotDescription, dice: Vec<u8>) -> u32 {
    let g = DiceGame::new(dice.len() as u8, 6, 0, 0, 0, vec![description]).expect("valid game");
    let o = g.find_outcome(&dice).expect("an outcome");
    g.score(&g.slots[0], o)
}

#[test]
fn face_categories_count_their_face() {
    assert_eq!(score_of(DiceSlotDescription::ones(), vec![1, 1, 2, 3, 1]), 3);
    assert_eq!(score_of(DiceSlotDescription::twos(), vec![2, 2, 2, 3, 1]), 6);
    assert_eq!(score_of(DiceSlotDescription::threes(), vec![1, 1, 2, 4, 1]), 0);
    assert_eq!(score_of(DiceSlotDescription::fours(), vec![4, 4, 2, 3, 1]), 8);
    assert_eq!(score_of(DiceSlotDescription::fives(), vec![5, 1, 2, 3, 1]), 5);
    assert_eq!(score_of(DiceSlotDescription::sixes(), vec![6, 6, 6, 6, 6]), 30);
}

#[test]
fn pairs_take_the_highest() {
    assert_eq!(score_of(DiceSlotDescription::one_pair(), vec![2, 2, 5, 5, 6]), 10);
    assert_eq!(score_of(DiceSlotDescription::one_pair(), vec![1, 2, 3, 4, 6]), 0);
    assert_eq!(score_of(DiceSlotDescription::two_pairs(), vec![2, 2, 5, 5, 6]), 14);
    assert_eq!(score_of(DiceSlotDescription::two_pairs(), vec![5, 5, 5, 5, 6]), 0);
    assert_eq!(score_of(DiceSlotDescription::two_pairs(), vec![3, 3, 1, 2, 6]), 0);
}

#[test]
fn kinds_take_the_highest() {
    assert_eq!(score_of(DiceSlotDescription::three_of_a_kind(), vec![3, 3, 3, 4, 4]), 9);
    assert_eq!(score_of(DiceSlotDescription::three_of_a_kind(), vec![3, 3, 2, 4, 4]), 0);
    assert_eq!(score_of(DiceSlotDescription::four_of_a_kind(), vec![2, 2, 2, 2, 6]), 8);
    assert_eq!(score_of(DiceSlotDescription::four_of_a_kind(), vec![2, 2, 2, 6, 6]), 0);
    assert_eq!(score_of(DiceSlotDescription::yatzy(), vec![4, 4, 4, 4, 4]), 50);
    assert_eq!(score_of(DiceSlotDescription::yatzy(), vec![4, 4, 4, 4, 3]), 0);
}

#[test]
fn chance_and_straights() {
    assert_eq!(score_of(DiceSlotDescription::chance(), vec![1, 3, 3, 5, 6]), 18);
    assert_eq!(score_of(DiceSlotDescription::small_straight(), vec![5, 4, 3, 2, 1]), 15);
    assert_eq!(score_of(DiceSlotDescription::small_straight(), vec![2, 3, 4, 5, 6]), 0);
    assert_eq!(score_of(DiceSlotDescription::large_straight(), vec![2, 3, 4, 5, 6]), 20);
    assert_eq!(score_of(DiceSlotDescription::large_straight(), vec![1, 2, 3, 4, 5]), 0);
}

#[test]
fn full_house_needs_three_and_two() {
    assert_eq!(score_of(DiceSlotDescription::full_house(), vec![2, 2, 3, 3, 3]), 13);
    assert_eq!(score_of(DiceSlotDescription::full_house(), vec![6, 6, 6, 1, 1]), 20);
    assert_eq!(score_of(DiceSlotDescription::full_house(), vec![2, 2, 2, 2, 3]), 0);
    assert_eq!(score_of(DiceSlotDescription::full_house(), vec![2, 2, 3, 3, 4]), 0);
    assert_eq!(score_of(DiceSlotDescription::full_house(), vec![2, 2, 3, 3]), 0);
}

#[test]
fn rules_of_a_description() {
    assert_eq!(DiceSlotDescription::ones().rule, ScoreRule::Face(1));
    assert!(DiceSlotDescription::sixes().bonus);
    assert!(!DiceSlotDescription::chance().bonus);
    assert_eq!(DiceSlotDescription::full_house().name, "Full house");
}
