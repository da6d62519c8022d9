use dice_game::draw::{index_for_draw, random_index_from_probabilities};
use dice_game::game::{DiceGame, DiceSlotDescription, GameError};
use dice_game::outcome::UnorderedDiceOutcome;
use dice_game::reroll::DiceReroll;

fn game(num_dice: u8, num_sides: u8) -> DiceGame {
    DiceGame::new(num_dice, num_sides, 1, 0, 0, vec![DiceSlotDescription::chance()]).expect("valid game")
}

fn pascal(n: u8, k: u8) -> u32 {
    let mut row = vec![1u32];
    for _ in 0..n {
        let mut next = vec![1u32];
        for w in row.windows(2) {
            next.push(w[0] + w[1]);
        }
        next.push(1);
        row = next;
    }
    row[k as usize]
}

#[test]
fn choose_five_two_is_ten() {
    assert_eq!(DiceReroll::n_choose_k(5, 2), 10);
}

#[test]
fn choose_matches_pascals_triangle() {
    for n in 0..=8u8 {
        for k in 0..=n {
            assert_eq!(DiceReroll::n_choose_k(n, k), pascal(n, k), "choose({}, {})", n, k);
        }
    }
}

#[test]
fn rerolls_are_the_bit_patterns() {
    let moves = DiceReroll::generate_rerolls(2);
    assert_eq!(moves.len(), 4);
    assert_eq!(moves[0].rerolled, vec![false, false]);
    assert_eq!(moves[1].rerolled, vec![true, false]);
    assert_eq!(moves[2].rerolled, vec![false, true]);
    assert_eq!(moves[3].rerolled, vec![true, true]);
    for (i, m) in moves.iter().enumerate() {
        assert_eq!(m.index, i);
    }
}

#[test]
fn outcomes_are_sorted_multisets_in_order() {
    let outcomes = UnorderedDiceOutcome::generate_outcomes(2, 3);
    let dice: Vec<Vec<u8>> = outcomes.iter().map(|o| o.dice.clone()).collect();
    assert_eq!(dice, vec![vec![1, 1], vec![1, 2], vec![1, 3], vec![2, 2], vec![2, 3], vec![3, 3]]);
    let weights: Vec<u64> = outcomes.iter().map(|o| o.initial_weight).collect();
    assert_eq!(weights, vec![1, 2, 2, 1, 2, 1]);
}

#[test]
fn five_dice_have_252_outcomes() {
    let outcomes = UnorderedDiceOutcome::generate_outcomes(5, 6);
    assert_eq!(outcomes.len(), 252);
    let full_house = outcomes.iter().find(|o| o.dice == vec![2, 2, 3, 3, 3]).unwrap();
    assert_eq!(full_house.initial_weight, 10);
    let straight = outcomes.iter().find(|o| o.dice == vec![1, 2, 3, 4, 5]).unwrap();
    assert_eq!(straight.initial_weight, 120);
}

#[test]
fn apriori_probabilities_sum_to_one() {
    for (n, s) in [(1u8, 2u8), (2, 2), (3, 4), (5, 6), (6, 6)] {
        let g = game(n, s);
        let total: u64 = g.outcomes.iter().map(|o| o.initial_weight).sum();
        assert_eq!(total, (s as u64).pow(n as u32));
    }
}

#[test]
fn transition_probabilities_sum_to_one() {
    for (n, s) in [(2u8, 2u8), (3, 4), (4, 6)] {
        let g = game(n, s);
        for f in 0..g.outcomes.len() {
            for m in 0..g.moves.len() {
                let k = g.moves[m].rerolled.iter().filter(|&&b| b).count() as u32;
                let total: u64 = g.move_probabilities(f, m).iter().map(|e| e.1).sum();
                assert_eq!(total, (s as u64).pow(k));
                assert!(g.move_probabilities(f, m).iter().all(|e| e.1 > 0));
            }
        }
    }
}

#[test]
fn keeping_every_die_keeps_the_outcome() {
    let g = game(3, 4);
    let keep = &g.moves[0];
    for from in g.outcomes.iter() {
        for to in g.outcomes.iter() {
            let expected = if from.index == to.index { 1 } else { 0 };
            assert_eq!(keep.probability(from, to), expected);
        }
    }
}

#[test]
fn move_zero_table_has_one_destination_each() {
    let g = game(4, 5);
    for f in 0..g.outcomes.len() {
        assert_eq!(g.move_probabilities(f, 0), &vec![(f, 1u64)]);
    }
}

#[test]
fn rerolling_one_die_reaches_each_face_once() {
    let g = game(2, 3);
    // outcomes: (1,1) (1,2) (1,3) (2,2) (2,3) (3,3); move 1 rerolls die 0
    let from = &g.outcomes[1]; // (1,2): keeps the 2
    let list = g.move_probabilities(from.index, 1);
    assert_eq!(list, &vec![(1, 1), (3, 1), (4, 1)]);
    // rerolling both dice: (1,2) can be rolled two ways out of nine
    assert_eq!(g.moves[3].probability(&g.outcomes[0], &g.outcomes[1]), 2);
    assert_eq!(g.moves[3].probability(&g.outcomes[0], &g.outcomes[3]), 1);
    // keeping a 1 cannot reach (2,2)
    assert_eq!(g.moves[2].probability(&g.outcomes[1], &g.outcomes[3]), 0);
}

#[test]
fn find_outcome_ignores_order() {
    let g = game(3, 6);
    let o = g.find_outcome(&vec![5, 1, 3]).unwrap();
    assert_eq!(o.dice, vec![1, 3, 5]);
    assert_eq!(g.outcomes[o.index].dice, vec![1, 3, 5]);
    assert!(g.find_outcome(&vec![7, 1, 3]).is_none());
    assert!(g.find_outcome(&vec![1, 3]).is_none());
}

#[test]
fn find_move_by_flags() {
    let g = game(3, 6);
    let m = g.find_move(&vec![false, true, true]).unwrap();
    assert_eq!(m.index, 6);
    assert!(g.find_move(&vec![true]).is_none());
}

#[test]
fn invalid_configurations_are_refused() {
    let one = || vec![DiceSlotDescription::chance()];
    assert!(matches!(DiceGame::new(0, 6, 1, 0, 0, one()), Err(GameError::UnsupportedDice)));
    assert!(matches!(DiceGame::new(9, 6, 1, 0, 0, one()), Err(GameError::UnsupportedDice)));
    assert!(matches!(DiceGame::new(2, 0, 1, 0, 0, one()), Err(GameError::UnsupportedSides)));
    assert!(matches!(DiceGame::new(2, 17, 1, 0, 0, one()), Err(GameError::UnsupportedSides)));
    assert!(matches!(DiceGame::new(2, 6, 1, 0, 0, vec![DiceSlotDescription::chance(); 33]), Err(GameError::TooManySlots)));
    assert!(DiceGame::new(2, 6, 1, 0, 0, vec![DiceSlotDescription::chance(); 32]).is_ok());
}

#[test]
fn draw_walks_the_weights() {
    let w = vec![1u64, 2, 1];
    assert_eq!(index_for_draw(&w, 0), 0);
    assert_eq!(index_for_draw(&w, 1), 1);
    assert_eq!(index_for_draw(&w, 2), 1);
    assert_eq!(index_for_draw(&w, 3), 2);
    assert_eq!(index_for_draw(&vec![0, 0, 4], 3), 2);
}

#[test]
fn random_draw_picks_a_weighted_index() {
    for _ in 0..50 {
        assert_eq!(random_index_from_probabilities(&vec![0, 0, 1]), 2);
        let i = random_index_from_probabilities(&vec![3, 0, 2]);
        assert!(i == 0 || i == 2);
    }
}

#[test]
fn random_initial_outcome_is_an_outcome() {
    let g = game(1, 6);
    let mut seen = [false; 6];
    for _ in 0..600 {
        let o = g.random_initial_outcome();
        seen[o.index] = true;
    }
    assert!(seen.iter().all(|&b| b));
}
