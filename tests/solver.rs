use dice_game::game::{DiceGame, DiceSlotDescription, GameError};
use dice_game::solver::{BestMove, GameSolver, SCALE};

fn solved(num_dice: u8, num_sides: u8, num_rolls: u8, slots: Vec<DiceSlotDescription>) -> GameSolver {
    let game = DiceGame::new(num_dice, num_sides, num_rolls, 0, 0, slots).expect("valid game");
    let mut solver = GameSolver::new(game);
    solver.solve();
    solver
}

#[test]
fn one_die_two_faces_no_reroll_expects_one_and_a_half() {
    let solver = solved(1, 2, 0, vec![DiceSlotDescription::chance()]);
    assert_eq!(solver.rounds[0].expected_score, 3 * SCALE / 2);
}

#[test]
fn two_dice_one_reroll_rerolls_all_but_the_maximum() {
    let solver = solved(2, 2, 1, vec![DiceSlotDescription::chance()]);
    let expected = solver.rounds[0].expected_score;
    assert!(expected > 3 * SCALE);
    assert_eq!(expected, 7 * SCALE / 2);
    // outcomes: (1,1), (1,2), (2,2)
    let at_start = |o: usize| solver.get_best_move(0, 1, o).unwrap().best_move;
    assert!(matches!(at_start(0), BestMove::Move(_)));
    assert!(matches!(at_start(1), BestMove::Move(_)));
    assert_eq!(at_start(2), BestMove::SelectSlot(0));
    assert_eq!(solver.get_best_move(0, 1, 0).unwrap().best_move, BestMove::Move(3));
    assert_eq!(solver.get_best_move(0, 1, 1).unwrap().best_move, BestMove::Move(1));
}

#[test]
fn solving_twice_gives_the_same_table() {
    let slots = || vec![DiceSlotDescription::chance(), DiceSlotDescription::one_pair(), DiceSlotDescription::yatzy()];
    let a = solved(3, 4, 2, slots());
    let b = solved(3, 4, 2, slots());
    assert_eq!(a.rounds.len(), b.rounds.len());
    for (ra, rb) in a.rounds.iter().zip(b.rounds.iter()) {
        assert_eq!(ra.expected_score, rb.expected_score);
        assert_eq!(ra.best_moves, rb.best_moves);
    }
}

#[test]
fn too_many_slots_is_refused() {
    let slots = vec![DiceSlotDescription::chance(); 33];
    assert!(matches!(DiceGame::new(1, 2, 0, 0, 0, slots), Err(GameError::TooManySlots)));
}

#[test]
fn full_yatzy_table_builds() {
    let slots = vec![
        DiceSlotDescription::ones(),
        DiceSlotDescription::twos(),
        DiceSlotDescription::threes(),
        DiceSlotDescription::fours(),
        DiceSlotDescription::fives(),
        DiceSlotDescription::sixes(),
    ];
    let game = DiceGame::new(5, 6, 2, 63, 50, slots).expect("valid game");
    assert_eq!(game.outcomes.len(), 252);
    assert_eq!(game.moves.len(), 32);
    let mut solver = GameSolver::new(game);
    solver.solve();
    assert!(solver.rounds[0].expected_score > 0);
}

#[test]
fn every_state_is_worth_at_least_filling_now() {
    let slots = vec![DiceSlotDescription::chance(), DiceSlotDescription::one_pair(), DiceSlotDescription::three_of_a_kind()];
    let solver = solved(3, 4, 2, slots);
    let game = &solver.game;
    let n = game.slots.len();
    for mask in 0..(1u32 << n) {
        let round = solver.find_round(mask).unwrap();
        for level in round.best_moves.iter() {
            for (o, entry) in level.iter().enumerate() {
                let mut best_now: Option<u64> = None;
                for s in 0..n {
                    if mask & (1 << s) == 0 {
                        let v = game.scores[s][o] as u64 * SCALE + solver.rounds[(mask | (1 << s)) as usize].expected_score;
                        best_now = Some(best_now.map_or(v, |b| b.max(v)));
                    }
                }
                match best_now {
                    Some(v) => assert!(entry.expected_score >= v),
                    None => assert_eq!(entry.best_move, BestMove::Unknown),
                }
            }
        }
    }
}

#[test]
fn unsolved_queries_are_absent() {
    let game = DiceGame::new(1, 2, 0, 0, 0, vec![DiceSlotDescription::chance()]).unwrap();
    let solver = GameSolver::new(game);
    assert!(solver.get_best_move(0, 0, 0).is_none());
    assert!(solver.find_round(0).is_none());
    let solver = solved(1, 2, 0, vec![DiceSlotDescription::chance()]);
    assert!(solver.get_best_move(0, 0, 2).is_none());
    assert!(solver.get_best_move(0, 1, 0).is_none());
    assert!(solver.get_best_move(2, 0, 0).is_none());
    assert_eq!(solver.get_best_move(1, 0, 0).unwrap().best_move, BestMove::Unknown);
}

#[test]
fn stages_run_from_all_filled_to_none_filled() {
    let solver = solved(2, 3, 1, vec![DiceSlotDescription::chance(), DiceSlotDescription::one_pair()]);
    let numbers: Vec<usize> = solver.stages.iter().map(|s| s.number).collect();
    assert_eq!(numbers, vec![2, 1, 0]);
    assert_eq!(solver.stages[0].masks, vec![3]);
    assert_eq!(solver.stages[1].masks, vec![1, 2]);
    assert_eq!(solver.stages[2].masks, vec![0]);
    assert_eq!(solver.find_round(3).unwrap().expected_score, 0);
}

#[test]
fn earlier_stage_is_seeded_with_the_best_category_now() {
    // one die, three faces; categories: chance, threes
    let solver = solved(1, 3, 0, vec![DiceSlotDescription::chance(), DiceSlotDescription::threes()]);
    let (stage, seeded) = solver.stage_from_previous(&solver.stages[0], &solver.rounds);
    assert_eq!(stage.number, 1);
    assert_eq!(stage.masks, vec![1, 2]);
    assert_eq!(seeded.len(), 2);
    // mask 1 (chance filled): only threes is left
    let only_threes: Vec<BestMove> = seeded[0].best_moves[0].iter().map(|b| b.best_move).collect();
    assert_eq!(only_threes, vec![BestMove::SelectSlot(1); 3]);
    assert_eq!(seeded[0].best_moves[0][2].expected_score, 3 * SCALE);
    // mask 2 (threes filled): chance scores the face
    assert_eq!(seeded[1].best_moves[0][1].expected_score, 2 * SCALE);
    // from the empty mask: nothing before it
    let (none, none_seeded) = solver.stage_from_previous(&solver.stages[2], &solver.rounds);
    assert_eq!(none.number, 0);
    assert!(none.masks.is_empty() && none_seeded.is_empty());
    // from nothing filled, face 1: chance 1 + 1 (threes later) ties threes 0 + 2 (chance later)
    let (first, first_seeded) = solver.stage_from_previous(&solver.stages[1], &solver.rounds);
    assert_eq!(first.masks, vec![0]);
    let at_one = first_seeded[0].best_moves[0][0];
    assert_eq!(at_one.best_move, BestMove::SelectSlot(0));
    assert_eq!(at_one.expected_score, 2 * SCALE);
    // face 3: chance 3 + 1 against threes 3 + 2
    let at_three = first_seeded[0].best_moves[0][2];
    assert_eq!(at_three.best_move, BestMove::SelectSlot(1));
    assert_eq!(at_three.expected_score, 5 * SCALE);
}
