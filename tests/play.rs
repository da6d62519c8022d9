use dice_game::game::{DiceGame, DiceSlotDescription};
use dice_game::game_player::{play_games, play_whole_game, settle_bonus, GameProtocol, Histogram, SlotStatistics};
use dice_game::solver::{BestMove, GameSolver, SCALE};

fn solved(num_dice: u8, num_sides: u8, num_rolls: u8, threshold: u32, bonus: u32, slots: Vec<DiceSlotDescription>) -> GameSolver {
    let game = DiceGame::new(num_dice, num_sides, num_rolls, threshold, bonus, slots).expect("valid game");
    let mut solver = GameSolver::new(game);
    solver.solve();
    solver
}

#[test]
fn histogram_grows_to_fit() {
    let mut h = Histogram::new();
    assert!(h.data.is_empty());
    h.add_sample(3);
    assert_eq!(h.data, vec![0, 0, 0, 1]);
    h.add_sample(3);
    h.add_sample(0);
    assert_eq!(h.data, vec![1, 0, 0, 2]);
}

#[test]
fn slot_statistics_accumulate() {
    let mut s = SlotStatistics::new();
    assert_eq!(s.average(), None);
    s.add_sample(0);
    s.add_sample(4);
    s.add_sample(5);
    assert_eq!(s.sample_count, 3);
    assert_eq!(s.score_sum, 9);
    assert_eq!(s.square_sum, 41);
    assert_eq!(s.zero_count, 1);
    assert_eq!(s.average(), Some(3 * SCALE as u128));
    assert_eq!(s.histogram.data, vec![1, 0, 0, 0, 1, 1]);
}

#[test]
fn bonus_needs_the_threshold() {
    let game = DiceGame::new(
        1,
        6,
        0,
        10,
        50,
        vec![DiceSlotDescription::ones(), DiceSlotDescription::chance(), DiceSlotDescription::sixes()],
    )
    .unwrap();
    let below = GameProtocol { total_slot_score: 15, slot_scores: vec![1, 9, 5], bonus: false, total_game_score: 0 };
    let r = settle_bonus(&game, below);
    assert!(!r.bonus);
    assert_eq!(r.total_game_score, 15);
    let at = GameProtocol { total_slot_score: 16, slot_scores: vec![4, 6, 6], bonus: false, total_game_score: 0 };
    let r = settle_bonus(&game, at);
    assert!(r.bonus);
    assert_eq!(r.total_game_score, 66);
}

#[test]
fn whole_game_fills_every_category() {
    let solver = solved(2, 4, 1, 0, 0, vec![DiceSlotDescription::chance(), DiceSlotDescription::one_pair()]);
    for _ in 0..20 {
        let p = play_whole_game(&solver);
        assert_eq!(p.slot_scores.len(), 2);
        assert_eq!(p.total_slot_score, p.slot_scores.iter().sum::<u64>());
        assert!(p.slot_scores[0] >= 2);
        assert!(p.bonus);
        assert_eq!(p.total_game_score, p.total_slot_score);
    }
}

#[test]
fn many_games_are_counted() {
    let solver = solved(1, 6, 1, 0, 0, vec![DiceSlotDescription::chance()]);
    let stats = play_games(&solver, 100);
    assert_eq!(stats.total_game_score.sample_count, 100);
    assert_eq!(stats.all_slots_statistics[0].sample_count, 100);
    assert_eq!(stats.slot_names, vec!["Chance"]);
    assert!(stats.total_game_score.score_sum >= 100);
    assert!(stats.total_game_score.score_sum <= 600);
}

#[test]
fn positions_follow_the_recorded_actions() {
    let solver = solved(1, 2, 0, 0, 0, vec![DiceSlotDescription::chance()]);
    let start = solver.position_for_draw(None, 1);
    assert_eq!(start.slot_mask, 0);
    assert_eq!(start.outcome_index, 1);
    assert!(!start.is_final(&solver));
    assert_eq!(start.available_slots(&solver), vec![0]);
    assert!(start.filled_slots(&solver).is_empty());
    let b = start.get_best_move(&solver).unwrap();
    assert_eq!(b.best_move, BestMove::SelectSlot(0));
    assert_eq!(b.expected_score, 2 * SCALE);
    let next = start.next_position(&solver, 0).unwrap();
    assert_eq!(next.slot_mask, 1);
    assert_eq!(next.score, 2);
    assert_eq!(next.outcome_index, 0);
    assert!(next.is_final(&solver));
    assert_eq!(next.filled_slots(&solver), vec![0]);
    assert!(next.next_position(&solver, 0).is_none());
    assert!(next.follow_best_move(&solver).is_none());
}

#[test]
fn rerolls_move_to_a_drawn_destination() {
    let solver = solved(2, 2, 1, 0, 0, vec![DiceSlotDescription::chance()]);
    // outcome (1,1) with one reroll left: reroll both dice
    let start = solver.position_for_draw(Some(&solver.game.outcomes[0]), 0);
    assert_eq!(start.rerolls_left, 1);
    assert_eq!(start.get_best_move(&solver).unwrap().best_move, BestMove::Move(3));
    // draws 0..4 over weights 1, 2, 1
    let dest: Vec<usize> = (0..4).map(|d| start.next_position(&solver, d).unwrap().outcome_index).collect();
    assert_eq!(dest, vec![0, 1, 1, 2]);
    let after = start.next_position(&solver, 3).unwrap();
    assert_eq!(after.rerolls_left, 0);
    assert_eq!(after.score, 0);
    let random = start.follow_best_move(&solver).unwrap();
    assert_eq!(random.rerolls_left, 0);
    let initial = solver.initial_position(None);
    assert!(initial.outcome_index < 3);
}
