use menace::{GameResult, Machine, Move, MoveScores, Player, State, WinReason};

fn ranks(s: &MoveScores) -> Vec<usize> {
    s.move_at().iter().map(|m| m.to_usize()).collect()
}

fn check_ranks(s: &MoveScores) {
    let order = s.order();
    let move_at = s.move_at();
    let score = s.score();
    for m in 0..9 {
        assert_eq!(move_at[order[m]].to_usize(), m);
    }
    for r in 1..9 {
        assert!(score[move_at[r - 1].to_usize()] >= score[move_at[r].to_usize()]);
    }
    assert_eq!(score.iter().sum::<u64>(), s.score_sum());
}

#[test]
fn fresh_position_starts_even() {
    let s = MoveScores::initial(&State::new(), 4);
    assert_eq!(s.score_sum(), 36);
    assert_eq!(s.score(), [4; 9]);
    assert_eq!(ranks(&s), (0..9).collect::<Vec<usize>>());
    check_ranks(&s);
}

#[test]
fn illegal_moves_start_at_zero_and_rank_last() {
    let mut pos = State::new();
    pos.play(Move::from_usize(1), Player::Crosses);
    pos.play(Move::from_usize(6), Player::Naughts);
    let s = MoveScores::initial(&pos, 4);
    assert_eq!(s.score_sum(), 28);
    assert_eq!(s.score(), [4, 0, 4, 4, 4, 4, 0, 4, 4]);
    assert_eq!(ranks(&s), vec![0, 2, 3, 4, 5, 7, 8, 1, 6]);
    check_ranks(&s);
}

#[test]
fn increase_bubbles_past_strictly_smaller_only() {
    let mut s = MoveScores::initial(&State::new(), 4);
    s.increase(Move::from_usize(2), 1);
    assert_eq!(ranks(&s), vec![2, 0, 1, 3, 4, 5, 6, 7, 8]);
    // Tied with the move at rank 0: it stops right behind it.
    s.increase(Move::from_usize(5), 1);
    assert_eq!(ranks(&s), vec![2, 5, 0, 1, 3, 4, 6, 7, 8]);
    // Now above it: one more swap.
    s.increase(Move::from_usize(5), 1);
    assert_eq!(ranks(&s), vec![5, 2, 0, 1, 3, 4, 6, 7, 8]);
    assert_eq!(s.score_sum(), 39);
    check_ranks(&s);
}

#[test]
fn decrease_bubbles_down_and_stops_at_zero() {
    let mut s = MoveScores::initial(&State::new(), 4);
    s.decrease(Move::from_usize(0), 1);
    assert_eq!(ranks(&s), vec![1, 2, 3, 4, 5, 6, 7, 8, 0]);
    assert_eq!(s.score_sum(), 35);
    s.decrease(Move::from_usize(4), 100);
    assert_eq!(s.score()[4], 0);
    assert_eq!(s.score_sum(), 31);
    assert_eq!(ranks(&s), vec![1, 2, 3, 5, 6, 7, 8, 0, 4]);
    check_ranks(&s);
}

#[test]
fn decrease_ties_keep_order() {
    let mut s = MoveScores::initial(&State::new(), 4);
    s.increase(Move::from_usize(8), 2);
    assert_eq!(ranks(&s), vec![8, 0, 1, 2, 3, 4, 5, 6, 7]);
    s.decrease(Move::from_usize(8), 2);
    assert_eq!(ranks(&s), vec![8, 0, 1, 2, 3, 4, 5, 6, 7]);
    check_ranks(&s);
}

#[test]
fn draw_walks_ranks_from_heaviest() {
    let mut s = MoveScores::initial(&State::new(), 4);
    assert_eq!(s.move_for_draw(0).to_usize(), 0);
    assert_eq!(s.move_for_draw(3).to_usize(), 0);
    assert_eq!(s.move_for_draw(4).to_usize(), 1);
    assert_eq!(s.move_for_draw(35).to_usize(), 8);
    s.increase(Move::from_usize(7), 6);
    assert_eq!(s.move_for_draw(9).to_usize(), 7);
    assert_eq!(s.move_for_draw(10).to_usize(), 0);
    assert_eq!(s.weight(Move::from_usize(7)), 10);
}

#[test]
fn select_move_on_fresh_board_picks_legal_move() {
    let mut machine = Machine::new();
    let m = machine.select_move(State::new()).unwrap();
    assert!(m.to_usize() < 9);
    assert_eq!(machine.values().len(), 1);
}

#[test]
fn select_move_on_full_board_is_none() {
    let mut pos = State::new();
    for (i, p) in [(0, Player::Crosses), (1, Player::Naughts), (2, Player::Crosses),
        (3, Player::Crosses), (4, Player::Naughts), (5, Player::Naughts),
        (6, Player::Naughts), (7, Player::Crosses), (8, Player::Crosses)]
    {
        pos.play(Move::from_usize(i), p);
    }
    let mut machine = Machine::new();
    assert_eq!(machine.select_move(pos), None);
    assert_eq!(machine.get_move_scores(pos).score_sum(), 0);
}

#[test]
fn selected_moves_are_blank_cells() {
    let mut pos = State::new();
    pos.play(Move::from_usize(4), Player::Crosses);
    let mut machine = Machine::new();
    for _ in 0..50 {
        let m = machine.select_move(pos).unwrap();
        assert_ne!(m.to_usize(), 4);
    }
}

#[test]
fn training_keeps_distributions_consistent() {
    let mut machine = Machine::new();
    for _ in 0..300 {
        machine.play_training_match();
    }
    assert!(machine.values().len() > 1);
    for s in machine.values().values() {
        check_ranks(s);
    }
}

#[test]
fn validate_holds_after_updates() {
    let mut s = MoveScores::initial(&State::new(), 4);
    assert!(s.validate());
    s.increase(Move::from_usize(3), 7);
    s.decrease(Move::from_usize(0), 2);
    s.decrease(Move::from_usize(3), 50);
    assert!(s.validate());
    check_ranks(&s);
}

#[test]
fn fresh_machine_makes_entry_once() {
    let mut machine = Machine::new();
    let a = machine.get_move_scores(State::new());
    let b = machine.get_move_scores(State::new());
    assert_eq!(a.score(), b.score());
    assert_eq!(machine.values().len(), 1);
    assert_eq!(a.score_sum(), 36);
}

#[test]
fn credit_raises_winner_and_lowers_loser() {
    let mut machine = Machine::new();
    let start = State::new();
    let mut after = start;
    after.play(Move::from_usize(4), Player::Crosses);
    machine.get_move_scores(start);
    machine.get_move_scores(after);
    let crosses = vec![(start.key(), Move::from_usize(4))];
    let naughts = vec![(after.key(), Move::from_usize(0))];
    machine.assign_credit(
        GameResult::Win { winner: Player::Crosses, reason: WinReason::RowOrColumn },
        &crosses,
        &naughts,
    );
    let s = machine.get_move_scores(start);
    assert_eq!(s.weight(Move::from_usize(4)), 5);
    assert_eq!(s.move_at()[0].to_usize(), 4);
    assert_eq!(s.score_sum(), 37);
    let t = machine.get_move_scores(after);
    assert_eq!(t.weight(Move::from_usize(0)), 3);
    assert_eq!(t.move_at()[7].to_usize(), 0);
    assert_eq!(t.score_sum(), 31);
}

#[test]
fn draw_gives_no_credit() {
    let mut machine = Machine::new();
    let start = State::new();
    machine.get_move_scores(start);
    let crosses = vec![(start.key(), Move::from_usize(4))];
    machine.assign_credit(GameResult::Draw, &crosses, &Vec::new());
    assert_eq!(machine.get_move_scores(start).score(), [4; 9]);
}
