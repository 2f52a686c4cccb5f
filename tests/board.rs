use menace::{GameResult, Mark, Move, Player, State, WinReason};

fn board(crosses: &[usize], naughts: &[usize]) -> State {
    let mut s = State::new();
    for &i in crosses {
        s.play(Move::from_usize(i), Player::Crosses);
    }
    for &i in naughts {
        s.play(Move::from_usize(i), Player::Naughts);
    }
    s
}

#[test]
fn empty_board_has_every_move_ascending() {
    let got: Vec<usize> = State::new()
        .legal_moves()
        .iter()
        .iter()
        .map(|m| m.to_usize())
        .collect();
    assert_eq!(got, (0..9).collect::<Vec<usize>>());
}

#[test]
fn legal_moves_skip_filled_cells() {
    let s = board(&[0, 4], &[8]);
    let got: Vec<usize> = s.legal_moves().iter().iter().map(|m| m.to_usize()).collect();
    assert_eq!(got, vec![1, 2, 3, 5, 6, 7]);
}

#[test]
fn full_row_wins_by_row() {
    let s = board(&[3, 4, 5], &[0, 8]);
    assert!(s.has_row(Player::Crosses));
    assert_eq!(
        s.result(Player::Crosses),
        Some(GameResult::Win { winner: Player::Crosses, reason: WinReason::RowOrColumn })
    );
}

#[test]
fn full_column_wins_by_row_or_column() {
    let s = board(&[1, 4, 7], &[0, 2]);
    assert!(s.has_column(Player::Crosses));
    assert!(!s.has_row(Player::Crosses));
    assert_eq!(
        s.result(Player::Crosses),
        Some(GameResult::Win { winner: Player::Crosses, reason: WinReason::RowOrColumn })
    );
}

#[test]
fn full_diagonal_wins_by_diagonal() {
    let s = board(&[0, 4, 8], &[1, 2]);
    assert!(s.has_diagonal(Player::Crosses));
    assert_eq!(
        s.result(Player::Crosses),
        Some(GameResult::Win { winner: Player::Crosses, reason: WinReason::Diagonal })
    );
    let anti = board(&[2, 4, 6], &[0, 1]);
    assert_eq!(
        anti.result(Player::Crosses),
        Some(GameResult::Win { winner: Player::Crosses, reason: WinReason::Diagonal })
    );
}

#[test]
fn row_is_reported_before_diagonal() {
    let s = board(&[0, 1, 2, 4, 8], &[3, 5, 6, 7]);
    assert_eq!(
        s.result(Player::Crosses),
        Some(GameResult::Win { winner: Player::Crosses, reason: WinReason::RowOrColumn })
    );
}

#[test]
fn full_board_without_line_is_draw() {
    let s = board(&[0, 2, 3, 7, 8], &[1, 4, 5, 6]);
    assert!(s.is_draw());
    assert_eq!(s.result(Player::Crosses), Some(GameResult::Draw));
    assert_eq!(s.legal_moves().iter().len(), 0);
}

#[test]
fn open_game_has_no_result() {
    let s = board(&[0, 4], &[8]);
    assert_eq!(s.result(Player::Crosses), None);
    assert_eq!(s.result(Player::Naughts), None);
}

#[test]
fn play_puts_player_mark() {
    let s = board(&[4], &[0]);
    assert_eq!(s.at(Move::from_usize(4)), Mark::Cross);
    assert_eq!(s.at(Move::from_usize(0)), Mark::Naught);
    assert_eq!(s.at(Move::from_usize(1)), Mark::Blank);
}

#[test]
fn opponent_and_mark() {
    assert_eq!(Player::Crosses.opponent(), Player::Naughts);
    assert_eq!(Player::Naughts.opponent(), Player::Crosses);
    assert_eq!(Mark::from(Player::Crosses), Mark::Cross);
    assert_eq!(Mark::from(Player::Naughts), Mark::Naught);
}

#[test]
fn keys_tell_positions_apart() {
    let a = board(&[0], &[]);
    let b = board(&[], &[0]);
    let c = board(&[1], &[]);
    assert_ne!(a.key(), b.key());
    assert_ne!(a.key(), c.key());
    assert_ne!(State::new().key(), a.key());
    assert_eq!(State::new().key(), 0);
    assert_eq!(board(&[8], &[]).key(), 1);
    assert_eq!(board(&[], &[7]).key(), 6);
}
