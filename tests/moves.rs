use menace::{Move, MoveSet, ParseError};

#[test]
fn test_move_set() {
    // Test empty and all:
    assert_eq!(MoveSet::empty().iter().len(), 0);
    assert_eq!(MoveSet::all().iter().len(), Move::N);
    let mut mset = MoveSet::all();
    for m in (0..Move::N).map(Move::from_usize) {
        assert!(mset.contains(m));
    }

    // Test remove and add:
    let m = Move::from_usize(4);
    assert!(mset.contains(m));
    mset = mset.remove(m);
    assert!(!mset.contains(m));
    mset = mset.add(m);
    assert!(mset.contains(m));

    // Test from_fn and filter:
    mset = MoveSet::from_fn(|m| m.to_usize() % 2 == 0);
    assert!(mset.iter().iter().all(|m| m.to_usize() % 2 == 0));
    mset = mset.filter(|m| m.to_usize() % 3 == 0);
    assert!(mset.iter().iter().all(|m| m.to_usize() % 2 == 0));
    assert_eq!(mset.iter().len(), 1 + Move::N / 6);
}

#[test]
fn move_set_iter_is_ascending() {
    let set = MoveSet::empty()
        .add(Move::from_usize(7))
        .add(Move::from_usize(2))
        .add(Move::from_usize(5));
    let got: Vec<usize> = set.iter().iter().map(|m| m.to_usize()).collect();
    assert_eq!(got, vec![2, 5, 7]);
}

#[test]
fn single_move_set() {
    let set = Move::from_usize(3).to_move_set();
    let got: Vec<usize> = set.iter().iter().map(|m| m.to_usize()).collect();
    assert_eq!(got, vec![3]);
}

#[test]
fn all_moves_in_index_order() {
    let got: Vec<usize> = Move::all().iter().map(|m| m.to_usize()).collect();
    assert_eq!(got, (0..9).collect::<Vec<usize>>());
}

#[test]
fn move_text_names_row_then_column() {
    assert_eq!(Move::from_usize(0).to_text(), "a1");
    assert_eq!(Move::from_usize(4).to_text(), "b2");
    assert_eq!(Move::from_usize(5).to_text(), "b3");
    assert_eq!(Move::from_usize(8).to_text(), "c3");
}

#[test]
fn move_text_round_trip() {
    for i in 0..Move::N {
        let m = Move::from_usize(i);
        assert_eq!(Move::from_text(&m.to_text()), Ok(m));
    }
}

#[test]
fn move_text_reads_cells() {
    assert_eq!(Move::from_text("b2").map(|m| m.to_usize()), Ok(4));
    assert_eq!(Move::from_text("c1").map(|m| m.to_usize()), Ok(6));
    assert_eq!(Move::from_text("a3").map(|m| m.to_usize()), Ok(2));
}

#[test]
fn move_text_errors() {
    assert_eq!(Move::from_text(""), Err(ParseError::Empty));
    assert_eq!(Move::from_text("d1"), Err(ParseError::LetterOutOfRange));
    assert_eq!(Move::from_text("B2"), Err(ParseError::LetterOutOfRange));
    assert_eq!(Move::from_text("a"), Err(ParseError::ColumnNotNumeric));
    assert_eq!(Move::from_text("ax"), Err(ParseError::ColumnNotNumeric));
    assert_eq!(Move::from_text("a1x"), Err(ParseError::ColumnNotNumeric));
    assert_eq!(Move::from_text("a4"), Err(ParseError::ColumnOutOfRange));
    assert_eq!(Move::from_text("a0"), Err(ParseError::ColumnOutOfRange));
    assert_eq!(Move::from_text("a03"), Err(ParseError::ColumnOutOfRange));
    assert_eq!(Move::from_text("a01"), Err(ParseError::ColumnOutOfRange));
    assert_eq!(Move::from_text("a12"), Err(ParseError::ColumnOutOfRange));
    assert_eq!(Move::from_text("a+1"), Err(ParseError::ColumnNotNumeric));
    assert_eq!(Move::from_text("c99999999999999999999999"), Err(ParseError::ColumnOutOfRange));
}

#[test]
fn move_parses_through_from_str() {
    assert_eq!("a3".parse::<Move>().map(|m| m.to_usize()), Ok(2));
    assert_eq!("z3".parse::<Move>(), Err(ParseError::LetterOutOfRange));
}
