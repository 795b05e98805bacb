use caei_core::{Board, Move};

#[test]
fn move_left() {
    let mut game = Board::with_values([0, 0, 0, 2, 0, 2, 0, 2, 2, 2, 0, 2, 2, 2, 2, 0], 0);

    let changed = game.apply_move(Move::Left);

    assert_eq!(
        game,
        Board::with_values([2, 0, 0, 0, 4, 0, 0, 0, 4, 2, 0, 0, 4, 2, 0, 0], 12)
    );
    assert!(changed);

    let mut game = Board::with_values([0, 0, 0, 0, 2, 2, 2, 2, 2, 0, 0, 0, 0, 0, 2, 2], 0);

    let changed = game.apply_move(Move::Left);

    assert_eq!(
        game,
        Board::with_values([0, 0, 0, 0, 4, 4, 0, 0, 2, 0, 0, 0, 4, 0, 0, 0], 12)
    );
    assert!(changed);

    let mut game = Board::with_values([0, 2, 4, 0, 8, 0, 2, 2, 2, 2, 0, 4, 2, 0, 0, 2], 0);

    let changed = game.apply_move(Move::Left);

    assert_eq!(
        game,
        Board::with_values([2, 4, 0, 0, 8, 4, 0, 0, 4, 4, 0, 0, 4, 0, 0, 0], 12)
    );
    assert!(changed);

    let mut game = Board::with_values([2, 2, 2, 2, 4, 2, 2, 0, 2, 2, 0, 4, 2, 0, 2, 2], 0);

    let changed = game.apply_move(Move::Left);

    assert_eq!(
        game,
        Board::with_values([4, 4, 0, 0, 4, 4, 0, 0, 4, 4, 0, 0, 4, 2, 0, 0], 20)
    );
    assert!(changed);

    let mut game = Board::with_values([0, 0, 0, 0, 2, 0, 0, 0, 4, 2, 0, 0, 8, 4, 2, 0], 12);

    let changed = game.apply_move(Move::Left);

    assert_eq!(
        game,
        Board::with_values([0, 0, 0, 0, 2, 0, 0, 0, 4, 2, 0, 0, 8, 4, 2, 0], 12)
    );
    assert!(!changed);
}

#[test]
fn move_right() {
    let mut game = Board::with_values([2, 0, 0, 0, 2, 0, 2, 0, 2, 0, 2, 2, 0, 2, 2, 2], 0);

    let changed = game.apply_move(Move::Right);

    assert_eq!(
        game,
        Board::with_values([0, 0, 0, 2, 0, 0, 0, 4, 0, 0, 2, 4, 0, 0, 2, 4], 12)
    );
    assert!(changed);

    let mut game = Board::with_values([0, 0, 0, 0, 2, 2, 2, 2, 0, 0, 0, 2, 2, 2, 0, 0], 0);

    let changed = game.apply_move(Move::Right);

    assert_eq!(
        game,
        Board::with_values([0, 0, 0, 0, 0, 0, 4, 4, 0, 0, 0, 2, 0, 0, 0, 4], 12)
    );
    assert!(changed);

    let mut game = Board::with_values([0, 4, 2, 0, 2, 2, 0, 8, 4, 0, 2, 2, 2, 0, 0, 2], 0);

    let changed = game.apply_move(Move::Right);

    assert_eq!(
        game,
        Board::with_values([0, 0, 4, 2, 0, 0, 4, 8, 0, 0, 4, 4, 0, 0, 0, 4], 12)
    );
    assert!(changed);

    let mut game = Board::with_values([2, 2, 2, 2, 4, 2, 2, 0, 2, 2, 0, 4, 2, 0, 2, 2], 0);

    let changed = game.apply_move(Move::Right);

    assert_eq!(
        game,
        Board::with_values([0, 0, 4, 4, 0, 0, 4, 4, 0, 0, 4, 4, 0, 0, 2, 4], 20)
    );
    assert!(changed);

    let mut game = Board::with_values([0, 0, 0, 0, 0, 0, 0, 2, 0, 0, 2, 4, 0, 2, 4, 8], 0);

    let changed = game.apply_move(Move::Right);

    assert_eq!(
        game,
        Board::with_values([0, 0, 0, 0, 0, 0, 0, 2, 0, 0, 2, 4, 0, 2, 4, 8], 0)
    );
    assert!(!changed);
}

#[test]
fn move_down() {
    let mut game = Board::with_values([2, 2, 2, 0, 0, 0, 0, 2, 0, 2, 2, 2, 0, 0, 2, 2], 0);

    let changed = game.apply_move(Move::Down);

    assert_eq!(
        game,
        Board::with_values([0, 0, 0, 0, 0, 0, 0, 0, 0, 0, 2, 2, 2, 4, 4, 4], 12)
    );
    assert!(changed);

    let mut game = Board::with_values([0, 2, 0, 2, 0, 2, 0, 2, 0, 2, 0, 0, 0, 2, 2, 0], 0);

    let changed = game.apply_move(Move::Down);

    assert_eq!(
        game,
        Board::with_values([0, 0, 0, 0, 0, 0, 0, 0, 0, 4, 0, 0, 0, 4, 2, 4], 12)
    );
    assert!(changed);

    let mut game = Board::with_values([0, 2, 4, 2, 4, 2, 0, 0, 2, 0, 2, 0, 0, 8, 2, 2], 0);

    let changed = game.apply_move(Move::Down);

    assert_eq!(
        game,
        Board::with_values([0, 0, 0, 0, 0, 0, 0, 0, 4, 4, 4, 0, 2, 8, 4, 4], 12)
    );
    assert!(changed);

    let mut game = Board::with_values([2, 0, 4, 2, 2, 2, 0, 2, 2, 2, 2, 0, 2, 4, 2, 2], 0);

    let changed = game.apply_move(Move::Down);

    assert_eq!(
        game,
        Board::with_values([0, 0, 0, 0, 0, 0, 0, 0, 4, 4, 4, 2, 4, 4, 4, 4], 20)
    );
    assert!(changed);

    let mut game = Board::with_values([0, 0, 0, 0, 0, 0, 0, 2, 0, 0, 2, 4, 0, 2, 4, 8], 0);

    let changed = game.apply_move(Move::Down);

    assert_eq!(
        game,
        Board::with_values([0, 0, 0, 0, 0, 0, 0, 2, 0, 0, 2, 4, 0, 2, 4, 8], 0)
    );
    assert!(!changed);
}

#[test]
fn move_up() {
    let mut game = Board::with_values([0, 0, 2, 2, 0, 2, 2, 2, 0, 0, 0, 2, 2, 2, 2, 0], 0);

    let changed = game.apply_move(Move::Up);

    assert_eq!(
        game,
        Board::with_values([2, 4, 4, 4, 0, 0, 2, 2, 0, 0, 0, 0, 0, 0, 0, 0], 12)
    );
    assert!(changed);

    let mut game = Board::with_values([0, 2, 2, 0, 0, 2, 0, 0, 0, 2, 0, 2, 0, 2, 0, 2], 0);

    let changed = game.apply_move(Move::Up);

    assert_eq!(
        game,
        Board::with_values([0, 4, 2, 4, 0, 4, 0, 0, 0, 0, 0, 0, 0, 0, 0, 0], 12)
    );
    assert!(changed);

    let mut game = Board::with_values([0, 8, 2, 2, 2, 0, 2, 0, 4, 2, 0, 0, 0, 2, 4, 2], 0);

    let changed = game.apply_move(Move::Up);

    assert_eq!(
        game,
        Board::with_values([2, 8, 4, 4, 4, 4, 4, 0, 0, 0, 0, 0, 0, 0, 0, 0], 12)
    );
    assert!(changed);

    let mut game = Board::with_values([2, 4, 2, 2, 2, 2, 2, 0, 2, 2, 0, 2, 2, 0, 4, 2], 0);

    let changed = game.apply_move(Move::Up);

    assert_eq!(
        game,
        Board::with_values([4, 4, 4, 4, 4, 4, 4, 2, 0, 0, 0, 0, 0, 0, 0, 0], 20)
    );
    assert!(changed);

    let mut game = Board::with_values([8, 4, 2, 0, 4, 2, 0, 0, 2, 0, 0, 0, 0, 0, 0, 0], 0);

    let changed = game.apply_move(Move::Up);

    assert_eq!(
        game,
        Board::with_values([8, 4, 2, 0, 4, 2, 0, 0, 2, 0, 0, 0, 0, 0, 0, 0], 0)
    );
    assert!(!changed);
}

#[test]
fn is_over() {
    let game = Board::with_values([8, 4, 2, 4, 2, 8, 4, 2, 8, 4, 2, 4, 2, 8, 4, 4], 0);

    assert!(!game.is_over());

    let game = Board::with_values([4, 4, 2, 4, 2, 8, 4, 2, 8, 4, 2, 4, 2, 8, 4, 2], 0);

    assert!(!game.is_over());

    let game = Board::with_values([8, 4, 2, 4, 2, 8, 4, 2, 8, 4, 4, 4, 2, 8, 4, 2], 0);

    assert!(!game.is_over());

    let game = Board::with_values([8, 4, 2, 4, 2, 8, 4, 2, 8, 4, 2, 4, 2, 8, 4, 2], 0);

    assert!(game.is_over());
}

#[test]
fn as_rows() {
    let game = Board::with_values([8, 4, 2, 4, 2, 8, 4, 2, 8, 4, 2, 4, 2, 8, 4, 4], 0);
    assert_eq!(
        game.as_rows(),
        vec![
            vec![8, 4, 2, 4],
            vec![2, 8, 4, 2],
            vec![8, 4, 2, 4],
            vec![2, 8, 4, 4],
        ]
    );
}
