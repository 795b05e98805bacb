use caei_core::{index, Board, Move};

fn flat(board: &Board) -> Vec<u64> {
    let mut cells = Vec::new();
    for row in board.as_rows() {
        for v in row {
            cells.push(v);
        }
    }
    cells
}

fn tile_count(board: &Board) -> usize {
    flat(board).iter().filter(|v| **v != 0).count()
}

#[test]
fn cell_index_is_row_major() {
    assert_eq!(index(0, 0), 0);
    assert_eq!(index(0, 3), 3);
    assert_eq!(index(2, 3), 11);
    assert_eq!(index(3, 0), 12);
}

#[test]
fn merge_once_per_move() {
    // a full line of equal tiles merges into two pairs, never into one tile
    let mut game = Board::with_values([2, 2, 2, 2, 0, 0, 0, 0, 0, 0, 0, 0, 0, 0, 0, 0], 0);

    let changed = game.apply_move(Move::Left);

    assert_eq!(
        game,
        Board::with_values([4, 4, 0, 0, 0, 0, 0, 0, 0, 0, 0, 0, 0, 0, 0, 0], 8)
    );
    assert!(changed);
}

#[test]
fn merging_a_pair_adds_its_sum_to_the_score() {
    let mut game = Board::with_values([2, 2, 0, 0, 0, 0, 0, 0, 0, 0, 0, 0, 0, 0, 0, 0], 0);
    game.apply_move(Move::Left);
    assert_eq!(game.score, 4);

    let mut game = Board::with_values([0, 0, 16, 16, 0, 0, 0, 0, 0, 0, 0, 0, 0, 0, 0, 0], 10);
    game.apply_move(Move::Right);
    assert_eq!(game.score, 42);
}

#[test]
fn terminal_grid_and_one_pair_away() {
    // no empty cell and no equal neighbours: the game is over
    let game = Board::with_values([8, 4, 2, 4, 2, 8, 4, 2, 8, 4, 2, 4, 2, 8, 4, 2], 0);
    assert!(game.is_over());

    // the same grid with one cell changed to create an adjacent equal pair
    let game = Board::with_values([8, 8, 2, 4, 2, 8, 4, 2, 8, 4, 2, 4, 2, 8, 4, 2], 0);
    assert!(!game.is_over());
}

#[test]
fn spawn_on_full_board_is_a_no_op() {
    let full = [8, 4, 2, 4, 2, 8, 4, 2, 8, 4, 2, 4, 2, 8, 4, 2];
    let mut game = Board::with_values(full, 7);
    game.set_free_random(2);
    assert_eq!(game, Board::with_values(full, 7));
}

#[test]
fn spawn_fills_the_single_free_cell() {
    let mut game = Board::with_values([8, 4, 2, 4, 2, 0, 4, 2, 8, 4, 2, 4, 2, 8, 4, 2], 0);
    game.set_free_random(16);
    assert_eq!(
        game,
        Board::with_values([8, 4, 2, 4, 2, 16, 4, 2, 8, 4, 2, 4, 2, 8, 4, 2], 0)
    );
}

#[test]
fn new_game_has_a_two_and_a_four() {
    let game = Board::new();
    assert_eq!(game.score, 0);
    let cells = flat(&game);
    assert_eq!(cells.len(), 16);
    assert_eq!(cells.iter().filter(|v| **v == 0).count(), 14);
    assert_eq!(cells.iter().filter(|v| **v == 2).count(), 1);
    assert_eq!(cells.iter().filter(|v| **v == 4).count(), 1);
}

#[test]
fn moves_never_increase_the_tile_count() {
    let boards = [
        [0, 0, 0, 2, 0, 2, 0, 2, 2, 2, 0, 2, 2, 2, 2, 0],
        [2, 2, 2, 2, 4, 2, 2, 0, 2, 2, 0, 4, 2, 0, 2, 2],
        [0, 8, 2, 2, 2, 0, 2, 0, 4, 2, 0, 0, 0, 2, 4, 2],
    ];
    for cells in boards {
        let mut game = Board::with_values(cells, 0);
        let before = tile_count(&game);
        game.apply_move(Move::Up);
        assert!(tile_count(&game) <= before);
    }
}

#[test]
fn unchanged_move_stays_unchanged() {
    let packed = [2, 4, 8, 2, 4, 8, 2, 4, 8, 2, 4, 8, 2, 4, 8, 2];
    let mut game = Board::with_values(packed, 3);

    let changed = game.apply_move(Move::Left);
    assert!(!changed);
    assert_eq!(game, Board::with_values(packed, 3));

    let changed = game.apply_move(Move::Left);
    assert!(!changed);
    assert_eq!(game, Board::with_values(packed, 3));
}

#[test]
fn round_spawns_one_tile_after_a_change() {
    let mut game = Board::with_values([0, 0, 0, 2, 0, 2, 0, 2, 2, 2, 0, 2, 2, 2, 2, 0], 0);

    let over = game.round(Move::Left);

    assert!(!over);
    assert_eq!(game.score, 12);
    let expected = [2u64, 0, 0, 0, 4, 0, 0, 0, 4, 2, 0, 0, 4, 2, 0, 0];
    let cells = flat(&game);
    let mut spawned = 0;
    for i in 0..16 {
        if cells[i] != expected[i] {
            // the only difference is one 2-tile spawned in a free cell
            assert_eq!(expected[i], 0);
            assert_eq!(cells[i], 2);
            spawned += 1;
        }
    }
    assert_eq!(spawned, 1);
}

#[test]
fn round_without_change_spawns_nothing() {
    let packed = [2, 4, 8, 2, 4, 8, 2, 4, 8, 2, 4, 8, 2, 4, 8, 2];
    let mut game = Board::with_values(packed, 0);

    let over = game.round(Move::Left);

    assert!(over);
    assert_eq!(game, Board::with_values(packed, 0));
}
