use minesweeper::error::GameError;
use minesweeper::game::{Game, MoveOutcome};
use minesweeper::geometry::{surrounding_squares, Position};

fn pos(x: usize, y: usize) -> Position {
    Position { x, y }
}

#[test]
fn won_at_once_on_single_cell() {
    let game = Game::start(1, 1, 0, pos(0, 0)).unwrap();
    assert!(game.check_won());
    assert_eq!(game.move_count(), 1);
    assert_eq!(game.dimensions(), (1, 1));
    assert_eq!(game.render_cell(pos(0, 0)), ' ');
}

#[test]
fn all_revealed_with_no_bombs() {
    let game = Game::start(3, 3, 0, pos(1, 1)).unwrap();
    for x in 0..3 {
        for y in 0..3 {
            assert_eq!(game.render_cell(pos(x, y)), ' ');
        }
    }
    assert!(game.check_won());
}

#[test]
fn rejects_bombs_that_cannot_fit() {
    // An interior opening protects all nine cells of a 3x3 board, so not
    // even one bomb can be placed.
    match Game::start(3, 3, 8, pos(1, 1)) {
        Err(GameError::InvalidConfigError) => {}
        other => panic!("expected InvalidConfigError, got {:?}", other),
    }
}

#[test]
fn eight_bombs_show_the_digit_eight() {
    // 5x3 board, opening in the right corner; the eight neighbors of
    // (1,1) are all mined. Safe indices are 3, 4, 8, 9; the mined cells
    // 0, 1, 2, 5, 7, 10, 11, 12 sit at those offsets of the non-safe
    // list.
    let picks = vec![0, 1, 2, 3, 5, 6, 7, 8];
    let mut game = Game::start_with_picks(5, 3, 8, pos(4, 0), &picks);
    assert_eq!(game.render_cell(pos(1, 1)), 'x');
    assert_eq!(game.make_move(pos(1, 1)), Ok(MoveOutcome::Won));
    assert_eq!(game.render_cell(pos(1, 1)), '8');
}

#[test]
fn lone_mine_scenario() {
    // 5x5 board, opening at (0,0), the one mine at (4,4): offset 20 of
    // the 21 non-safe cells.
    let picks = vec![20];
    let mut game = Game::start_with_picks(5, 5, 1, pos(0, 0), &picks);
    // The safe region around the opening is revealed.
    assert_eq!(game.render_cell(pos(0, 0)), ' ');
    assert_eq!(game.render_cell(pos(1, 0)), ' ');
    assert_eq!(game.render_cell(pos(0, 1)), ' ');
    assert_eq!(game.render_cell(pos(1, 1)), ' ');
    // The mine stays hidden; the opening flood-fill has already revealed
    // every other cell, among them (3,3), which shows its count.
    assert_eq!(game.render_cell(pos(4, 4)), 'x');
    assert_eq!(game.render_cell(pos(3, 3)), '1');
    assert_eq!(game.make_move(pos(3, 3)), Err(GameError::RepeatMoveError));
    assert_eq!(game.move_count(), 1);
    assert_eq!(game.make_move(pos(4, 4)), Ok(MoveOutcome::Lost));
    assert_eq!(game.move_count(), 2);
    // Losing does not rewrite the board.
    assert_eq!(game.render_cell(pos(4, 4)), 'x');
}

#[test]
fn rejects_out_of_bounds_opening() {
    match Game::start(3, 3, 1, pos(3, 0)) {
        Err(GameError::OutOfBoundsError { x: 3, y: 0 }) => {}
        other => panic!("expected OutOfBoundsError, got {:?}", other),
    }
}

#[test]
fn repeat_move_is_rejected_without_counting() {
    // 4x4 board, mines at (3,0) and (3,3); the opening flood leaves
    // exactly (3,1) and (3,2) covered.
    let picks = vec![1, 11];
    let mut game = Game::start_with_picks(4, 4, 2, pos(0, 0), &picks);
    assert_eq!(game.render_cell(pos(3, 1)), 'x');
    assert_eq!(game.render_cell(pos(3, 2)), 'x');
    assert_eq!(game.make_move(pos(3, 1)), Ok(MoveOutcome::Continue));
    assert_eq!(game.render_cell(pos(3, 1)), '1');
    assert_eq!(game.move_count(), 2);
    assert_eq!(game.make_move(pos(3, 1)), Err(GameError::RepeatMoveError));
    assert_eq!(game.move_count(), 2);
    assert_eq!(game.make_move(pos(3, 2)), Ok(MoveOutcome::Won));
    assert_eq!(game.move_count(), 3);
}

#[test]
fn out_of_bounds_move_is_invalid() {
    let mut game = Game::start(3, 3, 0, pos(1, 1)).unwrap();
    assert_eq!(game.make_move(pos(3, 1)), Err(GameError::InvalidMoveError));
    assert_eq!(game.make_move(pos(1, 3)), Err(GameError::InvalidMoveError));
    assert_eq!(game.move_count(), 1);
}

#[test]
fn rejects_overflowing_dimensions() {
    match Game::start(usize::MAX, 2, 0, pos(0, 0)) {
        Err(GameError::InvalidConfigError) => {}
        other => panic!("expected InvalidConfigError, got {:?}", other),
    }
}

#[test]
fn every_non_safe_cell_mined_wins_at_once() {
    // 5x5 with 21 bombs: every cell outside the opening's safe region is
    // mined, so the board is won the moment it is built, and any move
    // outside the safe region loses.
    let mut game = Game::start(5, 5, 21, pos(0, 0)).unwrap();
    assert!(game.check_won());
    assert_eq!(game.render_cell(pos(4, 4)), 'x');
    assert_eq!(game.render_cell(pos(0, 0)), ' ');
    assert_eq!(game.render_cell(pos(1, 1)), '5');
    assert_eq!(game.make_move(pos(2, 2)), Ok(MoveOutcome::Lost));
}

#[test]
fn index_position_round_trip() {
    // A non-square board exercises the stride.
    let game = Game::start(4, 3, 0, pos(0, 0)).unwrap();
    for i in 0..12 {
        let p = game.board.position_from_index(i);
        assert_eq!(game.board.index_from_position(&p), i);
    }
    for x in 0..4 {
        for y in 0..3 {
            let i = game.board.index_from_position(&pos(x, y));
            let p = game.board.position_from_index(i);
            assert_eq!((p.x, p.y), (x, y));
        }
    }
}

#[test]
fn neighborhood_sizes() {
    assert_eq!(surrounding_squares(pos(0, 0), 3, 3).len(), 4);
    assert_eq!(surrounding_squares(pos(2, 2), 3, 3).len(), 4);
    assert_eq!(surrounding_squares(pos(1, 0), 3, 3).len(), 6);
    assert_eq!(surrounding_squares(pos(0, 1), 3, 3).len(), 6);
    assert_eq!(surrounding_squares(pos(1, 1), 3, 3).len(), 9);
    assert_eq!(surrounding_squares(pos(0, 0), 1, 1).len(), 1);
}

#[test]
fn same_picks_same_board() {
    let picks = vec![1, 11];
    let a = Game::start_with_picks(4, 4, 2, pos(0, 0), &picks);
    let b = Game::start_with_picks(4, 4, 2, pos(0, 0), &picks);
    for x in 0..4 {
        for y in 0..4 {
            assert_eq!(a.render_cell(pos(x, y)), b.render_cell(pos(x, y)));
        }
    }
    assert_eq!(a.move_count(), b.move_count());
}

#[test]
fn move_floods_zero_region() {
    // 5x1 strip with the mine at (2,0): the opening reveals (0,0) and
    // (1,0); the far side stays covered until a move lands there, and
    // that move floods the whole zero-count region at once.
    let picks = vec![0];
    let mut game = Game::start_with_picks(5, 1, 1, pos(0, 0), &picks);
    assert_eq!(game.render_cell(pos(1, 0)), '1');
    assert_eq!(game.render_cell(pos(3, 0)), 'x');
    assert_eq!(game.render_cell(pos(4, 0)), 'x');
    assert_eq!(game.make_move(pos(4, 0)), Ok(MoveOutcome::Won));
    assert_eq!(game.render_cell(pos(3, 0)), '1');
    assert_eq!(game.render_cell(pos(4, 0)), ' ');
    assert_eq!(game.render_cell(pos(2, 0)), 'x');
}

#[test]
fn mine_count_is_kept_through_play() {
    // Two mines are placed; after winning, exactly the two mined cells
    // still hide behind the mark.
    let picks = vec![1, 11];
    let mut game = Game::start_with_picks(4, 4, 2, pos(0, 0), &picks);
    let _ = game.make_move(pos(3, 1));
    let _ = game.make_move(pos(3, 2));
    let mut hidden: usize = 0;
    for x in 0..4 {
        for y in 0..4 {
            if game.render_cell(pos(x, y)) == 'x' {
                hidden += 1;
            }
        }
    }
    assert_eq!(hidden, 2);
}
