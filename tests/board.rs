use tiles2048::tile::magnitude;
use tiles2048::{BoardState, Direction, MovingTile, PlayBoard, Tile, EMPTY};

fn tile_total(b: &PlayBoard) -> usize {
    let n = b.board_size();
    let mut count = 0;
    for y in 0..n {
        for x in 0..n {
            if b.value_at(x, y) != EMPTY {
                count += 1;
            }
        }
    }
    count
}

fn snapshot(b: &PlayBoard) -> Vec<Vec<usize>> {
    let n = b.board_size();
    (0..n).map(|y| (0..n).map(|x| b.value_at(x, y)).collect()).collect()
}

// Builds a board holding the given ranks, `EMPTY` for an empty cell.
fn board_from_rows(rows: &[&[usize]]) -> PlayBoard {
    let n = rows.len();
    let mut b = PlayBoard::new(n);
    let mut cells = Vec::new();
    for y in 0..n {
        for x in 0..n {
            if rows[y][x] != EMPTY {
                cells.push((x, y, rows[y][x]));
            }
        }
    }
    for &(x, y, r) in cells.iter() {
        let empties = b.empty_cells();
        let choice = empties.iter().position(|&c| c == (x, y)).unwrap();
        b.place_tile(choice, r);
    }
    b
}

fn settle(b: &mut PlayBoard) {
    let mut guard = 0;
    while b.state() == BoardState::Moving {
        b.update(u64::MAX);
        guard += 1;
        assert!(guard < 10);
    }
}

#[test]
fn two_equal_tiles_merge_left() {
    let mut b = PlayBoard::new(4);
    b.place_tile(0, 0);
    b.place_tile(0, 0);
    assert_eq!(b.value_at(0, 0), 0);
    assert_eq!(b.value_at(1, 0), 0);
    b.slide(Direction::Left);
    assert_eq!(b.state(), BoardState::Moving);
    assert_eq!(b.moving_tiles(), &vec![MovingTile::new(1, 0, 0, 0, 0, true)]);
    assert_eq!(b.value_at(0, 0), 0);
    assert_eq!(b.value_at(1, 0), EMPTY);
    b.update(u64::MAX);
    assert_eq!(b.value_at(0, 0), 1);
    assert_eq!(tile_total(&b), 2);
    assert_eq!(b.score(), 4);
    assert_ne!(b.state(), BoardState::Moving);
}

#[test]
fn row_of_pairs_merges_twice() {
    let mut b = PlayBoard::new(4);
    for r in [0, 0, 1, 1] {
        b.place_tile(0, r);
    }
    b.slide(Direction::Left);
    let expected = vec![
        MovingTile::new(1, 0, 0, 0, 0, true),
        MovingTile::new(2, 0, 1, 0, 1, false),
        MovingTile::new(3, 0, 1, 0, 1, true),
    ];
    assert_eq!(b.moving_tiles(), &expected);
    assert_eq!(
        (b.value_at(0, 0), b.value_at(1, 0), b.value_at(2, 0), b.value_at(3, 0)),
        (0, EMPTY, EMPTY, EMPTY)
    );
    b.update(u64::MAX);
    assert_eq!(b.value_at(0, 0), 1);
    assert_eq!(b.value_at(1, 0), 2);
    assert_eq!(tile_total(&b), 3);
    assert_eq!(b.score(), 12);
}

#[test]
fn stuck_board_ignores_slides() {
    let n = 4;
    let mut b = PlayBoard::new(n);
    for y in 0..n {
        for x in 0..n {
            b.place_tile(0, (x + 2 * y) % 4);
        }
    }
    assert!(b.game_over());
    b.check_game_over();
    assert_eq!(b.state(), BoardState::GameOver);
    let before = snapshot(&b);
    for d in [Direction::Left, Direction::Right, Direction::Up, Direction::Down] {
        b.slide(d);
        assert_eq!(snapshot(&b), before);
        assert_eq!(b.state(), BoardState::GameOver);
        assert!(b.moving_tiles().is_empty());
    }
}

#[test]
fn reset_leaves_one_tile() {
    let mut b = PlayBoard::new(4);
    b.place_tile(0, 3);
    b.place_tile(0, 3);
    b.slide(Direction::Left);
    b.update(u64::MAX);
    assert_eq!(b.score(), 32);
    b.reset();
    assert_eq!(tile_total(&b), 1);
    assert_eq!(b.score(), 0);
    assert_eq!(b.state(), BoardState::Idle);
    assert!(b.moving_tiles().is_empty());
}

#[test]
fn reset_while_moving_and_after_game_over() {
    let mut b = PlayBoard::new(4);
    b.place_tile(3, 0);
    b.slide(Direction::Left);
    assert_eq!(b.state(), BoardState::Moving);
    b.reset();
    assert_eq!(tile_total(&b), 1);
    assert_eq!(b.state(), BoardState::Idle);
    assert!(b.moving_tiles().is_empty());

    let mut s = PlayBoard::new(2);
    for r in [0, 1, 1, 0] {
        s.place_tile(0, r);
    }
    s.check_game_over();
    assert_eq!(s.state(), BoardState::GameOver);
    s.reset();
    assert_eq!(tile_total(&s), 1);
    assert_eq!(s.score(), 0);
    assert_eq!(s.state(), BoardState::Idle);
}

#[test]
fn slide_without_moves_keeps_board() {
    let mut b = board_from_rows(&[
        &[0, EMPTY, EMPTY, EMPTY],
        &[1, EMPTY, EMPTY, EMPTY],
        &[2, 3, EMPTY, EMPTY],
        &[EMPTY, EMPTY, EMPTY, EMPTY],
    ]);
    let before = snapshot(&b);
    b.slide(Direction::Left);
    assert!(b.moving_tiles().is_empty());
    assert_eq!(b.state(), BoardState::Idle);
    assert_eq!(snapshot(&b), before);
}

#[test]
fn three_equal_tiles_merge_once() {
    let mut b = board_from_rows(&[
        &[2, 2, 2, EMPTY],
        &[EMPTY, EMPTY, EMPTY, EMPTY],
        &[EMPTY, EMPTY, EMPTY, EMPTY],
        &[EMPTY, EMPTY, EMPTY, EMPTY],
    ]);
    b.slide(Direction::Left);
    let mts = b.moving_tiles().clone();
    assert_eq!(mts.iter().filter(|m| m.combine).count(), 1);
    b.update(u64::MAX);
    assert_eq!(b.value_at(0, 0), 3);
    assert_eq!(b.value_at(1, 0), 2);
    assert_eq!(b.score(), 16);
    assert_eq!(tile_total(&b), 3);
}

#[test]
fn four_equal_tiles_make_two_pairs() {
    let mut b = board_from_rows(&[
        &[1, 1, 1, 1],
        &[EMPTY, EMPTY, EMPTY, EMPTY],
        &[EMPTY, EMPTY, EMPTY, EMPTY],
        &[EMPTY, EMPTY, EMPTY, EMPTY],
    ]);
    b.slide(Direction::Right);
    b.update(u64::MAX);
    assert_eq!(b.value_at(3, 0), 2);
    assert_eq!(b.value_at(2, 0), 2);
    assert_eq!(b.score(), 16);
    assert_eq!(tile_total(&b), 3);
}

#[test]
fn slide_up_and_down_follow_columns() {
    let mut b = board_from_rows(&[
        &[EMPTY, 4, EMPTY, EMPTY],
        &[0, EMPTY, EMPTY, EMPTY],
        &[EMPTY, 4, EMPTY, EMPTY],
        &[0, 5, EMPTY, EMPTY],
    ]);
    b.slide(Direction::Up);
    settle(&mut b);
    assert_eq!(b.value_at(0, 0), 1);
    assert_eq!(b.value_at(1, 0), 5);
    assert_eq!(b.value_at(1, 1), 5);
    assert_eq!(b.score(), 4 + 64);

    let mut c = board_from_rows(&[
        &[3, EMPTY, EMPTY],
        &[2, EMPTY, EMPTY],
        &[EMPTY, EMPTY, EMPTY],
    ]);
    c.slide(Direction::Down);
    assert_eq!(c.moving_tiles().len(), 2);
    settle(&mut c);
    assert_eq!(c.value_at(0, 2), 2);
    assert_eq!(c.value_at(0, 1), 3);
    assert_eq!(c.score(), 0);
}

#[test]
fn slide_ignored_while_moving() {
    let mut b = PlayBoard::new(4);
    b.place_tile(3, 0);
    b.slide(Direction::Left);
    let first = b.moving_tiles().clone();
    b.slide(Direction::Right);
    assert_eq!(b.moving_tiles(), &first);
}

#[test]
fn tiles_arrive_after_enough_steps() {
    let mut b = PlayBoard::new(4);
    b.place_tile(3, 2);
    b.slide(Direction::Left);
    assert_eq!(b.value_at(3, 0), EMPTY);
    b.update(1000);
    assert_eq!(b.state(), BoardState::Moving);
    assert_eq!(b.moving_tiles()[0].travelled, 1000);
    b.update(1500);
    assert_eq!(b.state(), BoardState::Moving);
    b.update(1500);
    assert_ne!(b.state(), BoardState::Moving);
    assert_eq!(b.value_at(0, 0), 2);
    assert_eq!(tile_total(&b), 2);
}

#[test]
fn game_over_needs_full_board_without_pairs() {
    let mut b = PlayBoard::new(2);
    b.place_tile(0, 0);
    b.place_tile(0, 1);
    b.place_tile(0, 1);
    assert!(!b.game_over());
    b.place_tile(0, 0);
    assert!(b.game_over());

    let mut c = PlayBoard::new(2);
    for r in [0, 1, 2, 2] {
        c.place_tile(0, r);
    }
    assert!(!c.game_over());

    let mut d = PlayBoard::new(2);
    for r in [0, 1, 0, 2] {
        d.place_tile(0, r);
    }
    assert!(!d.game_over());
}

#[test]
fn game_over_is_reached_at_end_of_move() {
    let mut b = board_from_rows(&[&[2, 3], &[EMPTY, 4]]);
    b.slide(Direction::Down);
    assert_eq!(b.state(), BoardState::Moving);
    settle(&mut b);
    assert_eq!(b.value_at(0, 1), 2);
    assert!(b.value_at(0, 0) <= 1);
    assert_eq!(tile_total(&b), 4);
    assert_eq!(b.state(), BoardState::GameOver);
    assert_eq!(b.highscore(), 0);
}

#[test]
fn spawn_places_low_rank_on_empty_cell() {
    for _ in 0..20 {
        let mut b = PlayBoard::new(3);
        b.spawn_tile();
        assert_eq!(tile_total(&b), 1);
        let mut found = false;
        for y in 0..3 {
            for x in 0..3 {
                let v = b.value_at(x, y);
                if v != EMPTY {
                    assert!(v <= 1);
                    found = true;
                }
            }
        }
        assert!(found);
    }
}

#[test]
fn spawn_on_full_board_does_nothing() {
    let mut b = PlayBoard::new(1);
    b.place_tile(0, 4);
    b.spawn_tile();
    assert_eq!(b.value_at(0, 0), 4);
}

#[test]
fn place_tile_out_of_range_does_nothing() {
    let mut b = PlayBoard::new(2);
    b.place_tile(4, 0);
    assert_eq!(tile_total(&b), 0);
    assert_eq!(b.empty_cells(), vec![(0, 0), (1, 0), (0, 1), (1, 1)]);
    b.place_tile(2, 7);
    assert_eq!(b.value_at(0, 1), 7);
    assert_eq!(b.empty_cells(), vec![(0, 0), (1, 0), (1, 1)]);
}

#[test]
fn merge_score_is_number_of_new_tile() {
    let mut b = PlayBoard::new(3);
    b.place_tile(0, 5);
    b.place_tile(1, 5);
    b.slide(Direction::Left);
    b.update(u64::MAX);
    assert_eq!(b.value_at(0, 0), 6);
    assert_eq!(b.score(), 128);
}

#[test]
fn top_rank_tiles_stay_apart() {
    let mut b = PlayBoard::new(2);
    b.place_tile(0, tiles2048::TOP_RANK);
    b.place_tile(0, tiles2048::TOP_RANK);
    b.slide(Direction::Left);
    assert!(b.moving_tiles().is_empty());
    assert_eq!(b.state(), BoardState::Idle);
}

#[test]
fn new_board_is_empty_and_idle() {
    let b = PlayBoard::new(5);
    assert_eq!(b.board_size(), 5);
    assert_eq!(tile_total(&b), 0);
    assert_eq!(b.state(), BoardState::Idle);
    assert_eq!(b.score(), 0);
    assert_eq!(b.highscore(), 0);
}

#[test]
fn moving_tile_stops_at_destination() {
    let mut m = MovingTile::new(3, 1, 0, 1, 2, false);
    assert_eq!(m.distance(), 3000);
    assert!(!m.is_finished());
    m.advance(1200);
    assert_eq!(m.travelled, 1200);
    assert!(!m.is_finished());
    m.advance(5000);
    assert_eq!(m.travelled, 3000);
    assert!(m.is_finished());
    let v = MovingTile::new(2, 0, 2, 3, 1, true);
    assert_eq!(v.distance(), 3000);
}

#[test]
fn tile_constructors() {
    let mut t = Tile::new(3);
    assert_eq!(t.value, 3);
    t.reset();
    assert_eq!(t, Tile::empty());
    assert_eq!(Tile::empty().value, EMPTY);
}

#[test]
fn magnitudes() {
    assert_eq!(magnitude(0), 2);
    assert_eq!(magnitude(1), 4);
    assert_eq!(magnitude(10), 2048);
    assert_eq!(magnitude(62), 1u64 << 63);
}

#[test]
fn settled_slide_loses_one_tile_per_merge() {
    let rows: &[&[usize]] = &[
        &[0, 0, 1, EMPTY],
        &[2, EMPTY, 2, 2],
        &[EMPTY, 3, EMPTY, 4],
        &[1, 1, 1, 1],
    ];
    for d in [Direction::Left, Direction::Right, Direction::Up, Direction::Down] {
        let mut b = board_from_rows(rows);
        let before = tile_total(&b);
        b.slide(d);
        assert!(!b.moving_tiles().is_empty());
        let merges = b.moving_tiles().iter().filter(|m| m.combine).count();
        b.update(u64::MAX);
        assert_ne!(b.state(), BoardState::Moving);
        // One tile appears once the move is over.
        assert_eq!(tile_total(&b), before - merges + 1);
    }
}

#[test]
fn slide_left_exact_rows() {
    let mut b = board_from_rows(&[
        &[0, 0, 1, EMPTY],
        &[2, EMPTY, 2, 2],
        &[EMPTY, 3, EMPTY, 4],
        &[1, 1, 1, 1],
    ]);
    b.slide(Direction::Left);
    b.update(u64::MAX);
    assert_eq!((b.value_at(0, 0), b.value_at(1, 0)), (1, 1));
    assert_eq!((b.value_at(0, 1), b.value_at(1, 1)), (3, 2));
    assert_eq!((b.value_at(0, 2), b.value_at(1, 2)), (3, 4));
    assert_eq!((b.value_at(0, 3), b.value_at(1, 3)), (2, 2));
    assert_eq!(b.score(), 4 + 16 + 8 + 8);
}

#[test]
fn row_of_pairs_same_result_in_small_steps() {
    let mut b = PlayBoard::new(4);
    for r in [0, 0, 1, 1] {
        b.place_tile(0, r);
    }
    b.slide(Direction::Left);
    let mut ticks = 0;
    while b.state() == BoardState::Moving {
        b.update(250);
        ticks += 1;
        assert!(ticks < 100);
    }
    assert_eq!(b.value_at(0, 0), 1);
    assert_eq!(b.value_at(1, 0), 2);
    assert_eq!(b.score(), 12);
}

#[test]
fn three_in_a_row_same_result_in_small_steps() {
    let mut b = PlayBoard::new(3);
    for r in [0, 0, 0] {
        b.place_tile(0, r);
    }
    b.slide(Direction::Left);
    while b.state() == BoardState::Moving {
        b.update(1000);
    }
    assert_eq!(b.value_at(0, 0), 1);
    assert_eq!(b.value_at(1, 0), 0);
    assert_eq!(b.score(), 4);
}

#[test]
fn highest_mergeable_rank_scores_two_to_the_63() {
    let top = tiles2048::TOP_RANK;
    let mut b = PlayBoard::new(2);
    b.place_tile(0, top - 1);
    b.place_tile(0, top - 1);
    b.slide(Direction::Left);
    b.update(u64::MAX);
    assert_eq!(b.value_at(0, 0), top);
    assert_eq!(b.score(), 1u64 << 63);
}
