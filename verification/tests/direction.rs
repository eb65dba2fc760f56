use guard_patrol::Dir;

#[test]
fn rotate_follows_the_turning_order() {
    assert_eq!(Dir::N.rotate(), Dir::E);
    assert_eq!(Dir::E.rotate(), Dir::S);
    assert_eq!(Dir::S.rotate(), Dir::W);
    assert_eq!(Dir::W.rotate(), Dir::N);
}

#[test]
fn four_turns_restore_every_heading() {
    for dir in [Dir::N, Dir::E, Dir::S, Dir::W] {
        assert_eq!(dir.rotate().rotate().rotate().rotate(), dir);
        assert_ne!(dir.rotate(), dir);
        assert_ne!(dir.rotate().rotate(), dir);
        assert_ne!(dir.rotate().rotate().rotate(), dir);
    }
}

#[test]
fn step_north_moves_one_row_up() {
    assert_eq!(Dir::N.step(70, 11, 110), Some(59));
    assert_eq!(Dir::N.step(11, 11, 110), Some(0));
}

#[test]
fn step_north_is_refused_in_the_first_row() {
    assert_eq!(Dir::N.step(0, 11, 110), None);
    assert_eq!(Dir::N.step(10, 11, 110), None);
}

#[test]
fn step_south_moves_one_row_down() {
    assert_eq!(Dir::S.step(0, 11, 110), Some(11));
    assert_eq!(Dir::S.step(98, 11, 110), Some(109));
}

#[test]
fn step_south_is_refused_in_the_last_row() {
    assert_eq!(Dir::S.step(99, 11, 110), None);
    assert_eq!(Dir::S.step(109, 11, 110), None);
}

#[test]
fn step_east_moves_one_position_right() {
    assert_eq!(Dir::E.step(0, 11, 110), Some(1));
    assert_eq!(Dir::E.step(8, 11, 110), Some(9));
}

#[test]
fn step_east_enters_the_terminator_column_and_stops_there() {
    assert_eq!(Dir::E.step(9, 11, 110), Some(10));
    assert_eq!(Dir::E.step(10, 11, 110), None);
    assert_eq!(Dir::E.step(109, 11, 110), None);
}

#[test]
fn step_west_moves_one_position_left() {
    assert_eq!(Dir::W.step(10, 11, 110), Some(9));
    assert_eq!(Dir::W.step(12, 11, 110), Some(11));
}

#[test]
fn step_west_is_refused_in_the_first_column() {
    assert_eq!(Dir::W.step(0, 11, 110), None);
    assert_eq!(Dir::W.step(11, 11, 110), None);
    assert_eq!(Dir::W.step(99, 11, 110), None);
}

#[test]
fn step_from_a_corner_facing_north_exits_at_once() {
    assert_eq!(Dir::N.step(0, 4, 8), None);
    assert_eq!(Dir::N.step(2, 4, 8), None);
}

#[test]
fn step_stays_on_a_grid_of_whole_rows() {
    let line_len = 4;
    let grid_len = 12;
    for pos in 0..grid_len {
        for dir in [Dir::N, Dir::E, Dir::S, Dir::W] {
            if let Some(next) = dir.step(pos, line_len, grid_len) {
                assert!(next < grid_len);
            }
        }
    }
}

#[test]
fn step_in_a_single_column_grid() {
    assert_eq!(Dir::E.step(0, 1, 3), None);
    assert_eq!(Dir::W.step(1, 1, 3), None);
    assert_eq!(Dir::S.step(1, 1, 3), Some(2));
    assert_eq!(Dir::N.step(1, 1, 3), Some(0));
}
