use guard_patrol::{parse, GridError, Layout};

const CLASSIC: &str = "....#.....\n.........#\n..........\n..#.......\n.......#..\n..........\n.#..^.....\n........#.\n#.........\n......#...";

#[test]
fn parse_measures_the_classic_plan() {
    let expected = Layout { rows: 10, cols: 10, line_len: 11, grid_len: 110, start_pos: 70 };
    assert_eq!(parse(CLASSIC), Ok(expected));
}

#[test]
fn parse_takes_a_final_terminator_or_none() {
    let with_terminator = format!("{}\n", CLASSIC);
    assert_eq!(parse(&with_terminator), parse(CLASSIC));
}

#[test]
fn parse_measures_a_single_cell() {
    let expected = Layout { rows: 1, cols: 1, line_len: 2, grid_len: 2, start_pos: 0 };
    assert_eq!(parse("^"), Ok(expected));
    assert_eq!(parse("^\n"), Ok(expected));
}

#[test]
fn parse_takes_the_first_start_marker() {
    let expected = Layout { rows: 2, cols: 3, line_len: 4, grid_len: 8, start_pos: 2 };
    assert_eq!(parse("..^\n.^.\n"), Ok(expected));
}

#[test]
fn parse_rejects_an_empty_text() {
    assert_eq!(parse(""), Err(GridError::Empty));
}

#[test]
fn parse_rejects_a_short_last_row() {
    assert_eq!(parse(".^.\n..\n"), Err(GridError::Ragged));
    assert_eq!(parse(".^.\n.."), Err(GridError::Ragged));
}

#[test]
fn parse_rejects_a_long_row() {
    assert_eq!(parse(".^.\n....\n...\n"), Err(GridError::Ragged));
}

#[test]
fn parse_rejects_an_empty_row() {
    assert_eq!(parse(".^.\n\n...\n"), Err(GridError::Ragged));
    assert_eq!(parse(".^.\n...\n\n"), Err(GridError::Ragged));
}

#[test]
fn parse_reports_ragged_before_missing_start() {
    assert_eq!(parse("...\n..\n"), Err(GridError::Ragged));
}

#[test]
fn parse_rejects_a_plan_without_start() {
    assert_eq!(parse("...\n.#.\n"), Err(GridError::NoStart));
    assert_eq!(parse("#"), Err(GridError::NoStart));
}

#[test]
fn parse_rejects_rows_without_cells() {
    assert_eq!(parse("\n"), Err(GridError::NoStart));
    assert_eq!(parse("\n\n\n"), Err(GridError::NoStart));
}

#[test]
fn every_error_has_its_message() {
    assert_eq!(GridError::Empty.message(), "the floor plan is empty");
    assert_eq!(GridError::Ragged.message(), "the rows of the floor plan differ in length");
    assert_eq!(GridError::NoStart.message(), "the floor plan has no start marker");
}
