use guard_patrol::{causes_loop, parse, part1, part2, Dir};
use std::collections::HashSet;

const CLASSIC: &str = "....#.....\n.........#\n..........\n..#.......\n.......#..\n..........\n.#..^.....\n........#.\n#.........\n......#...";

const RING: &str = ".#..\n.^.#\n#...\n..#.\n";

const POCKET: &str = ".##\n#.#\n#^.\n";

const PLANS: [&str; 8] =
    [CLASSIC, RING, POCKET, "^", "^\n", "#.\n^.", "^..\n...\n", "..^\n.^.\n"];

/// Walks the plan with `extra` as one more obstacle for at most `limit`
/// states. `Some(true)`: a state came up twice. `Some(false)`: the guard left
/// the grid. `None`: neither happened within the limit.
fn bounded_walk(plan: &str, extra: Option<usize>, limit: usize) -> Option<bool> {
    let layout = parse(plan).unwrap();
    let bytes = plan.as_bytes();
    let mut seen: HashSet<(usize, Dir)> = HashSet::new();
    let mut pos = layout.start_pos;
    let mut dir = Dir::N;
    for _ in 0..limit {
        if !seen.insert((pos, dir)) {
            return Some(true);
        }
        match dir.step(pos, layout.line_len, layout.grid_len) {
            None => return Some(false),
            Some(next) => {
                if Some(next) == extra || bytes.get(next) == Some(&b'#') {
                    dir = dir.rotate();
                } else {
                    pos = next;
                }
            }
        }
    }
    None
}

#[test]
fn classic_plan_traversal_count() {
    assert_eq!(part1(CLASSIC), 41);
}

#[test]
fn classic_plan_loop_search_count() {
    assert_eq!(part2(CLASSIC), 6);
}

#[test]
fn classic_plan_with_final_terminator() {
    let plan = format!("{}\n", CLASSIC);
    assert_eq!(part1(&plan), 41);
    assert_eq!(part2(&plan), 6);
}

#[test]
fn classic_plan_loop_placements() {
    let layout = parse(CLASSIC).unwrap();
    let bytes = CLASSIC.as_bytes();
    let mut found = Vec::new();
    for pos in 0..layout.grid_len {
        if causes_loop(bytes, layout.line_len, layout.grid_len, layout.start_pos, pos) {
            found.push(pos);
        }
    }
    assert_eq!(found, vec![69, 83, 84, 89, 91, 106]);
}

#[test]
fn single_cell_plan() {
    assert_eq!(part1("^"), 1);
    assert_eq!(part2("^"), 0);
    assert_eq!(part1("^\n"), 1);
    assert_eq!(part2("^\n"), 0);
}

#[test]
fn start_in_a_corner_exits_on_the_first_step() {
    assert_eq!(part1("^..\n...\n"), 1);
    assert_eq!(part2("^..\n...\n"), 0);
    assert!(!causes_loop("^..\n...\n".as_bytes(), 4, 8, 0, 5));
}

#[test]
fn a_second_start_marker_is_a_free_cell() {
    assert_eq!(part1("..^\n.^.\n"), 1);
    assert_eq!(part1("#.\n^^"), 3);
}

#[test]
fn leaving_eastwards_counts_the_terminator_position() {
    assert_eq!(part1("#.\n^."), 3);
    assert_eq!(part1("#.\n^.\n"), 3);
    assert_eq!(part2("#.\n^."), 0);
}

#[test]
fn a_plan_that_traps_the_guard_as_it_stands() {
    assert_eq!(part1(RING), 4);
    assert_eq!(part2(RING), 8);
}

#[test]
fn traversal_count_is_at_least_one() {
    for plan in PLANS {
        assert!(part1(plan) >= 1);
    }
}

#[test]
fn traversal_count_is_at_most_the_free_positions() {
    let free = [102, 16, 7, 2, 2, 5, 8, 8];
    for (plan, free) in PLANS.iter().zip(free) {
        let layout = parse(plan).unwrap();
        let bytes = plan.as_bytes();
        let counted =
            (0..layout.grid_len).filter(|pos| bytes.get(*pos) != Some(&b'#')).count();
        assert_eq!(counted, free);
        assert!(part1(plan) as usize <= free);
    }
}

#[test]
fn traversal_count_is_the_same_on_every_run() {
    for plan in PLANS {
        assert_eq!(part1(plan), part1(plan));
        assert_eq!(part2(plan), part2(plan));
    }
}

#[test]
fn loop_search_never_tries_the_start_cell() {
    let layout = parse(POCKET).unwrap();
    assert_eq!(layout.start_pos, 9);
    assert!(causes_loop(POCKET.as_bytes(), 4, 12, 9, 9));
    assert_eq!(part1(POCKET), 2);
    assert_eq!(part2(POCKET), 0);
}

#[test]
fn loop_search_never_tries_an_obstacle_or_a_terminator() {
    let layout = parse(RING).unwrap();
    let bytes = RING.as_bytes();
    let mut trapping = Vec::new();
    for pos in 0..layout.grid_len {
        if causes_loop(bytes, layout.line_len, layout.grid_len, layout.start_pos, pos) {
            trapping.push(pos);
        }
    }
    assert_eq!(trapping, vec![0, 1, 2, 3, 4, 5, 8, 9, 10, 13, 14, 15, 16, 17, 18, 19]);
    let tried: Vec<usize> = trapping
        .into_iter()
        .filter(|pos| bytes[*pos] != b'#' && bytes[*pos] != b'\n' && *pos != layout.start_pos)
        .collect();
    assert_eq!(tried, vec![0, 2, 3, 5, 13, 15, 16, 18]);
    assert_eq!(part2(RING) as usize, tried.len());
}

#[test]
fn loop_search_agrees_with_trying_every_cell() {
    for plan in PLANS {
        let layout = parse(plan).unwrap();
        let bytes = plan.as_bytes();
        let mut expected = 0;
        for pos in 0..bytes.len() {
            if bytes[pos] == b'#' || bytes[pos] == b'\n' || pos == layout.start_pos {
                continue;
            }
            if causes_loop(bytes, layout.line_len, layout.grid_len, layout.start_pos, pos) {
                expected += 1;
            }
        }
        assert_eq!(part2(plan), expected);
    }
}

#[test]
fn a_counted_placement_repeats_a_state_within_the_bound() {
    for plan in PLANS {
        let layout = parse(plan).unwrap();
        let limit = layout.rows * layout.cols * 4 + 1;
        let mut bytes = plan.as_bytes().to_vec();
        let mut counted = 0;
        for pos in 0..plan.len() {
            if bytes[pos] == b'#' || bytes[pos] == b'\n' || pos == layout.start_pos {
                continue;
            }
            let looping = causes_loop(
                plan.as_bytes(),
                layout.line_len,
                layout.grid_len,
                layout.start_pos,
                pos,
            );
            let kept = bytes[pos];
            bytes[pos] = b'#';
            let substituted = String::from_utf8(bytes.clone()).unwrap();
            bytes[pos] = kept;
            let outcome = bounded_walk(&substituted, None, limit);
            assert_eq!(outcome, Some(looping));
            assert_eq!(bounded_walk(plan, Some(pos), limit), Some(looping));
            if looping {
                counted += 1;
            }
        }
        assert_eq!(part2(plan), counted);
    }
}

#[test]
fn causes_loop_takes_text_without_final_terminator() {
    assert!(!causes_loop("#.\n^.".as_bytes(), 3, 6, 3, 1));
    assert!(!causes_loop("#.\n^.".as_bytes(), 3, 6, 3, 5));
    assert!(causes_loop(".#.\n.^#\n.#.".as_bytes(), 4, 12, 5, 4));
}

/// A plan of 24 rows and 31 columns with obstacles strewn by a formula.
fn generated_plan() -> String {
    let mut plan = String::new();
    for row in 0..24usize {
        if row > 0 {
            plan.push('\n');
        }
        for col in 0..31usize {
            if (row, col) == (7, 21) {
                plan.push('^');
            } else if (row * row * 3 + col * col * 5 + row * col) % 19 == 0 {
                plan.push('#');
            } else {
                plan.push('.');
            }
        }
    }
    plan
}

#[test]
fn generated_plan_counts() {
    let plan = generated_plan();
    let layout = parse(&plan).unwrap();
    assert_eq!(
        (layout.rows, layout.cols, layout.line_len, layout.grid_len, layout.start_pos),
        (24, 31, 32, 768, 245)
    );
    assert_eq!(part1(&plan), 94);
    assert_eq!(part2(&plan), 19);
}

#[test]
fn generated_plan_loop_placements() {
    let plan = generated_plan();
    let mut found = Vec::new();
    for pos in 0..768 {
        let byte = plan.as_bytes().get(pos).copied().unwrap_or(b'\n');
        if byte == b'.' && causes_loop(plan.as_bytes(), 32, 768, 245, pos) {
            found.push(pos);
        }
    }
    let expected = vec![
        143, 145, 147, 243, 307, 339, 404, 468, 469, 470, 473, 499, 501, 629, 633, 661, 665, 697,
        761,
    ];
    assert_eq!(found, expected);
}

#[test]
fn single_row_plan_is_left_at_once() {
    assert_eq!(part1(".^.#"), 1);
    assert_eq!(part2(".^.#"), 0);
    assert_eq!(part1("^#\n"), 1);
}

#[test]
fn single_column_plan() {
    assert_eq!(part1("#\n^"), 2);
    assert_eq!(part2("#\n^"), 0);
}

#[test]
fn a_guard_walled_in_turns_on_the_spot() {
    let plan = ".#.\n#^#\n.#.\n";
    assert_eq!(part1(plan), 1);
    assert_eq!(part2(plan), 4);
    assert!(causes_loop(plan.as_bytes(), 4, 12, 5, 0));
    assert!(causes_loop(plan.as_bytes(), 4, 12, 5, 5));
}
