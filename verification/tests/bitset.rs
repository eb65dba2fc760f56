use guard_patrol::mark_visited;

#[test]
fn mark_visited_sets_the_bit_of_the_position() {
    let mut words = vec![0u64; 2];
    assert!(mark_visited(&mut words, 0));
    assert_eq!(words, vec![1, 0]);
    assert!(mark_visited(&mut words, 63));
    assert_eq!(words, vec![1 | (1 << 63), 0]);
    assert!(mark_visited(&mut words, 64));
    assert_eq!(words, vec![1 | (1 << 63), 1]);
    assert!(mark_visited(&mut words, 70));
    assert_eq!(words, vec![1 | (1 << 63), 1 | (1 << 6)]);
}

#[test]
fn mark_visited_reports_a_position_only_once() {
    let mut words = vec![0u64; 3];
    assert!(mark_visited(&mut words, 130));
    assert!(!mark_visited(&mut words, 130));
    assert!(!mark_visited(&mut words, 130));
    assert_eq!(words, vec![0, 0, 4]);
}

#[test]
fn mark_visited_keeps_the_other_positions() {
    let mut words = vec![0u64; 4];
    let mut fresh = 0;
    for pos in (0..256).step_by(3) {
        if mark_visited(&mut words, pos) {
            fresh += 1;
        }
    }
    for pos in 0..256 {
        let was_marked = !mark_visited(&mut words, pos);
        assert_eq!(was_marked, pos % 3 == 0);
    }
    assert_eq!(fresh, 86);
    assert_eq!(words, vec![u64::MAX; 4]);
}
