use first_principles::capacity::admit_routes;

#[test]
fn capacity_counts_attempts_and_drops() {
    let a = admit_routes(&[0, 0, 0, 0], 2, 1, 0);
    assert_eq!(a.attempted, vec![4, 0]);
    assert_eq!(a.accepted, vec![1, 0]);
    assert_eq!(a.dropped, 3);
    assert_eq!(a.admitted, vec![true, false, false, false]);
}

#[test]
fn capacity_reports_overflow() {
    let routes = [1, 0, 1, 1, 2, 1, 0, 1, 1, 2, 1, 1];
    let capacity = 3;
    let a = admit_routes(&routes, 3, capacity, 5);
    let mut counts = [0usize; 3];
    routes.iter().for_each(|&r| counts[r] += 1);
    let expected: usize = counts.iter().map(|&c| c.saturating_sub(capacity)).sum();
    assert_eq!(a.dropped, expected);
    assert!(expected > 0);
    assert_eq!(a.accepted, vec![2, 3, 2]);
}

#[test]
fn visiting_starts_at_the_offset_and_wraps() {
    let a = admit_routes(&[0, 1, 0, 0, 1], 2, 1, 7);
    assert_eq!(a.admitted, vec![true, false, true, false, false]);
    assert_eq!(a.accepted, vec![1, 1]);
    assert_eq!(a.dropped, 3);
    let none = admit_routes(&[], 3, 1, 9);
    assert!(none.admitted.is_empty());
    assert_eq!(none.attempted, vec![0, 0, 0]);
    assert_eq!(none.dropped, 0);
}
