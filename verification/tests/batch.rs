use first_principles::batch::emission_order;

#[test]
fn unequal_requests_finish_and_emit_in_rounds() {
    let ids = ["a", "bb"];
    let order = emission_order(&[1, 3]);
    assert_eq!(order.iter().map(|&i| ids[i]).collect::<Vec<_>>(), ["a", "bb", "bb", "bb"]);
}

#[test]
fn every_round_visits_the_unfinished_requests_in_order() {
    assert_eq!(emission_order(&[2, 0, 3, 1]), vec![0, 2, 3, 0, 2, 2]);
    assert_eq!(emission_order(&[0, 0]), Vec::<usize>::new());
    assert_eq!(emission_order(&[]), Vec::<usize>::new());
    let counts = [4, 1, 0, 2];
    let order = emission_order(&counts);
    for (i, &c) in counts.iter().enumerate() {
        assert_eq!(order.iter().filter(|&&x| x == i).count(), c);
    }
}
