use vivere::roster::remove_marked;

#[test]
fn the_dead_leave_and_the_living_keep_their_order() {
    let mut items = vec!["a", "b", "c", "d", "e"];
    remove_marked(&mut items, &vec![false, true, false, true, true]);
    assert_eq!(items, vec!["a", "c"]);
}

#[test]
fn nothing_marked_keeps_everything_and_everything_marked_empties() {
    let mut items: Vec<String> = (0..4).map(|i| i.to_string()).collect();
    remove_marked(&mut items, &vec![false; 4]);
    assert_eq!(items, vec!["0", "1", "2", "3"]);
    remove_marked(&mut items, &vec![true; 4]);
    assert!(items.is_empty());
    remove_marked(&mut items, &vec![]);
    assert!(items.is_empty());
}

#[test]
fn removal_matches_a_stable_filter() {
    let items: Vec<u32> = (0..50).collect();
    let gone: Vec<bool> = items.iter().map(|v| (v * 7) % 3 == 1).collect();
    let mut kept = items.clone();
    remove_marked(&mut kept, &gone);
    let expected: Vec<u32> = items.iter().zip(&gone).filter(|(_, g)| !**g).map(|(v, _)| *v).collect();
    assert_eq!(kept, expected);
}
