use voteinator::domain::context::ids::IdTable;

#[test]
fn a_new_table_is_empty() {
    let table = IdTable::new();
    assert_eq!(table.len(), 0);
    assert_eq!(table.find(0), None);
    assert_eq!(table.find(7), None);
}

#[test]
fn ids_keep_the_place_at_which_they_were_put() {
    let mut table = IdTable::new();
    table.push(40);
    table.push(7);
    table.push(1810);
    table.push(0);
    assert_eq!(table.len(), 4);
    assert_eq!(table.find(40), Some(0));
    assert_eq!(table.find(7), Some(1));
    assert_eq!(table.find(1810), Some(2));
    assert_eq!(table.find(0), Some(3));
    assert_eq!(table.find(8), None);
    assert_eq!(table.find(usize::MAX), None);
    assert_eq!(table.get(0), 40);
    assert_eq!(table.get(1), 7);
    assert_eq!(table.get(2), 1810);
    assert_eq!(table.get(3), 0);
}

#[test]
fn many_ids_are_found_again() {
    let mut table = IdTable::new();
    for k in 0..1000usize {
        table.push(k * 7919 % 10007);
    }
    for k in 0..1000usize {
        let id = k * 7919 % 10007;
        assert_eq!(table.find(id), Some(k));
        assert_eq!(table.get(k), id);
    }
    assert_eq!(table.find(10007), None);
}
