use dep_resolution::table::Table;

#[test]
fn names_keep_their_places() {
    let mut t: Table<u32> = Table::new();
    assert_eq!(t.len(), 0);
    t.insert("b".to_string(), 1);
    t.insert("a".to_string(), 2);
    t.insert("b".to_string(), 3);
    assert_eq!(t.len(), 2);
    assert_eq!(t.entry(0), (&"b".to_string(), &3));
    assert_eq!(t.entry(1), (&"a".to_string(), &2));
    assert_eq!(t.get(&"a".to_string()), Some(&2));
    assert_eq!(t.get(&"c".to_string()), None);
}
