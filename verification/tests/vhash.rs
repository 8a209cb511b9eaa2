use luar::vhash::ValueHashMap;

#[test]
fn a_new_map_holds_nothing() {
    let mut m: ValueHashMap<u64, u64> = ValueHashMap::new();
    assert_eq!(m.get_value(0), None);
    assert_eq!(m.get_value(7), None);
}

#[test]
fn a_lookup_gives_what_was_inserted_last() {
    let mut m: ValueHashMap<u64, String> = ValueHashMap::new();
    m.insert(1, String::from("one"));
    m.insert(2, String::from("two"));
    assert_eq!(m.get_value(1), Some(String::from("one")));
    assert_eq!(m.get_value(2), Some(String::from("two")));
    assert_eq!(m.get_value(3), None);
    m.insert(1, String::from("uno"));
    assert_eq!(m.get_value(1), Some(String::from("uno")));
    assert_eq!(m.get_value(2), Some(String::from("two")));
    assert_eq!(m.get_value(1), Some(String::from("uno")));
}

#[test]
fn keys_of_text() {
    let mut m: ValueHashMap<&'static str, i32> = ValueHashMap::new();
    m.insert("and", 1);
    m.insert("or", 2);
    assert_eq!(m.get_value("and"), Some(1));
    assert_eq!(m.get_value("or"), Some(2));
    assert_eq!(m.get_value("not"), None);
}
