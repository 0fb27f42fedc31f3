use just_bash::StringMap;

#[test]
fn string_map_insert_get_and_replace() {
    let mut m: StringMap<i32> = StringMap::new();
    assert_eq!(m.len(), 0);
    assert_eq!(m.get("a"), None);
    m.insert("b".to_string(), 2);
    m.insert("a".to_string(), 1);
    m.insert("c".to_string(), 3);
    assert_eq!(m.len(), 3);
    assert_eq!(m.get("a"), Some(&1));
    assert_eq!(m.get("b"), Some(&2));
    m.insert("b".to_string(), 20);
    assert_eq!(m.len(), 3);
    assert_eq!(m.get("b"), Some(&20));
    assert_eq!(m.get("c"), Some(&3));
}

#[test]
fn string_map_keeps_keys_in_increasing_order() {
    let mut m: StringMap<()> = StringMap::new();
    for key in ["pear", "apple", "fig", "apple", "banana", "b", ""] {
        m.insert(key.to_string(), ());
    }
    let keys: Vec<String> = (0..m.len()).map(|i| m.key_at(i).iter().collect()).collect();
    assert_eq!(keys, vec!["", "apple", "b", "banana", "fig", "pear"]);
}

#[test]
fn string_map_remove_forgets_only_that_key() {
    let mut m: StringMap<&str> = StringMap::new();
    m.insert("x".to_string(), "1");
    m.insert("y".to_string(), "2");
    let key: Vec<char> = "x".chars().collect();
    m.remove_chars(&key);
    assert_eq!(m.get("x"), None);
    assert_eq!(m.get("y"), Some(&"2"));
    assert_eq!(m.len(), 1);
    m.remove_chars(&key);
    assert_eq!(m.len(), 1);
    assert!(m.contains_chars(&['y']));
}

#[test]
fn string_map_positions_and_push_back() {
    let mut m: StringMap<u8> = StringMap::new();
    m.push_back(vec!['a'], 1);
    m.push_back(vec!['b'], 2);
    assert_eq!(*m.value_at(1), 2);
    assert_eq!(m.key_at(0), &vec!['a']);
    m.remove_at(0);
    assert_eq!(m.get("a"), None);
    assert_eq!(m.get("b"), Some(&2));
}
