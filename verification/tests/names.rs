use zvec_bindings::name_map::NameMap;
use zvec_bindings::name_order::{place, Placement};

#[test]
fn place_follows_the_order_of_str() {
    let names = ["", "A", "a", "a\u{0}", "ab", "abc", "b", "z", "\u{e9}", "\u{4e2d}", "\u{1f600}"];
    for (i, a) in names.iter().enumerate() {
        for (j, b) in names.iter().enumerate() {
            let expected = if i < j {
                Placement::Before
            } else if i == j {
                Placement::Same
            } else {
                Placement::After
            };
            assert_eq!(place(a, b), expected);
            assert_eq!(a < b, expected == Placement::Before);
        }
    }
}

#[test]
fn place_puts_a_prefix_first() {
    assert_eq!(place("doc", "doc_1"), Placement::Before);
    assert_eq!(place("doc_1", "doc"), Placement::After);
    assert_eq!(place("doc_1", "doc_1"), Placement::Same);
    assert_eq!(place("doc_10", "doc_9"), Placement::Before);
}

#[test]
fn name_map_starts_empty() {
    let map: NameMap<u8> = NameMap::new();
    assert_eq!(map.len(), 0);
    assert_eq!(map.get("a"), None);
    assert!(map.values().is_empty());
}

#[test]
fn name_map_keeps_entries_in_name_order() {
    let map = NameMap::new()
        .with_value("m".to_string(), 1)
        .with_value("a".to_string(), 2)
        .with_value("z".to_string(), 3)
        .with_value("b".to_string(), 4);
    assert_eq!(map.len(), 4);
    assert_eq!(map.values(), &vec![2, 4, 1, 3]);
    assert_eq!(map.name_at(0).unwrap(), "a");
    assert_eq!(map.name_at(1).unwrap(), "b");
    assert_eq!(map.name_at(2).unwrap(), "m");
    assert_eq!(map.name_at(3).unwrap(), "z");
    assert_eq!(map.name_at(4), None);
    assert_eq!(map.name_at(usize::MAX), None);
}

#[test]
fn name_map_replaces_the_value_of_a_name() {
    let map = NameMap::new()
        .with_value("k".to_string(), 1)
        .with_value("j".to_string(), 2)
        .with_value("k".to_string(), 3);
    assert_eq!(map.len(), 2);
    assert_eq!(map.get("k"), Some(&3));
    assert_eq!(map.get("j"), Some(&2));
    assert_eq!(map.get("i"), None);
    assert_eq!(map.get(""), None);
}

#[test]
fn name_map_does_not_depend_on_the_order_of_insertion() {
    let one = NameMap::new().with_value("A".to_string(), "x").with_value("B".to_string(), "y");
    let other = NameMap::new().with_value("B".to_string(), "y").with_value("A".to_string(), "x");
    assert_eq!(one.values(), other.values());
    assert_eq!(one.name_at(0), other.name_at(0));
    assert_eq!(one.name_at(1), other.name_at(1));
}
