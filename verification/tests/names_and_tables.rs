use ristate::names::{place, same_name, Place};
use ristate::table::Table;

#[test]
fn place_orders_names_by_bytes() {
    assert_eq!(place("a", "b"), Place::Before);
    assert_eq!(place("b", "a"), Place::After);
    assert_eq!(place("a", "a"), Place::Same);
    assert_eq!(place("", ""), Place::Same);
    assert_eq!(place("", "a"), Place::Before);
    assert_eq!(place("a", ""), Place::After);
    assert_eq!(place("ab", "abc"), Place::Before);
    assert_eq!(place("abc", "ab"), Place::After);
    assert_eq!(place("B", "a"), Place::Before);
    assert_eq!(place("Z", "a"), Place::Before);
    assert_eq!(place("z", "\u{e9}"), Place::Before);
}

#[test]
fn place_agrees_with_std_order() {
    let names = ["", "a", "A", "ab", "abc", "b", "Dell", "DELL", "eDP-1", "\u{e9}", "\u{4e2d}", "z z"];
    for a in names {
        for b in names {
            let expected = if a < b {
                Place::Before
            } else if a == b {
                Place::Same
            } else {
                Place::After
            };
            assert_eq!(place(a, b), expected);
        }
    }
}

#[test]
fn same_name_is_exact() {
    assert!(same_name("default", "default"));
    assert!(!same_name("default", "Default"));
    assert!(!same_name("default", "default "));
    assert!(!same_name("", "x"));
    assert!(same_name("", ""));
}

#[test]
fn new_table_is_empty() {
    let table: Table<u32> = Table::new();
    assert!(table.is_empty());
    assert_eq!(table.len(), 0);
    assert_eq!(table.get("x"), None);
}

#[test]
fn put_enters_and_get_finds() {
    let mut table: Table<u32> = Table::new();
    table.put("b", 2);
    assert!(!table.is_empty());
    assert_eq!(table.len(), 1);
    assert_eq!(table.get("b"), Some(&2));
    assert_eq!(table.get("a"), None);
}

#[test]
fn put_replaces_the_value_of_a_name() {
    let mut table: Table<u32> = Table::new();
    table.put("b", 2);
    table.put("b", 7);
    assert_eq!(table.len(), 1);
    assert_eq!(table.get("b"), Some(&7));
}

#[test]
fn entries_are_kept_in_the_order_of_names() {
    let mut table: Table<u32> = Table::new();
    table.put("m", 1);
    table.put("z", 2);
    table.put("a", 3);
    table.put("mm", 4);
    table.put("B", 5);
    table.put("m", 6);
    assert_eq!(table.len(), 5);
    let names: Vec<String> = (0..table.len()).map(|i| table.name_at(i).clone()).collect();
    assert_eq!(names, vec!["B", "a", "m", "mm", "z"]);
    let values: Vec<u32> = (0..table.len()).map(|i| *table.value_at(i)).collect();
    assert_eq!(values, vec![5, 3, 6, 4, 2]);
}

#[test]
fn table_order_is_that_of_a_btree_map() {
    let names = ["eDP-1", "Dell", "dell", "AcmeDisplay", "", "zz", "Acme", "\u{e9}cran"];
    let mut table: Table<usize> = Table::new();
    let mut map = std::collections::BTreeMap::new();
    for (i, name) in names.iter().enumerate() {
        table.put(name, i);
        map.insert(name.to_string(), i);
    }
    let listed: Vec<(String, usize)> =
        (0..table.len()).map(|i| (table.name_at(i).clone(), *table.value_at(i))).collect();
    let expected: Vec<(String, usize)> = map.into_iter().collect();
    assert_eq!(listed, expected);
}
