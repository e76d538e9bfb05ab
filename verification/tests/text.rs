use build_bridge::text::{
    copy_texts, find_text, has_text, insert_text, is_ascending, place, same_text, same_texts, slot_of,
    Placement,
};

fn names(list: &[&str]) -> Vec<String> {
    list.iter().map(|s| s.to_string()).collect()
}

#[test]
fn place_orders_by_first_differing_byte() {
    assert_eq!(place("abc", "abd"), Placement::Before);
    assert_eq!(place("abd", "abc"), Placement::After);
    assert_eq!(place("b", "abc"), Placement::After);
}

#[test]
fn place_puts_a_prefix_first() {
    assert_eq!(place("ab", "abc"), Placement::Before);
    assert_eq!(place("abc", "ab"), Placement::After);
    assert_eq!(place("", "a"), Placement::Before);
}

#[test]
fn place_finds_equal_names_the_same() {
    assert_eq!(place("cli", "cli"), Placement::Same);
    assert_eq!(place("", ""), Placement::Same);
}

#[test]
fn place_agrees_with_the_standard_order_of_strings() {
    let samples = ["", "a", "ab", "abc", "b", "Z", "z", "é", "日本", "a-b", "a_b", "\u{10FFFF}"];
    for a in samples.iter() {
        for b in samples.iter() {
            let expected = if a < b {
                Placement::Before
            } else if a > b {
                Placement::After
            } else {
                Placement::Same
            };
            assert_eq!(place(a, b), expected);
        }
    }
}

#[test]
fn same_text_compares_whole_names() {
    assert!(same_text("greet", "greet"));
    assert!(!same_text("greet", "greet "));
    assert!(!same_text("greet", "Greet"));
}

#[test]
fn find_text_gives_the_first_position() {
    let list = names(&["b", "a", "b"]);
    assert_eq!(find_text(&list, "b"), Some(0));
    assert_eq!(find_text(&list, "a"), Some(1));
    assert_eq!(find_text(&list, "c"), None);
    assert!(has_text(&list, "a"));
    assert!(!has_text(&list, "c"));
}

#[test]
fn insert_text_keeps_the_list_ascending() {
    let mut list: Vec<String> = Vec::new();
    assert!(insert_text(&mut list, "net".to_string()));
    assert!(insert_text(&mut list, "cli".to_string()));
    assert!(insert_text(&mut list, "tls".to_string()));
    assert!(insert_text(&mut list, "gui".to_string()));
    assert_eq!(list, names(&["cli", "gui", "net", "tls"]));
}

#[test]
fn insert_text_does_not_add_a_name_twice() {
    let mut list = names(&["cli", "net"]);
    assert!(!insert_text(&mut list, "cli".to_string()));
    assert!(!insert_text(&mut list, "net".to_string()));
    assert_eq!(list, names(&["cli", "net"]));
}

#[test]
fn insert_text_gives_one_list_for_every_order() {
    let orders: [[&str; 3]; 6] = [
        ["a", "b", "c"],
        ["a", "c", "b"],
        ["b", "a", "c"],
        ["b", "c", "a"],
        ["c", "a", "b"],
        ["c", "b", "a"],
    ];
    for order in orders.iter() {
        let mut list: Vec<String> = Vec::new();
        for name in order.iter() {
            insert_text(&mut list, name.to_string());
        }
        assert_eq!(list, names(&["a", "b", "c"]));
    }
}

#[test]
fn slot_of_gives_rank_and_presence() {
    let list = names(&["b", "d", "f"]);
    assert_eq!(slot_of(&list, "a"), (0, false));
    assert_eq!(slot_of(&list, "b"), (0, true));
    assert_eq!(slot_of(&list, "c"), (1, false));
    assert_eq!(slot_of(&list, "f"), (2, true));
    assert_eq!(slot_of(&list, "g"), (3, false));
    assert_eq!(slot_of(&Vec::new(), "g"), (0, false));
}

#[test]
fn same_texts_compares_in_order() {
    assert!(same_texts(&names(&["a", "b"]), &names(&["a", "b"])));
    assert!(!same_texts(&names(&["a", "b"]), &names(&["b", "a"])));
    assert!(!same_texts(&names(&["a"]), &names(&["a", "a"])));
    assert!(same_texts(&Vec::new(), &Vec::new()));
}

#[test]
fn copy_texts_copies_every_name() {
    let list = names(&["x", "", "yz"]);
    assert_eq!(copy_texts(&list), list);
}

#[test]
fn is_ascending_wants_strict_order() {
    assert!(is_ascending(&names(&[])));
    assert!(is_ascending(&names(&["only"])));
    assert!(is_ascending(&names(&["a", "b", "c"])));
    assert!(!is_ascending(&names(&["a", "a"])));
    assert!(!is_ascending(&names(&["a", "c", "b"])));
    assert!(!is_ascending(&names(&["b", "a", "c"])));
}
