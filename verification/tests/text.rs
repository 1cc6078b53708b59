use pr_tracker::name_set::NameSet;
use pr_tracker::text::{compare, find, Place};

fn strings(items: &[&str]) -> Vec<String> {
    items.iter().map(|s| s.to_string()).collect()
}

#[test]
fn compare_is_lexicographic() {
    assert_eq!(compare("a", "b"), Place::Before);
    assert_eq!(compare("b", "a"), Place::After);
    assert_eq!(compare("abc", "abc"), Place::Same);
    assert_eq!(compare("", ""), Place::Same);
    assert_eq!(compare("", "a"), Place::Before);
    assert_eq!(compare("ab", "abc"), Place::Before);
    assert_eq!(compare("abc", "ab"), Place::After);
    assert_eq!(compare("abd", "abc"), Place::After);
    assert_eq!(compare("Z", "a"), Place::Before);
    assert_eq!(compare("b", "abc"), Place::After);
}

#[test]
fn compare_orders_as_str_does() {
    let samples = ["", "a", "ab", "b", "é", "z", "日本", "\u{10000}", "\u{ffff}", "staging-next"];
    for a in samples {
        for b in samples {
            let expected = if a < b {
                Place::Before
            } else if a == b {
                Place::Same
            } else {
                Place::After
            };
            assert_eq!(compare(a, b), expected);
        }
    }
}

#[test]
fn find_says_where_a_name_belongs() {
    let names = strings(&["b", "d", "f"]);
    assert_eq!(find(&names, "a"), (0, false));
    assert_eq!(find(&names, "b"), (0, true));
    assert_eq!(find(&names, "c"), (1, false));
    assert_eq!(find(&names, "f"), (2, true));
    assert_eq!(find(&names, "g"), (3, false));
    assert_eq!(find(&Vec::new(), "a"), (0, false));
}

#[test]
fn name_set_holds_each_name_once_in_order() {
    let mut set = NameSet::new();
    assert_eq!(set.len(), 0);
    assert!(set.insert("m".to_string()));
    assert!(set.insert("a".to_string()));
    assert!(set.insert("z".to_string()));
    assert!(!set.insert("m".to_string()));
    assert_eq!(set.len(), 3);
    assert_eq!(set.names(), &strings(&["a", "m", "z"]));
    assert!(set.contains("a"));
    assert!(!set.contains("b"));
    set.clear();
    assert_eq!(set.len(), 0);
    assert!(!set.contains("a"));
}

#[test]
fn name_set_from_names_drops_repeats() {
    let set = NameSet::from_names(&strings(&["b", "a", "b", "c", "a"]));
    assert_eq!(set.names(), &strings(&["a", "b", "c"]));
}

#[test]
fn name_set_intersection() {
    let a = NameSet::from_names(&strings(&["a", "b", "c", "d"]));
    let b = NameSet::from_names(&strings(&["d", "b", "x"]));
    assert_eq!(a.intersection(&b).names(), &strings(&["b", "d"]));
    assert_eq!(b.intersection(&a).names(), &strings(&["b", "d"]));
    assert_eq!(a.intersection(&NameSet::new()).len(), 0);
}
