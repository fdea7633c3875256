use loco_tasks::name_order::compare;
use loco_tasks::name_order::Order;
use std::cmp::Ordering;

const SAMPLES: [&str; 24] = [
    "", "a", "b", "aa", "ab", "ba", "A", "Z", "z", "a-b", "a_b", "a b", "0", "10", "9", "é", "e",
    "ée", "eé", "日本", "日", "\u{7f}", "\u{80}", "\u{10ffff}",
];

fn expected(a: &str, b: &str) -> Order {
    match a.cmp(b) {
        Ordering::Less => Order::Less,
        Ordering::Equal => Order::Equal,
        Ordering::Greater => Order::Greater,
    }
}

#[test]
fn compare_agrees_with_the_order_of_str() {
    for a in SAMPLES {
        for b in SAMPLES {
            assert_eq!(compare(a, b), expected(a, b), "{:?} against {:?}", a, b);
        }
    }
}

#[test]
fn a_prefix_sorts_first() {
    assert_eq!(compare("task", "tasks"), Order::Less);
    assert_eq!(compare("tasks", "task"), Order::Greater);
    assert_eq!(compare("", "a"), Order::Less);
}

#[test]
fn equal_names_compare_equal() {
    assert_eq!(compare("", ""), Order::Equal);
    assert_eq!(compare("seed", "seed"), Order::Equal);
    assert_eq!(compare("é", "é"), Order::Equal);
}

#[test]
fn the_first_difference_decides() {
    assert_eq!(compare("abz", "aca"), Order::Less);
    assert_eq!(compare("b", "abc"), Order::Greater);
    assert_eq!(compare("Z", "a"), Order::Less);
    assert_eq!(compare("z", "é"), Order::Less);
}
