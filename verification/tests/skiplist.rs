use boolean_retrieval::order::{Comparison, Ordered};
use boolean_retrieval::skiplist::{climb, Node, SkipList};

#[test]
fn test_insert() {
    let mut sl: SkipList<String> = SkipList::new(16, 4);
    sl.insert("wewt".to_string());
    sl.insert("blblblb".to_string());
    sl.insert("azerty".to_string());
    let mut iterator = sl.iter();
    assert_eq!(iterator.next(), Some(&"azerty".to_string()));
    assert_eq!(iterator.next(), Some(&"blblblb".to_string()));
    assert_eq!(iterator.next(), Some(&"wewt".to_string()));
    assert_eq!(iterator.next(), None);
}

fn drain(list: &SkipList<u64>) -> Vec<u64> {
    let mut out = Vec::new();
    let mut it = list.iter();
    while let Some(x) = it.next() {
        out.push(*x);
    }
    out
}

#[test]
fn default_list_is_empty() {
    let sl: SkipList<String> = SkipList::default();
    assert_eq!(sl.len(), 0);
    let mut it = sl.iter();
    assert_eq!(it.next(), None);
    assert_eq!(it.next(), None);
}

#[test]
fn default_list_scenario() {
    let mut sl: SkipList<String> = SkipList::default();
    sl.insert("wewt".to_string());
    sl.insert("blblblb".to_string());
    sl.insert("azerty".to_string());
    assert_eq!(sl.len(), 3);
    let mut it = sl.iter();
    assert_eq!(it.next(), Some(&"azerty".to_string()));
    assert_eq!(it.next(), Some(&"blblblb".to_string()));
    assert_eq!(it.next(), Some(&"wewt".to_string()));
    assert_eq!(it.next(), None);
    assert_eq!(it.next(), None);
}

#[test]
fn iteration_yields_the_sorted_distinct_elements() {
    let mut sl: SkipList<u64> = SkipList::new(8, 2);
    for x in [5u64, 3, 9, 3, 1, 9, 9, 7, 0, 5] {
        sl.insert(x);
    }
    assert_eq!(drain(&sl), vec![0, 1, 3, 5, 7, 9]);
}

#[test]
fn len_counts_the_distinct_elements() {
    let mut sl: SkipList<u64> = SkipList::new(8, 2);
    assert_eq!(sl.len(), 0);
    sl.insert(4);
    assert_eq!(sl.len(), 1);
    sl.insert(4);
    assert_eq!(sl.len(), 1);
    sl.insert(2);
    sl.insert(8);
    sl.insert(2);
    assert_eq!(sl.len(), 3);
}

#[test]
fn inserting_a_duplicate_changes_nothing() {
    let mut sl: SkipList<String> = SkipList::new(4, 4);
    sl.insert("b".to_string());
    sl.insert("a".to_string());
    sl.insert("b".to_string());
    sl.insert("a".to_string());
    assert_eq!(sl.len(), 2);
    let mut it = sl.iter();
    assert_eq!(it.next(), Some(&"a".to_string()));
    assert_eq!(it.next(), Some(&"b".to_string()));
    assert_eq!(it.next(), None);
}

#[test]
fn a_fresh_traversal_starts_again() {
    let mut sl: SkipList<u64> = SkipList::new(4, 4);
    sl.insert(2);
    sl.insert(1);
    let mut first = sl.iter();
    assert_eq!(first.next(), Some(&1));
    let mut second = sl.iter();
    assert_eq!(second.next(), Some(&1));
    assert_eq!(second.next(), Some(&2));
    assert_eq!(first.next(), Some(&2));
    assert_eq!(first.next(), None);
}

#[test]
fn many_elements_in_descending_and_mixed_order() {
    let mut sl: SkipList<u64> = SkipList::new(16, 4);
    for x in (0..500u64).rev() {
        sl.insert(x * 2);
    }
    for x in 0..500u64 {
        sl.insert(x * 2 + 1);
        sl.insert(x * 2);
    }
    assert_eq!(sl.len(), 1000);
    assert_eq!(drain(&sl), (0..1000u64).collect::<Vec<u64>>());
}

#[test]
fn insert_node_with_chosen_heights() {
    let mut sl: SkipList<u64> = SkipList::new(4, 4);
    sl.insert_node(30, 1);
    sl.insert_node(10, 4);
    sl.insert_node(20, 2);
    sl.insert_node(40, 3);
    sl.insert_node(25, 4);
    sl.insert_node(20, 4);
    sl.insert_node(5, 1);
    assert_eq!(sl.len(), 6);
    assert_eq!(drain(&sl), vec![5, 10, 20, 25, 30, 40]);
    assert!(sl.contains(&25));
    assert!(!sl.contains(&26));
}

#[test]
fn a_list_of_one_level_is_a_linked_list() {
    let mut sl: SkipList<u64> = SkipList::new(1, 4);
    for x in [3u64, 1, 2, 3, 0] {
        sl.insert(x);
    }
    assert_eq!(drain(&sl), vec![0, 1, 2, 3]);
}

#[test]
fn branching_factor_one_raises_every_node_to_the_limit() {
    let mut sl: SkipList<u64> = SkipList::new(5, 1);
    for x in [3u64, 1, 2, 3, 0] {
        sl.insert(x);
    }
    assert_eq!(sl.len(), 4);
    assert_eq!(drain(&sl), vec![0, 1, 2, 3]);
}

#[test]
fn branching_factor_zero_is_accepted() {
    let mut sl: SkipList<u64> = SkipList::new(5, 0);
    for x in [9u64, 8, 7] {
        sl.insert(x);
    }
    assert_eq!(drain(&sl), vec![7, 8, 9]);
}

#[test]
fn random_heights_keep_the_order() {
    for _ in 0..20 {
        let mut sl: SkipList<u64> = SkipList::new(16, 4);
        for x in [17u64, 4, 99, 23, 4, 0, 56, 17, 3] {
            sl.insert(x);
        }
        assert_eq!(drain(&sl), vec![0, 3, 4, 17, 23, 56, 99]);
        assert_eq!(sl.len(), 7);
    }
}

#[test]
fn contains_finds_what_was_inserted() {
    let mut sl: SkipList<String> = SkipList::new(16, 4);
    assert!(!sl.contains(&"a".to_string()));
    sl.insert("b".to_string());
    sl.insert("a".to_string());
    assert!(sl.contains(&"a".to_string()));
    assert!(sl.contains(&"b".to_string()));
    assert!(!sl.contains(&"c".to_string()));
    assert!(!sl.contains(&"".to_string()));
}

#[test]
fn node_gives_its_element_back() {
    let node = Box::new(Node::new("elt".to_string(), 3));
    assert_eq!(node.into_element(), "elt".to_string());
    let head: Box<Node<u64>> = Box::new(Node::new_head(16));
    assert_eq!(head.into_element(), 0);
}

fn order_of(a: &str, b: &str) -> Comparison {
    a.to_string().compare(&b.to_string())
}

#[test]
fn strings_compare_by_code_points() {
    assert_eq!(order_of("a", "b"), Comparison::Less);
    assert_eq!(order_of("b", "a"), Comparison::Greater);
    assert_eq!(order_of("abc", "abc"), Comparison::Equal);
    assert_eq!(order_of("", ""), Comparison::Equal);
    assert_eq!(order_of("", "a"), Comparison::Less);
    assert_eq!(order_of("a", ""), Comparison::Greater);
    assert_eq!(order_of("ab", "abc"), Comparison::Less);
    assert_eq!(order_of("abd", "abc"), Comparison::Greater);
    assert_eq!(order_of("Z", "a"), Comparison::Less);
    assert_eq!(order_of("z", "é"), Comparison::Less);
    assert_eq!(order_of("é", "日"), Comparison::Less);
}

#[test]
fn strings_compare_as_std_orders_them() {
    let words = ["", "a", "ab", "abc", "b", "B", "é", "日本", "日", "z", "aé", "a日"];
    for a in words {
        for b in words {
            let expected = if a < b {
                Comparison::Less
            } else if a == b {
                Comparison::Equal
            } else {
                Comparison::Greater
            };
            assert_eq!(order_of(a, b), expected);
        }
    }
}

#[test]
fn numbers_compare() {
    assert_eq!(1u64.compare(&2), Comparison::Less);
    assert_eq!(2u64.compare(&2), Comparison::Equal);
    assert_eq!(3u64.compare(&2), Comparison::Greater);
    assert_eq!(1usize.compare(&2), Comparison::Less);
    assert_eq!(2usize.compare(&2), Comparison::Equal);
    assert_eq!(3usize.compare(&2), Comparison::Greater);
}

#[test]
fn a_cloned_traversal_goes_on_from_the_same_place() {
    let mut sl: SkipList<u64> = SkipList::new(4, 4);
    sl.insert(2);
    sl.insert(1);
    sl.insert(3);
    let mut first = sl.iter();
    assert_eq!(first.next(), Some(&1));
    let mut second = first.clone();
    assert_eq!(first.next(), Some(&2));
    assert_eq!(second.next(), Some(&2));
    assert_eq!(second.next(), Some(&3));
    assert_eq!(second.next(), None);
    assert_eq!(first.next(), Some(&3));
}

#[test]
fn a_draw_that_comes_out_true_raises_the_height_by_one() {
    assert_eq!(climb(1, 16, true), 2);
    assert_eq!(climb(15, 16, true), 16);
    assert_eq!(climb(3, 16, false), 3);
    assert_eq!(climb(1, 1, false), 1);
}

#[test]
fn no_draw_raises_the_height_above_the_limit() {
    assert_eq!(climb(16, 16, true), 16);
    assert_eq!(climb(1, 1, true), 1);
}
