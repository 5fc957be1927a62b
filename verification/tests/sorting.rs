use minedesign::model::drill_hole::{category_list, MAX_DRILL_COLOR_STOPS};
use minedesign::sorting::natural_sort_order;
use minedesign::text::is_blank_str;

fn strings(items: &[&str]) -> Vec<String> {
    items.iter().map(|s| s.to_string()).collect()
}

#[test]
fn natural_sort_order_orders_numbers_by_value() {
    let keys = strings(&["DH10", "DH2", "DH1", "dh3"]);
    assert_eq!(natural_sort_order(&keys), vec![2, 1, 3, 0]);
}

#[test]
fn natural_sort_order_keeps_equal_keys_in_place() {
    let keys = strings(&["b", "a", "b", "a"]);
    assert_eq!(natural_sort_order(&keys), vec![1, 3, 0, 2]);
}

#[test]
fn natural_sort_order_of_nothing() {
    assert_eq!(natural_sort_order(&[]), Vec::<usize>::new());
}

#[test]
fn blank_strings_trim_to_nothing() {
    assert!(is_blank_str(""));
    assert!(is_blank_str(" \t\n"));
    assert!(!is_blank_str(" a "));
}

#[test]
fn category_list_drops_blanks_and_repeats_and_sorts() {
    let values = strings(&["Ore 10", " ", "Ore 2", "waste", "Ore 2", "", "ore 1"]);
    assert_eq!(category_list(&values), strings(&["ore 1", "Ore 2", "Ore 10", "waste"]));
}

#[test]
fn category_list_keeps_the_first_twelve_in_order() {
    let values: Vec<String> = (0..20).rev().map(|i| format!("C{i}")).collect();
    let expected: Vec<String> = (0..12).map(|i| format!("C{i}")).collect();
    assert_eq!(MAX_DRILL_COLOR_STOPS, 12);
    assert_eq!(category_list(&values), expected);
}
