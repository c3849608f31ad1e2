use post_tally::align::{add_labels, collect_data, labels_without};
use post_tally::item::Item;
use post_tally::tally::{
    count_of, percentages_of, share_of, tally_by_category, tally_by_flag, CategoryTally, Entry,
};

fn item(id: &str, label: Option<&str>, flag: bool) -> Item {
    Item { id: id.to_string(), label: label.map(|l| l.to_string()), flag }
}

fn tally_of(pairs: &[(&str, usize)]) -> CategoryTally {
    CategoryTally {
        entries: pairs
            .iter()
            .map(|(label, count)| Entry { label: label.to_string(), count: *count })
            .collect(),
    }
}

#[test]
fn category_tally_counts_labels_and_sentinel() {
    let items = vec![
        item("1", Some("x"), false),
        item("2", None, false),
        item("3", Some("x"), false),
        item("4", Some("y"), false),
    ];
    let t = tally_by_category(&items, true);
    assert_eq!(count_of(&t, &"x".to_string()), 2);
    assert_eq!(count_of(&t, &"y".to_string()), 1);
    assert_eq!(count_of(&t, &"None".to_string()), 1);
    let total: usize = t.entries.iter().map(|e| e.count).sum();
    assert_eq!(total, items.len());
}

#[test]
fn category_tally_can_skip_unlabeled_items() {
    let items = vec![
        item("1", Some("x"), false),
        item("2", None, false),
        item("3", Some("x"), false),
    ];
    let t = tally_by_category(&items, false);
    assert_eq!(count_of(&t, &"x".to_string()), 2);
    assert_eq!(count_of(&t, &"None".to_string()), 0);
    let total: usize = t.entries.iter().map(|e| e.count).sum();
    assert_eq!(total, 2);
}

#[test]
fn category_tally_of_nothing_is_empty() {
    let items: Vec<Item> = Vec::new();
    let t = tally_by_category(&items, true);
    assert!(t.entries.is_empty());
}

#[test]
fn flag_tally_sums_to_length() {
    let items = vec![
        item("1", None, true),
        item("2", None, false),
        item("3", None, true),
    ];
    let t = tally_by_flag(&items);
    assert_eq!(t.flagged, 2);
    assert_eq!(t.unflagged, 1);
    assert_eq!(t.total(), items.len());
}

#[test]
fn aligned_series_fills_missing_labels_with_zero() {
    let keys = vec!["x".to_string(), "y".to_string(), "z".to_string()];
    let data = tally_of(&[("x", 2)]);
    assert_eq!(collect_data(&keys, &data), vec![2, 0, 0]);
}

#[test]
fn aligned_series_keeps_key_order() {
    let data = tally_of(&[("a", 1), ("b", 2), ("c", 3)]);
    let keys = vec!["c".to_string(), "a".to_string(), "b".to_string()];
    assert_eq!(collect_data(&keys, &data), vec![3, 1, 2]);
}

#[test]
fn shares_are_hundredths_of_a_percent() {
    assert_eq!(share_of(1, 4), 2500);
    assert_eq!(share_of(1, 3), 3333);
    assert_eq!(share_of(3, 3), 10000);
    assert_eq!(share_of(0, 7), 0);
}

#[test]
fn percentages_follow_tally_order() {
    let t = tally_of(&[("x", 1), ("y", 3)]);
    let shares = percentages_of(&t);
    assert_eq!(shares.len(), 2);
    assert_eq!(shares[0].label.as_str(), "x");
    assert_eq!(shares[0].hundredths, 2500);
    assert_eq!(shares[1].label.as_str(), "y");
    assert_eq!(shares[1].hundredths, 7500);
}

#[test]
fn label_union_keeps_existing_order_and_adds_new_labels() {
    let mut labels: Vec<String> = Vec::new();
    add_labels(&mut labels, &tally_of(&[("b", 1), ("a", 2)]));
    assert_eq!(labels, vec!["b".to_string(), "a".to_string()]);
    add_labels(&mut labels, &tally_of(&[("a", 5), ("c", 1)]));
    assert_eq!(labels, vec!["b".to_string(), "a".to_string(), "c".to_string()]);
}

#[test]
fn labels_without_drops_only_the_excluded_label() {
    let labels = vec!["x".to_string(), "None".to_string(), "y".to_string()];
    let filtered = labels_without(&labels, &"None".to_string());
    assert_eq!(filtered, vec!["x".to_string(), "y".to_string()]);
}
