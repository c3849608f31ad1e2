use post_tally::collector::{Action, Collector, CursorState, OrderingMode};
use post_tally::item::Item;

fn item(id: &str, label: Option<&str>, flag: bool) -> Item {
    Item { id: id.to_string(), label: label.map(|l| l.to_string()), flag }
}

fn ids(items: &[Item]) -> Vec<String> {
    items.iter().map(|it| it.id.clone()).collect()
}

/// Drives one collector run against a scripted source: each scripted page
/// is handed over on a fetch action. Returns the result, the number of
/// pacing delays that were demanded, and the number of pages fetched.
fn run(mode: OrderingMode, target: usize, pages: Vec<Vec<Item>>) -> (Vec<Item>, u64, u64) {
    let mut c = Collector::new(mode, target);
    let mut script = pages.into_iter();
    let mut pauses: u64 = 0;
    loop {
        match c.next_action() {
            Action::Done => break,
            Action::Pause => {
                pauses += 1;
                c.record_pause();
            }
            Action::Fetch { page_size, cursor: _ } => {
                assert!(page_size >= 1);
                let page = script.next().expect("the collector asked for more pages than scripted");
                c.ingest_page(page);
            }
        }
    }
    let pages_fetched = c.pages_fetched;
    (c.finish(), pauses, pages_fetched)
}

#[test]
fn overlapping_pages_are_deduplicated_in_order() {
    let page1 = vec![item("a", None, false), item("b", None, false), item("c", None, false)];
    let page2 = vec![item("b", None, false), item("c", None, false), item("d", None, false)];
    let mut c = Collector::new(OrderingMode::Latest, 4);
    c.ingest_page(page1);
    assert_eq!(c.duplicates, 0);
    c.record_pause();
    c.ingest_page(page2);
    assert_eq!(c.duplicates, 2);
    let result = c.finish();
    assert_eq!(ids(&result), vec!["a", "b", "c", "d"]);
}

#[test]
fn result_never_exceeds_target() {
    // The source hands back more items than asked for; the run still ends
    // with exactly the target count.
    let pages = vec![vec![
        item("a", None, false),
        item("b", None, false),
        item("c", None, false),
    ]];
    let (result, _, _) = run(OrderingMode::Hot, 2, pages);
    assert_eq!(ids(&result), vec!["a", "b"]);
}

#[test]
fn target_reached_over_several_pages() {
    let pages = vec![
        vec![item("a", None, false), item("b", None, false)],
        vec![item("c", None, false), item("d", None, false)],
    ];
    let (result, pauses, fetched) = run(OrderingMode::Hot, 4, pages);
    assert_eq!(ids(&result), vec!["a", "b", "c", "d"]);
    assert_eq!(fetched, 2);
    // Pacing: one delay between the two consecutive fetches.
    assert_eq!(pauses, 1);
}

#[test]
fn exhausted_source_yields_short_result() {
    let pages = vec![
        vec![item("a", None, false), item("b", None, false)],
        vec![],
    ];
    let (result, _, _) = run(OrderingMode::Top, 5, pages);
    assert_eq!(ids(&result), vec!["a", "b"]);
}

#[test]
fn zero_page_on_first_call_yields_empty_result() {
    let (result, pauses, fetched) = run(OrderingMode::Latest, 3, vec![vec![]]);
    assert!(result.is_empty());
    assert_eq!(fetched, 1);
    assert_eq!(pauses, 0);
}

#[test]
fn zero_target_fetches_nothing() {
    let (result, pauses, fetched) = run(OrderingMode::Hot, 0, vec![]);
    assert!(result.is_empty());
    assert_eq!(fetched, 0);
    assert_eq!(pauses, 0);
}

#[test]
fn pacing_delays_separate_consecutive_fetches() {
    let pages: Vec<Vec<Item>> = (0..5)
        .map(|p: usize| (0..2).map(|n: usize| item(&format!("id{}_{}", p, n), None, false)).collect())
        .collect();
    let (result, pauses, fetched) = run(OrderingMode::Hot, 10, pages);
    assert_eq!(result.len(), 10);
    assert_eq!(fetched, 5);
    assert_eq!(pauses, 4);
}

#[test]
fn cursor_advances_to_last_appended_item() {
    let mut c = Collector::new(OrderingMode::Hot, 10);
    c.ingest_page(vec![item("abc", None, false), item("xyz", None, false)]);
    match &c.cursor {
        CursorState::Advancing { token } => assert_eq!(token.as_str(), "t3_xyz"),
        CursorState::Start => panic!("cursor did not advance"),
    }
    c.record_pause();
    match c.next_action() {
        Action::Fetch { page_size, cursor } => {
            assert_eq!(page_size, 8);
            assert_eq!(cursor.as_deref(), Some("t3_xyz"));
        }
        _ => panic!("expected a fetch"),
    }
}

#[test]
fn first_fetch_has_no_cursor_and_capped_page_size() {
    let c = Collector::new(OrderingMode::Hot, 250);
    match c.next_action() {
        Action::Fetch { page_size, cursor } => {
            assert_eq!(page_size, 100);
            assert_eq!(cursor, None);
        }
        _ => panic!("expected a fetch"),
    }
}

#[test]
fn all_duplicate_page_keeps_cursor_and_makes_no_progress() {
    let mut c = Collector::new(OrderingMode::Hot, 3);
    c.ingest_page(vec![item("a", None, false)]);
    c.record_pause();
    c.ingest_page(vec![item("a", None, false)]);
    assert_eq!(c.duplicates, 1);
    assert_eq!(c.items.len(), 1);
    match &c.cursor {
        CursorState::Advancing { token } => assert_eq!(token.as_str(), "t3_a"),
        CursorState::Start => panic!("cursor did not advance"),
    }
}
