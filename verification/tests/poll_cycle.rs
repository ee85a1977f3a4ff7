use inventory_alerts::model::{InventoryItem, MatchRule};
use inventory_alerts::notify::render_message;
use inventory_alerts::poll::PollCycle;
use inventory_alerts::store::{load_items, save_items};

fn widget(in_stock: bool) -> InventoryItem {
    InventoryItem {
        product: "Widget".to_string(),
        vendor: "Acme".to_string(),
        url: "http://example.com/w".to_string(),
        in_stock,
        matches: vec![MatchRule::Contains("Add to Cart".to_string())],
    }
}

fn gadget(in_stock: bool) -> InventoryItem {
    InventoryItem {
        product: "Gadget".to_string(),
        vendor: "Globex".to_string(),
        url: "http://example.com/g".to_string(),
        in_stock,
        matches: vec![MatchRule::DoesNotContain("Sold Out".to_string())],
    }
}

#[test]
fn stock_change_marks_cycle_changed_and_is_reported() {
    let mut cycle = PollCycle::start(vec![widget(false)]);
    assert!(!cycle.is_done());
    assert_eq!(cycle.current_url().as_str(), "http://example.com/w");
    assert!(cycle.feed_body("<html>Add to Cart</html>"));
    assert!(cycle.is_done());
    let (changed, items) = cycle.finish();
    assert!(changed);
    assert!(items[0].in_stock);

    let message = render_message("State Changed", &items);
    assert_eq!(
        message,
        "State Changed\nWidget \\- [Acme](http://example.com/w) \\- In Stock"
    );
    let persisted = save_items(&items);
    assert_eq!(load_items(&persisted).unwrap(), items);
}

#[test]
fn unchanged_statuses_report_no_change() {
    let mut cycle = PollCycle::start(vec![widget(true), gadget(false)]);
    assert!(cycle.feed_body("Add to Cart"));
    assert!(cycle.feed_body("Sold Out"));
    let (changed, items) = cycle.finish();
    assert!(!changed);
    assert_eq!(items, vec![widget(true), gadget(false)]);
}

#[test]
fn failed_fetch_aborts_cycle_without_updates() {
    let original = vec![widget(false), gadget(false)];
    let mut cycle = PollCycle::start(original.clone());
    // The first item's body arrives and would flip its status ...
    assert!(cycle.feed_body("Add to Cart"));
    // ... but the second fetch fails, so the caller abandons the cycle.
    let items = cycle.abort();
    assert_eq!(items, original);
}

#[test]
fn statuses_follow_each_item_in_order() {
    let mut cycle = PollCycle::start(vec![widget(false), gadget(true)]);
    assert_eq!(cycle.current_url().as_str(), "http://example.com/w");
    assert!(cycle.feed_body("nothing for sale"));
    assert_eq!(cycle.current_url().as_str(), "http://example.com/g");
    assert!(cycle.feed_body("Sold Out"));
    let (changed, items) = cycle.finish();
    assert!(changed);
    assert!(!items[0].in_stock);
    assert!(!items[1].in_stock);
}

#[test]
fn rejected_pattern_reports_failure_and_records_nothing() {
    let item = InventoryItem {
        product: "Odd".to_string(),
        vendor: "V".to_string(),
        url: "u".to_string(),
        in_stock: false,
        matches: vec![MatchRule::Regex("(".to_string())],
    };
    let mut cycle = PollCycle::start(vec![item]);
    assert!(!cycle.feed_body("body"));
    assert!(!cycle.is_done());
}
