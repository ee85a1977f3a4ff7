use inventory_alerts::model::InventoryItem;
use inventory_alerts::notify::render_message;
use inventory_alerts::store::load_items;

#[test]
fn boot_notification_lists_persisted_state_before_any_fetch() {
    let text = "- product: Widget\n  vendor: Acme\n  url: http://example.com/w\n  inStock: true\n  matches:\n    - contains: Add to Cart\n";
    let items = load_items(text).unwrap();
    assert!(items[0].in_stock);
    let message = render_message("Boot", &items);
    assert_eq!(
        message,
        "Boot\nWidget \\- [Acme](http://example.com/w) \\- In Stock"
    );
}

#[test]
fn out_of_stock_items_are_listed_as_such() {
    let items = vec![InventoryItem {
        product: "Widget".to_string(),
        vendor: "Acme".to_string(),
        url: "http://example.com/w".to_string(),
        in_stock: false,
        matches: Vec::new(),
    }];
    let message = render_message("Boot", &items);
    assert_eq!(
        message,
        "Boot\nWidget \\- [Acme](http://example.com/w) \\- Out of Stock"
    );
}

#[test]
fn every_hyphen_of_the_digest_is_escaped() {
    let items = vec![InventoryItem {
        product: "Wi-dget".to_string(),
        vendor: "Ac-me".to_string(),
        url: "http://example.com/w-1".to_string(),
        in_stock: false,
        matches: Vec::new(),
    }];
    let message = render_message("State Changed", &items);
    assert_eq!(
        message,
        "State Changed\nWi\\-dget \\- [Ac\\-me](http://example.com/w\\-1) \\- Out of Stock"
    );
}

#[test]
fn header_alone_for_empty_collection() {
    let items: Vec<InventoryItem> = Vec::new();
    assert_eq!(render_message("Boot", &items), "Boot");
}
