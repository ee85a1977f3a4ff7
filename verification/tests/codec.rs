use inventory_alerts::model::{InventoryItem, MatchRule};
use inventory_alerts::store::{load_items, save_items, ParseError};

fn widget(in_stock: bool) -> InventoryItem {
    InventoryItem {
        product: "Widget".to_string(),
        vendor: "Acme".to_string(),
        url: "http://example.com/w".to_string(),
        in_stock,
        matches: vec![MatchRule::Contains("Add to Cart".to_string())],
    }
}

#[test]
fn save_writes_the_documented_layout() {
    let items = vec![widget(false)];
    let text = save_items(&items);
    assert_eq!(
        text,
        "- product: Widget\n  vendor: Acme\n  url: http://example.com/w\n  inStock: false\n  matches:\n    - contains: Add to Cart\n"
    );
}

#[test]
fn round_trip_is_lossless() {
    let items = vec![
        InventoryItem {
            product: "Gadget".to_string(),
            vendor: "Globex".to_string(),
            url: "https://shop.example/g".to_string(),
            in_stock: true,
            matches: vec![
                MatchRule::Regex("[Ii]n [Ss]tock".to_string()),
                MatchRule::NegatedRegex("[Ss]old [Oo]ut".to_string()),
                MatchRule::Contains("Buy now".to_string()),
                MatchRule::DoesNotContain("Backorder".to_string()),
            ],
        },
        widget(false),
    ];
    let loaded = load_items(&save_items(&items)).unwrap();
    assert_eq!(loaded, items);
}

#[test]
fn round_trip_keeps_awkward_characters() {
    let items = vec![InventoryItem {
        product: "line\nbreak".to_string(),
        vendor: "back\\slash".to_string(),
        url: "dash-and-colon: x".to_string(),
        in_stock: true,
        matches: vec![MatchRule::Contains("mixed \\n literal\n".to_string())],
    }];
    let loaded = load_items(&save_items(&items)).unwrap();
    assert_eq!(loaded, items);
}

#[test]
fn round_trip_of_empty_collection() {
    let items: Vec<InventoryItem> = Vec::new();
    assert_eq!(save_items(&items), "");
    assert_eq!(load_items("").unwrap(), items);
}

#[test]
fn malformed_text_is_a_syntax_error() {
    assert_eq!(load_items("not an inventory file\n"), Err(ParseError::Syntax));
    assert_eq!(load_items("- product: Widget"), Err(ParseError::Syntax));
    assert_eq!(
        load_items("- product: Widget\n  vendor: Acme\n"),
        Err(ParseError::Syntax)
    );
}

#[test]
fn bad_escape_is_a_syntax_error() {
    let text = "- product: Widge\\t\n  vendor: Acme\n  url: u\n  inStock: true\n  matches:\n";
    assert_eq!(load_items(text), Err(ParseError::Syntax));
}

#[test]
fn rejected_pattern_is_a_pattern_error() {
    let mut item = widget(true);
    item.matches = vec![MatchRule::Regex("(".to_string())];
    let text = save_items(&vec![item]);
    assert_eq!(load_items(&text), Err(ParseError::BadPattern));
}

#[test]
fn item_without_rules_loads() {
    let items = vec![InventoryItem {
        product: "Plain".to_string(),
        vendor: "V".to_string(),
        url: "u".to_string(),
        in_stock: false,
        matches: Vec::new(),
    }];
    let loaded = load_items(&save_items(&items)).unwrap();
    assert_eq!(loaded, items);
}
