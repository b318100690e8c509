//! Category assignment, the product listing, and the uncategorized
//! report.

use receipt_check::categories::{list, uncategorized_products, update, Reply, ReplyItem,
    UpdateParams};
use receipt_check::database::{Database, ProductData};

fn store_with_lines(products: &[&str]) -> Database {
    let mut db = Database::new();
    for (i, p) in products.iter().enumerate() {
        let key = format!("T;{}", i);
        db.insert_ticket_item(&key, "2023.01.01", p, 1000, 100);
    }
    db
}

fn assign(db: &mut Database, product: &str, category: &str, name: &str) {
    let params = UpdateParams::new(
        String::from(product),
        String::from(category),
        String::from(name),
    );
    let reply = update(db, &params);
    assert!(matches!(reply, Reply::Success { success: true }));
}

#[test]
fn uncategorized_detection() {
    // lines for X and Y, a category row only for X: exactly Y remains.
    let mut db = store_with_lines(&["X", "Y"]);
    assign(&mut db, "X", "food", "Bread");
    assert_eq!(uncategorized_products(&db), vec![String::from("Y")]);
}

#[test]
fn upsert_keeps_one_row_with_latest_values() {
    let mut db = store_with_lines(&["X"]);
    assign(&mut db, "X", "food", "Bread");
    assign(&mut db, "X", "food", "Rye Bread");
    let rows = db.select_category_names();
    assert_eq!(rows.len(), 1);
    assert_eq!(rows[0].product(), "X");
    assert_eq!(rows[0].category().map(String::as_str), Some("food"));
    assert_eq!(rows[0].name().map(String::as_str), Some("Rye Bread"));
    let cn = db.select_category_name("X").unwrap();
    assert_eq!(cn.category(), "food");
    assert_eq!(cn.name(), "Rye Bread");
}

#[test]
fn listing_joins_each_product_once_in_order() {
    let mut db = store_with_lines(&["pears", "apples", "pears", "milk"]);
    assign(&mut db, "milk", "dairy", "Milk");
    let reply = list(&db);
    let items = match reply {
        Reply::List { success, items } => {
            assert!(success);
            items
        },
        _ => panic!("listing must reply with a list"),
    };
    let products: Vec<&str> = items.iter().map(|i| i.product()).collect();
    assert_eq!(products, vec!["apples", "milk", "pears"]);
    assert_eq!(items[1].category(), "dairy");
    assert_eq!(items[1].name(), "Milk");
    assert_eq!(items[0].category(), "");
    assert_eq!(items[0].name(), "");
}

#[test]
fn uncategorized_list_is_sorted_and_duplicate_free() {
    let mut db = store_with_lines(&["c", "a", "b", "a"]);
    assign(&mut db, "b", "misc", "B");
    assert_eq!(uncategorized_products(&db), vec![String::from("a"), String::from("c")]);
}

#[test]
fn category_row_without_lines_is_not_listed() {
    let mut db = store_with_lines(&["X"]);
    assign(&mut db, "Z", "ghost", "Unseen");
    let reply = list(&db);
    let items = match reply {
        Reply::List { items, .. } => items,
        _ => panic!("listing must reply with a list"),
    };
    assert_eq!(items.len(), 1);
    assert_eq!(items[0].product(), "X");
}

#[test]
fn reply_item_defaults_absent_fields_to_empty() {
    let full = ReplyItem::from(ProductData::new(
        String::from("X"),
        Some(String::from("food")),
        Some(String::from("Bread")),
    ));
    assert_eq!(full.product(), "X");
    assert_eq!(full.category(), "food");
    assert_eq!(full.name(), "Bread");
    let bare = ReplyItem::from(ProductData::new(String::from("Y"), None, None));
    assert_eq!(bare.product(), "Y");
    assert_eq!(bare.category(), "");
    assert_eq!(bare.name(), "");
}

#[test]
fn update_params_expose_their_fields() {
    let p = UpdateParams::new(String::from("X"), String::from("food"), String::from("Bread"));
    assert_eq!(p.product(), "X");
    assert_eq!(p.category(), "food");
    assert_eq!(p.name(), "Bread");
}

#[test]
fn category_reply_envelopes() {
    assert!(matches!(Reply::success(), Reply::Success { success: true }));
    match Reply::error("nope") {
        Reply::Error { success, message } => {
            assert!(!success);
            assert_eq!(message, "nope");
        },
        _ => panic!("expected the error variant"),
    }
}

#[test]
fn blank_assignment_counts_as_absent() {
    // an empty category and name satisfy the upsert, but the lookup and
    // the uncategorized report treat the row as carrying no data
    let mut db = store_with_lines(&["X", "Y"]);
    assign(&mut db, "X", "", "");
    assert!(db.select_category_name("X").is_none());
    assert_eq!(
        uncategorized_products(&db),
        vec![String::from("X"), String::from("Y")],
    );
}

#[test]
fn partially_blank_assignment_hides_lookup_only() {
    // a row with a category but a blank name: not a full categorization,
    // yet not without data either, so it leaves the uncategorized report
    let mut db = store_with_lines(&["X"]);
    assign(&mut db, "X", "food", "");
    assert!(db.select_category_name("X").is_none());
    assert_eq!(uncategorized_products(&db), Vec::<String>::new());
    let rows = db.select_category_names();
    assert_eq!(rows.len(), 1);
    assert_eq!(rows[0].category().map(String::as_str), Some("food"));
    assert_eq!(rows[0].name().map(String::as_str), Some(""));
}
