//! The in-memory store: counting, inserting, deleting, the joined
//! listings, and the row accessors.

use receipt_check::database::{CategoryName, Database, ProductData, TicketItemData};
use receipt_check::tickets::{clear, list, Reply, ReplyItem};

#[test]
fn counts_follow_inserts() {
    let mut db = Database::new();
    assert_eq!(db.ticket_item_count("K"), 0);
    db.insert_ticket_item("K", "2023.01.01", "Milk", 1000, 100);
    db.insert_ticket_item("K", "2023.01.01", "Bread", 2000, 50);
    db.insert_ticket_item("L", "2023.01.02", "Milk", 1000, 100);
    assert_eq!(db.ticket_item_count("K"), 2);
    assert_eq!(db.ticket_item_count("L"), 1);
    assert_eq!(db.ticket_item_count("M"), 0);
}

#[test]
fn remove_ticket_deletes_only_its_lines() {
    let mut db = Database::new();
    db.insert_ticket_item("K", "2023.01.01", "Milk", 1000, 100);
    db.insert_ticket_item("L", "2023.01.02", "Bread", 2000, 50);
    db.remove_ticket("K");
    assert_eq!(db.ticket_item_count("K"), 0);
    assert_eq!(db.ticket_item_count("L"), 1);
}

#[test]
fn clear_all_lines_keeps_categories() {
    let mut db = Database::new();
    db.insert_ticket_item("K", "2023.01.01", "Milk", 1000, 100);
    db.updatre_product_category("Milk", "dairy", "Milk 3.2%");
    let reply = clear(&mut db);
    assert!(matches!(reply, Reply::Success { success: true }));
    assert_eq!(db.ticket_item_count("K"), 0);
    assert_eq!(db.select_ticket_items().len(), 0);
    // the category row survives the clear
    let cn = db.select_category_name("Milk").unwrap();
    assert_eq!(cn.category(), "dairy");
    assert_eq!(cn.name(), "Milk 3.2%");
}

#[test]
fn ticket_listing_is_joined_and_ordered() {
    let mut db = Database::new();
    db.insert_ticket_item("K", "2023.01.02", "pears", 1000, 300);
    db.insert_ticket_item("K", "2023.01.01", "milk", 2000, 100);
    db.insert_ticket_item("L", "2023.01.01", "bread", 1000, 50);
    db.updatre_product_category("milk", "dairy", "Milk");
    let rows = db.select_ticket_items();
    assert_eq!(rows.len(), 3);
    // ordered by date, then product
    assert_eq!(rows[0].date(), "2023.01.01");
    assert_eq!(rows[0].product(), "bread");
    assert_eq!(rows[1].date(), "2023.01.01");
    assert_eq!(rows[1].product(), "milk");
    assert_eq!(rows[2].date(), "2023.01.02");
    assert_eq!(rows[2].product(), "pears");
    // the join carries category data where it exists
    assert_eq!(rows[1].category().map(String::as_str), Some("dairy"));
    assert_eq!(rows[1].name().map(String::as_str), Some("Milk"));
    assert!(rows[0].category().is_none());
    assert_eq!(rows[1].quantity(), 2000);
    assert_eq!(rows[1].sum(), 100);
}

#[test]
fn ticket_reply_items_split_by_categorization() {
    let mut db = Database::new();
    db.insert_ticket_item("K", "2023.01.01", "milk", 2000, 100);
    db.insert_ticket_item("K", "2023.01.01", "tea", 1000, 50);
    db.updatre_product_category("milk", "dairy", "Milk");
    let reply = list(&db);
    let items = match reply {
        Reply::List { success, items } => {
            assert!(success);
            items
        },
        _ => panic!("listing must reply with a list"),
    };
    assert_eq!(items.len(), 2);
    match &items[0] {
        ReplyItem::Categorized { date, category, name, quantity, sum } => {
            assert_eq!(date, "2023.01.01");
            assert_eq!(category, "dairy");
            assert_eq!(name, "Milk");
            assert_eq!(*quantity, 2000);
            assert_eq!(*sum, 100);
        },
        ReplyItem::Uncategorized { .. } => panic!("milk carries full category data"),
    }
    match &items[1] {
        ReplyItem::Uncategorized { date, product, quantity, sum } => {
            assert_eq!(date, "2023.01.01");
            assert_eq!(product, "tea");
            assert_eq!(*quantity, 1000);
            assert_eq!(*sum, 50);
        },
        ReplyItem::Categorized { .. } => panic!("tea has no category data"),
    }
}

#[test]
fn next_uncatigorized_product_scans_in_insertion_order() {
    let mut db = Database::new();
    assert!(db.next_uncatigorized_product("K").is_none());
    db.insert_ticket_item("K", "2023.01.01", "milk", 1000, 100);
    db.insert_ticket_item("K", "2023.01.01", "tea", 1000, 50);
    assert_eq!(db.next_uncatigorized_product("K").as_deref(), Some("milk"));
    db.updatre_product_category("milk", "dairy", "Milk");
    assert_eq!(db.next_uncatigorized_product("K").as_deref(), Some("tea"));
    db.updatre_product_category("tea", "drinks", "Tea");
    assert!(db.next_uncatigorized_product("K").is_none());
}

#[test]
fn partial_category_rows_count_as_absent() {
    let db = Database::new();
    assert!(db.select_category_name("ghost").is_none());
}

#[test]
fn row_accessors_return_their_fields() {
    let cn = CategoryName::new("dairy", "Milk");
    assert_eq!(cn.category(), "dairy");
    assert_eq!(cn.name(), "Milk");

    let pd = ProductData::new(String::from("milk"), Some(String::from("dairy")), None);
    assert_eq!(pd.product(), "milk");
    assert_eq!(pd.category().map(String::as_str), Some("dairy"));
    assert!(pd.name().is_none());

    let ti = TicketItemData::new(
        String::from("2023.01.01"),
        String::from("milk"),
        None,
        None,
        1500,
        4200,
    );
    assert_eq!(ti.date(), "2023.01.01");
    assert_eq!(ti.product(), "milk");
    assert!(ti.category().is_none());
    assert!(ti.name().is_none());
    assert_eq!(ti.quantity(), 1500);
    assert_eq!(ti.sum(), 4200);
}

#[test]
fn tickets_reply_envelopes() {
    assert!(matches!(Reply::success(), Reply::Success { success: true }));
    match Reply::error("storage gone") {
        Reply::Error { success, message } => {
            assert!(!success);
            assert_eq!(message, "storage gone");
        },
        _ => panic!("expected the error variant"),
    }
}
