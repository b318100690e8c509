//! Aggregation of raw line items into one row per distinct product.

use receipt_check::ofd::{OfdTicketItem, Ticket, TicketError};

fn raw(name: &str, quantity_milli: u64, sum_minor: u64) -> OfdTicketItem {
    OfdTicketItem { name: String::from(name), quantity: quantity_milli, sum: sum_minor }
}

#[test]
fn aggregation_merges_by_name() {
    // raw items (A, 1, 100), (A, 2, 50), (B, 1, 200) in minor units:
    // A ends with quantity 3 and sum 1.50, B with quantity 1 and 2.00.
    let items = vec![raw("A", 1000, 100), raw("A", 2000, 50), raw("B", 1000, 200)];
    let ticket = Ticket::from_parts("2023-01-01T12:00:00", items).unwrap();
    let agg = ticket.items();
    assert_eq!(agg.len(), 2);
    assert_eq!(agg[0].name(), "A");
    assert_eq!(agg[0].quantity(), 3000);
    assert_eq!(agg[0].sum(), 150);
    assert_eq!(agg[1].name(), "B");
    assert_eq!(agg[1].quantity(), 1000);
    assert_eq!(agg[1].sum(), 200);
}

#[test]
fn aggregation_of_empty_response_is_empty() {
    let ticket = Ticket::from_parts("2023-01-01T12:00:00", Vec::new()).unwrap();
    assert_eq!(ticket.items().len(), 0);
}

#[test]
fn aggregation_order_does_not_change_totals() {
    let forward = vec![raw("A", 1000, 100), raw("A", 2000, 50), raw("B", 1000, 200)];
    let backward = vec![raw("B", 1000, 200), raw("A", 2000, 50), raw("A", 1000, 100)];
    let t1 = Ticket::from_parts("2023-01-01T12:00:00", forward).unwrap();
    let t2 = Ticket::from_parts("2023-01-01T12:00:00", backward).unwrap();
    let total = |t: &Ticket, name: &str| -> (u64, u64) {
        for it in t.items() {
            if it.name() == name {
                return (it.quantity(), it.sum());
            }
        }
        (0, 0)
    };
    assert_eq!(total(&t1, "A"), total(&t2, "A"));
    assert_eq!(total(&t1, "B"), total(&t2, "B"));
}

#[test]
fn transaction_date_is_kept() {
    let ticket = Ticket::from_parts("2024-02-29T23:59:59", Vec::new()).unwrap();
    let dt = ticket.datetime();
    assert_eq!(dt.year, 2024);
    assert_eq!(dt.month, 2);
    assert_eq!(dt.day, 29);
    assert_eq!(dt.hour, 23);
    assert_eq!(dt.minute, 59);
    assert_eq!(dt.second, 59);
}

#[test]
fn bad_transaction_dates_are_rejected() {
    for bad in [
        "2023-02-29T12:00:00", // 2023 is no leap year
        "2023-13-01T12:00:00",
        "2023-00-01T12:00:00",
        "2023-04-31T12:00:00",
        "2023-01-01T24:00:00",
        "2023-01-01T12:60:00",
        "2023-01-01 12:00:00",
        "2023-01-01T12:00",
        "23-01-01T12:00:00",
    ] {
        let r = Ticket::from_parts(bad, Vec::new());
        assert!(matches!(r, Err(TicketError::InvalidTimestamp)), "accepted: {bad}");
    }
}

#[test]
fn fresh_item_accumulator_is_zero() {
    let it = receipt_check::ofd::TicketItem::new("Bread");
    assert_eq!(it.name(), "Bread");
    assert_eq!(it.quantity(), 0);
    assert_eq!(it.sum(), 0);
}
