//! End-to-end ingestion behaviour: payload parsing, the idempotency
//! gate, response decoding through real JSON parsing, and persistence.

use receipt_check::database::Database;
use receipt_check::ofd::{decode_ticket, load_params, ticket_uri, TicketError};
use receipt_check::qrcode::{ingest_begin, ingest_ticket, IngestGate, TicketReply};

const PAYLOAD: &str = "t=20230101T1200&s=478&fn=9280000000&i=5&fp=1276&n=1";
const BODY: &str = "{\"ticket\":{\"transactionDate\":\"2023-01-01T12:00:00\",\
    \"items\":[{\"name\":\"Milk\",\"quantity\":1,\"sum\":15000}]}}";

fn ingest(db: &mut Database, payload: &str, body: &str) -> bool {
    match ingest_begin(db, payload) {
        Ok(IngestGate::AlreadyIngested) => true,
        Ok(IngestGate::NeedsResolution(params)) => {
            let ticket = decode_ticket(body).expect("body should decode");
            ingest_ticket(db, &params, &ticket);
            true
        },
        Err(_) => false,
    }
}

#[test]
fn end_to_end_scenario() {
    let mut db = Database::new();
    let gate = ingest_begin(&db, PAYLOAD).expect("payload should parse");
    let params = match gate {
        IngestGate::NeedsResolution(p) => p,
        IngestGate::AlreadyIngested => panic!("fresh store cannot know the ticket"),
    };
    assert_eq!(params.key(), "20230101T1200;5");

    let ticket = decode_ticket(BODY).expect("body should decode");
    assert_eq!(ticket.items().len(), 1);
    ingest_ticket(&mut db, &params, &ticket);

    assert_eq!(db.ticket_item_count("20230101T1200;5"), 1);
    let rows = db.select_ticket_items();
    assert_eq!(rows.len(), 1);
    assert_eq!(rows[0].date(), "2023.01.01");
    assert_eq!(rows[0].product(), "Milk");
    assert_eq!(rows[0].quantity(), 1000); // one unit, in thousandths
    assert_eq!(rows[0].sum(), 15000); // 150.00, in minor units

    // Re-scanning the identical payload stops at the existence check:
    // the operator is not consulted again and nothing new is persisted.
    match ingest_begin(&db, PAYLOAD).expect("payload should parse") {
        IngestGate::AlreadyIngested => {},
        IngestGate::NeedsResolution(_) => panic!("known ticket must not be re-resolved"),
    }
    assert_eq!(db.ticket_item_count("20230101T1200;5"), 1);
}

#[test]
fn ingest_twice_is_ingest_once() {
    let mut db = Database::new();
    assert!(ingest(&mut db, PAYLOAD, BODY));
    let once = db.select_ticket_items().len();
    assert!(ingest(&mut db, PAYLOAD, BODY));
    assert_eq!(db.select_ticket_items().len(), once);
}

#[test]
fn distinct_tickets_both_persist() {
    let mut db = Database::new();
    assert!(ingest(&mut db, PAYLOAD, BODY));
    let other = "t=20230102T0930&s=5.5&fn=9280000000&i=6&fp=99&n=1";
    assert!(ingest(&mut db, other, BODY));
    assert_eq!(db.ticket_item_count("20230101T1200;5"), 1);
    assert_eq!(db.ticket_item_count("20230102T0930;6"), 1);
}

#[test]
fn malformed_payload_is_rejected() {
    let db = Database::new();
    let r = ingest_begin(&db, "t=20230101T1200&s=478");
    assert!(matches!(r, Err(TicketError::InvalidPayload)));
    let r = ingest_begin(&db, "");
    assert!(matches!(r, Err(TicketError::InvalidPayload)));
    let r = ingest_begin(&db, "t=x&s=no&fn=1&i=2&fp=3&n=4");
    assert!(matches!(r, Err(TicketError::InvalidPayload)));
}

#[test]
fn payload_fields_parse_in_any_order() {
    let p = load_params("n=1&fp=1276&i=5&fn=9280000000&s=478&t=20230101T1200").unwrap();
    assert_eq!(p.key(), "20230101T1200;5");
    assert_eq!(p.sum(), 47800);
    assert_eq!(p.fiscal_storage(), 9280000000);
    assert_eq!(p.index(), 5);
    assert_eq!(p.fiscal_signature(), 1276);
    assert_eq!(p.number(), 1);
}

#[test]
fn payload_last_duplicate_wins() {
    let p = load_params("t=AAA&s=1&fn=1&i=2&fp=3&n=4&i=7").unwrap();
    assert_eq!(p.index(), 7);
    assert_eq!(p.key(), "AAA;7");
}

#[test]
fn monetary_sum_accepts_fractions() {
    let p = load_params("t=T&s=478.56&fn=1&i=2&fp=3&n=4").unwrap();
    assert_eq!(p.sum(), 47856);
    let p = load_params("t=T&s=478.5&fn=1&i=2&fp=3&n=4").unwrap();
    assert_eq!(p.sum(), 47850);
    let r = load_params("t=T&s=478.567&fn=1&i=2&fp=3&n=4");
    assert!(matches!(r, Err(TicketError::InvalidPayload)));
}

#[test]
fn lookup_uri_encodes_fields_in_order() {
    let p = load_params("t=20230101T1200&s=478.50&fn=9280000000&i=5&fp=1276&n=1").unwrap();
    assert_eq!(
        ticket_uri(&p),
        "https://consumer.1-ofd.ru/api/tickets/ticket/t=20230101T1200&s=478.5&fn=9280000000&i=5&fp=1276&n=1",
    );
}

#[test]
fn malformed_response_is_rejected() {
    assert!(matches!(decode_ticket("not json"), Err(TicketError::MalformedResponse)));
    assert!(matches!(decode_ticket("{}"), Err(TicketError::MalformedResponse)));
    assert!(matches!(decode_ticket("{\"ticket\":{}}"), Err(TicketError::MalformedResponse)));
    let no_items = "{\"ticket\":{\"transactionDate\":\"2023-01-01T12:00:00\"}}";
    assert!(matches!(decode_ticket(no_items), Err(TicketError::MalformedResponse)));
    let bad_item = "{\"ticket\":{\"transactionDate\":\"2023-01-01T12:00:00\",\
                    \"items\":[{\"name\":\"Milk\",\"sum\":1}]}}";
    assert!(matches!(decode_ticket(bad_item), Err(TicketError::MalformedResponse)));
    let neg_sum = "{\"ticket\":{\"transactionDate\":\"2023-01-01T12:00:00\",\
                   \"items\":[{\"name\":\"Milk\",\"quantity\":1,\"sum\":-5}]}}";
    assert!(matches!(decode_ticket(neg_sum), Err(TicketError::MalformedResponse)));
}

#[test]
fn invalid_timestamp_is_rejected() {
    let bad = "{\"ticket\":{\"transactionDate\":\"2023-02-29T12:00:00\",\
               \"items\":[{\"name\":\"Milk\",\"quantity\":1,\"sum\":1}]}}";
    assert!(matches!(decode_ticket(bad), Err(TicketError::InvalidTimestamp)));
    let bad = "{\"ticket\":{\"transactionDate\":\"2023/01/01 12:00:00\",\
               \"items\":[]}}";
    assert!(matches!(decode_ticket(bad), Err(TicketError::InvalidTimestamp)));
}

#[test]
fn error_messages_describe_the_cause() {
    assert_eq!(TicketError::InvalidPayload.message(), "invalid payload");
    assert_eq!(TicketError::MalformedResponse.message(), "malformed response");
    assert_eq!(TicketError::InvalidTimestamp.message(), "invalid timestamp");
    assert_eq!(TicketError::NetworkError(String::from("timed out")).message(), "timed out");
    assert_eq!(TicketError::PersistenceError(String::from("locked")).message(), "locked");
}

#[test]
fn ticket_reply_carries_the_outcome() {
    let ok = TicketReply::success();
    assert!(ok.success);
    assert!(ok.message.is_none());
    let err = TicketReply::error("boom");
    assert!(!err.success);
    assert_eq!(err.message.as_deref(), Some("boom"));
}
