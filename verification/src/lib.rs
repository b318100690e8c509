//! Ticket-ingestion and categorization engine for scanned fiscal receipts.
//!
//! A scanned QR payload is parsed into ticket parameters, resolved against
//! the fiscal operator's response body into aggregated line items, and
//! persisted idempotently keyed by the derived ticket key.  Product
//! identifiers seen in persisted lines can be assigned a category and a
//! display name, and the still-uncategorized products can be listed.
//!
//! Quantities are held in thousandths of a unit and monetary amounts in
//! minor currency units (hundredths), so that aggregation is exact integer
//! arithmetic.

pub mod categories;
pub mod database;
pub mod datetime;
mod json;
pub mod ofd;
pub mod qrcode;
pub mod text;
pub mod tickets;
