//! The ingestion flow for one scanned QR payload.
//!
//! Ingestion is idempotent and keyed by the derived ticket key: the
//! payload is parsed, and when lines are already persisted under the key
//! the flow stops with success, without contacting the operator.  Only a
//! fresh key proceeds to resolution, after which the aggregated items are
//! persisted as one line each.
//!
//! Resolution itself is a network call and happens outside this crate;
//! [`ingest_begin`] decides whether it is needed, and [`ingest_ticket`]
//! persists a resolved ticket.  [`ingest_flow`] is the ghost model of the
//! whole sequence, and [`lemma_ingest_idempotent`] states its law.

use vstd::prelude::*;
use crate::database::{count_key, lemma_count_key_app, lemma_count_key_le_len, Database, DbV, LineV};
use crate::datetime::date_rep;
use crate::datetime::format_date;
use crate::ofd::{key_of, load_params, params_spec, ItemV, Ticket, TicketError, TicketParams,
    TicketV};

verus! {

/// Reply of the ingestion entry point: a success flag, and a message on
/// failure.
pub struct TicketReply {
    pub success: bool,
    pub message: Option<String>,
}

impl TicketReply {
    pub fn success() -> (r: Self)
        ensures
            r.success,
            r.message is None,
    {
        TicketReply { success: true, message: None }
    }

    pub fn error(message: &str) -> (r: Self)
        ensures
            !r.success,
            r.message is Some,
            r.message->0@ == message@,
    {
        TicketReply { success: false, message: Some(String::from_str(message)) }
    }
}

/// What the existence check decided for one payload.
pub enum IngestGate {
    /// Lines are already persisted under the ticket key: re-scanning is a
    /// no-op that still reports success, and the operator is not
    /// contacted.
    AlreadyIngested,
    /// The key is fresh: the caller resolves the ticket against the
    /// operator and hands it to [`ingest_ticket`].
    NeedsResolution(TicketParams),
}

/// The persisted lines written for one resolved ticket: one line per
/// aggregated item, all under one key and ingestion date.
pub open spec fn lines_of(key: Seq<char>, date: Seq<char>, items: Seq<ItemV>) -> Seq<LineV> {
    items.map_values(
        |it: ItemV|
            LineV {
                ticket: key,
                date: date,
                product: it.name,
                quantity: it.quantity,
                sum: it.sum,
            },
    )
}

/// The whole ingestion sequence, as a function of the store, the raw
/// payload, and the outcome of resolving the ticket against the operator
/// (`None` when resolution fails or is never consulted).  An unparsable
/// payload, a known key, or a failed resolution leaves the store as it
/// is; otherwise the aggregated items are appended as lines.
pub open spec fn ingest_flow(db: DbV, data: Seq<char>, remote: Option<TicketV>) -> DbV {
    match params_spec(data) {
        None => db,
        Some(p) => {
            if count_key(db.lines, key_of(p)) > 0 {
                db
            } else {
                match remote {
                    None => db,
                    Some(t) => DbV {
                        lines: db.lines + lines_of(key_of(p), date_rep(t.datetime), t.items),
                        products: db.products,
                    },
                }
            }
        },
    }
}

/// Parses a payload and makes the idempotency decision: stop with
/// success when lines under its key already exist, else hand the parsed
/// parameters back for resolution.
pub fn ingest_begin(database: &Database, data: &str) -> (r: Result<IngestGate, TicketError>)
    ensures
        r is Ok <==> params_spec(data@) is Some,
        r is Err ==> r->Err_0 is InvalidPayload,
        r is Ok ==> {
            let p = params_spec(data@)->Some_0;
            &&& (r->Ok_0 is AlreadyIngested <==> count_key(database@.lines, key_of(p)) > 0)
            &&& (r->Ok_0 is NeedsResolution ==> r->Ok_0->NeedsResolution_0.deep_view() == p)
        },
{
    let params = match load_params(data) {
        Ok(p) => p,
        Err(e) => { return Err(e); },
    };
    let key = params.key();
    let count = database.ticket_item_count(key.as_str());
    if count > 0 {
        Ok(IngestGate::AlreadyIngested)
    } else {
        Ok(IngestGate::NeedsResolution(params))
    }
}

/// Persists one resolved ticket: one line per aggregated item, all under
/// the ticket's key, stamped with the transaction date.  Lines are
/// appended independently; nothing else of the store changes.
pub fn ingest_ticket(database: &mut Database, params: &TicketParams, ticket: &Ticket)
    requires
        ticket.deep_view().datetime.valid(),
    ensures
        final(database)@.lines == old(database)@.lines + lines_of(
            key_of(params.deep_view()),
            date_rep(ticket.deep_view().datetime),
            ticket.deep_view().items,
        ),
        final(database)@.products == old(database)@.products,
{
    let ghost items = ticket.deep_view().items;
    let ghost key_v = key_of(params.deep_view());
    let ghost date_v = date_rep(ticket.deep_view().datetime);
    let key = params.key();
    let date = format_date(ticket.datetime());
    let list = ticket.items();
    let n = list.len();
    let mut i: usize = 0;
    proof {
        assert(old(database)@.lines + lines_of(key_v, date_v, items.subrange(0, 0))
            =~= old(database)@.lines);
    }
    while i < n
        invariant
            i <= n,
            n == items.len(),
            items == list.deep_view(),
            key@ == key_v,
            date@ == date_v,
            database@.lines == old(database)@.lines + lines_of(
                key_v,
                date_v,
                items.subrange(0, i as int),
            ),
            database@.products == old(database)@.products,
        decreases n - i,
    {
        let ghost pre = database@.lines;
        proof {
            assert(items[i as int] == list@[i as int].deep_view());
        }
        let item = &list[i];
        database.insert_ticket_item(key.as_str(), date.as_str(), item.name(), item.quantity(),
            item.sum());
        proof {
            assert(database@.lines =~= old(database)@.lines + lines_of(
                key_v,
                date_v,
                items.subrange(0, i + 1),
            ));
        }
        i = i + 1;
    }
    proof {
        assert(items.subrange(0, n as int) =~= items);
    }
}

/// Every line in a block written for one key counts toward that key.
proof fn lemma_count_key_all(lines: Seq<LineV>, key: Seq<char>)
    requires
        forall|i: int| 0 <= i < lines.len() ==> (#[trigger] lines[i]).ticket == key,
    ensures
        count_key(lines, key) == lines.len(),
    decreases lines.len(),
{
    if lines.len() > 0 {
        let t = lines.drop_last();
        assert forall|i: int| 0 <= i < t.len() implies (#[trigger] t[i]).ticket == key by {
            assert(t[i] == lines[i]);
        }
        lemma_count_key_all(t, key);
        assert(lines[lines.len() - 1] == lines.last());
    }
}

/// Idempotency of ingestion: running the whole flow a second time with
/// the same payload and the same resolution outcome leaves the store
/// exactly as the first run left it — whether the payload fails to
/// parse, the ticket was already known, resolution fails, or the first
/// run persisted the ticket's lines.
pub proof fn lemma_ingest_idempotent(db: DbV, data: Seq<char>, remote: Option<TicketV>)
    ensures
        ingest_flow(ingest_flow(db, data, remote), data, remote) == ingest_flow(db, data, remote),
{
    let db1 = ingest_flow(db, data, remote);
    match params_spec(data) {
        None => {},
        Some(p) => {
            let k = key_of(p);
            if count_key(db.lines, k) > 0 {
            } else {
                match remote {
                    None => {},
                    Some(t) => {
                        let block = lines_of(k, date_rep(t.datetime), t.items);
                        lemma_count_key_app(db.lines, block, k);
                        lemma_count_key_le_len(db.lines, k);
                        assert forall|i: int| 0 <= i < block.len() implies (
                        #[trigger] block[i]).ticket == k by {}
                        lemma_count_key_all(block, k);
                        if t.items.len() > 0 {
                            assert(count_key(db1.lines, k) > 0);
                        } else {
                            assert(block =~= Seq::<LineV>::empty());
                            assert(db1.lines =~= db.lines);
                            assert(count_key(db1.lines, k) == count_key(db.lines, k));
                            let db2 = ingest_flow(db1, data, remote);
                            assert(db2.lines =~= db1.lines);
                            assert(db2 == db1);
                        }
                    },
                }
            }
        },
    }
}

} // verus!
