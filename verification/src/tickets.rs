//! The ticket-line listing and the clear-all operation.
//!
//! The listing shows every persisted line joined with its product's
//! category row, ordered by ingestion date then product; a line whose
//! product carries full category data is shown under the category and
//! display name, any other line under the raw product identifier.

use vstd::prelude::*;
use crate::database::{item_le, joined_items, Database, LineV, TicketItemData, TItemV};

verus! {

/// Ghost view of a [`ReplyItem`].
pub enum RItemV {
    Categorized { date: Seq<char>, category: Seq<char>, name: Seq<char>, quantity: int, sum: int },
    Uncategorized { date: Seq<char>, product: Seq<char>, quantity: int, sum: int },
}

/// How one joined line is shown: under its category and display name
/// when both are set, under the raw product identifier otherwise.
pub open spec fn titem_reply(t: TItemV) -> RItemV {
    match (t.category, t.name) {
        (Some(c), Some(n)) => RItemV::Categorized {
            date: t.date,
            category: c,
            name: n,
            quantity: t.quantity,
            sum: t.sum,
        },
        _ => RItemV::Uncategorized {
            date: t.date,
            product: t.product,
            quantity: t.quantity,
            sum: t.sum,
        },
    }
}

/// One row of the ticket listing reply.
pub enum ReplyItem {
    Categorized { date: String, category: String, name: String, quantity: u64, sum: u64 },
    Uncategorized { date: String, product: String, quantity: u64, sum: u64 },
}

impl DeepView for ReplyItem {
    type V = RItemV;

    closed spec fn deep_view(&self) -> RItemV {
        match self {
            ReplyItem::Categorized { date, category, name, quantity, sum } => RItemV::Categorized {
                date: date@,
                category: category@,
                name: name@,
                quantity: *quantity as int,
                sum: *sum as int,
            },
            ReplyItem::Uncategorized { date, product, quantity, sum } => RItemV::Uncategorized {
                date: date@,
                product: product@,
                quantity: *quantity as int,
                sum: *sum as int,
            },
        }
    }
}

impl ReplyItem {
    /// Shapes one joined line for the reply.
    pub fn from(value: TicketItemData) -> (r: Self)
        ensures
            r.deep_view() == titem_reply(value.deep_view()),
    {
        let date = String::from_str(value.date());
        let quantity = value.quantity();
        let sum = value.sum();
        match (value.category(), value.name()) {
            (Some(c), Some(n)) => ReplyItem::Categorized {
                date,
                category: c.clone(),
                name: n.clone(),
                quantity,
                sum,
            },
            _ => ReplyItem::Uncategorized {
                date,
                product: String::from_str(value.product()),
                quantity,
                sum,
            },
        }
    }
}

/// Reply envelope of the ticket endpoints.
pub enum Reply {
    List { success: bool, items: Vec<ReplyItem> },
    Success { success: bool },
    Error { success: bool, message: String },
}

impl Reply {
    /// A listing reply: every joined line shaped for the wire, in order.
    pub fn list(items: Vec<TicketItemData>) -> (r: Self)
        ensures
            r matches Reply::List { success, items: out } && success == true && out.deep_view()
                == items.deep_view().map_values(|t: TItemV| titem_reply(t)),
    {
        let ghost iv = items.deep_view();
        let n = items.len();
        let mut out: Vec<ReplyItem> = Vec::new();
        let mut k: usize = 0;
        let mut rest = items;
        // consume from the front so each row can be moved out
        while k < n
            invariant
                k <= n,
                n == iv.len(),
                rest.deep_view().len() == n - k,
                forall|t: int| 0 <= t < n - k ==> (#[trigger] rest.deep_view()[t]) == iv[t + k],
                out.deep_view().len() == k,
                forall|t: int|
                    0 <= t < k ==> (#[trigger] out.deep_view()[t]) == titem_reply(iv[t]),
            decreases n - k,
        {
            let ghost rest_before = rest.deep_view();
            let ghost out_before = out.deep_view();
            let row = rest.remove(0);
            proof {
                assert(rest_before[0] == iv[k as int]);
                assert(row.deep_view() == rest_before[0]);
                assert(rest.deep_view() =~= rest_before.subrange(1, rest_before.len() as int));
            }
            let item = ReplyItem::from(row);
            out.push(item);
            proof {
                assert(out.deep_view() =~= out_before.push(item.deep_view()));
                assert forall|t: int| 0 <= t < n - (k + 1) implies (
                #[trigger] rest.deep_view()[t]) == iv[t + k + 1] by {
                    assert(rest.deep_view()[t] == rest_before[t + 1]);
                }
            }
            k = k + 1;
        }
        proof {
            assert(out.deep_view() =~= iv.map_values(|t: TItemV| titem_reply(t)));
        }
        Reply::List { success: true, items: out }
    }

    pub fn success() -> (r: Self)
        ensures
            r matches Reply::Success { success } && success == true,
    {
        Reply::Success { success: true }
    }

    pub fn error(message: &str) -> (r: Self)
        ensures
            r matches Reply::Error { success, message: m } && success == false && m@ == message@,
    {
        Reply::Error { success: false, message: String::from_str(message) }
    }
}

/// The ticket listing: every persisted line joined with its category
/// row.  The reply shows some ordering of the joined lines by date then
/// product — a permutation of the join, nothing dropped or invented —
/// with each row shaped by [`titem_reply`].
pub fn list(database: &Database) -> (r: Reply)
    ensures
        r matches Reply::List { success, items } && success == true && exists|rows: Seq<TItemV>|
            {
                &&& #[trigger] rows.to_multiset() == joined_items(
                    database@.products,
                    database@.lines,
                ).to_multiset()
                &&& forall|i: int, j: int|
                    0 <= i < j < rows.len() ==> item_le(#[trigger] rows[i], #[trigger] rows[j])
                &&& items.deep_view() == rows.map_values(|t: TItemV| titem_reply(t))
            },
{
    let rows_data = database.select_ticket_items();
    let ghost rows = rows_data.deep_view();
    let r = Reply::list(rows_data);
    proof {
        let items_dv = match &r {
            Reply::List { items, .. } => items.deep_view(),
            _ => Seq::<RItemV>::empty(),
        };
        assert(items_dv == rows.map_values(|t: TItemV| titem_reply(t)));
        assert(rows.to_multiset() == joined_items(database@.products, database@.lines)
            .to_multiset());
    }
    r
}

/// Deletes every persisted line, irrevocably; category rows stay.
pub fn clear(database: &mut Database) -> (r: Reply)
    ensures
        final(database)@.lines == Seq::<LineV>::empty(),
        final(database)@.products == old(database)@.products,
        r matches Reply::Success { success } && success == true,
{
    database.remove_ticket_items();
    Reply::success()
}

} // verus!
