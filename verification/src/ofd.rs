//! The fiscal operator's side of the flow: the parameters scanned from a
//! receipt's QR payload, the idempotency key and lookup request derived
//! from them, and the decoding of the operator's response body into a
//! ticket with aggregated line items.
//!
//! Quantities are held in thousandths of a unit, monetary sums in minor
//! currency units, so that aggregation is exact integer arithmetic.

use vstd::prelude::*;
use crate::datetime::{parse_timestamp, ts_of, ts_valid, Timestamp};
use crate::json::{get_array, get_member, get_number_text, get_text, json_of, jv_get, parse_json,
    JsonV};
use crate::text::{all_digits, dec_rep, dec_val, find_in, lemma_find_in, parse_scaled, parse_u64,
    scaled_val, split_char, split_on, str_eq, sum_rep, u64_string};
use crate::text::find_char;

verus! {

/// Upper bound (exclusive) on a single raw quantity or sum accepted from
/// the operator, so that aggregating any response fits in 64 bits.
pub const AMOUNT_LIMIT: u64 = 0x1_0000_0000;

// ---------------------------------------------------------------------------
// Errors
// ---------------------------------------------------------------------------

/// A typed failure of the ingestion flow.
#[derive(Debug)]
pub enum TicketError {
    /// The scanned QR payload does not carry the six operator fields.
    InvalidPayload,
    /// The transport to the operator failed; carries the transport's text.
    NetworkError(String),
    /// The operator's response body does not have the expected shape.
    MalformedResponse,
    /// The operator's transaction date is not `YYYY-MM-DDTHH:MM:SS`.
    InvalidTimestamp,
    /// A storage operation failed; carries the storage engine's text.
    PersistenceError(String),
}

impl TicketError {
    /// A short description for the reply envelope.
    pub fn message(&self) -> (r: String)
        ensures
            r@ == match *self {
                TicketError::InvalidPayload => "invalid payload"@,
                TicketError::NetworkError(ref m) => m@,
                TicketError::MalformedResponse => "malformed response"@,
                TicketError::InvalidTimestamp => "invalid timestamp"@,
                TicketError::PersistenceError(ref m) => m@,
            },
    {
        match self {
            TicketError::InvalidPayload => String::from_str("invalid payload"),
            TicketError::NetworkError(m) => m.clone(),
            TicketError::MalformedResponse => String::from_str("malformed response"),
            TicketError::InvalidTimestamp => String::from_str("invalid timestamp"),
            TicketError::PersistenceError(m) => m.clone(),
        }
    }
}

// ---------------------------------------------------------------------------
// Ticket parameters and key derivation
// ---------------------------------------------------------------------------

/// Ghost view of [`TicketParams`].
pub struct ParamsV {
    pub time: Seq<char>,
    pub sum: int,
    pub fiscal_storage: int,
    pub index: int,
    pub fiscal_signature: int,
    pub number: int,
}

/// The six fields scanned from a receipt's QR payload.  The timestamp is
/// kept verbatim as the operator embedded it; the sum is in minor
/// currency units.
pub struct TicketParams {
    time: String,
    sum: u64,
    fiscal_storage: u64,
    index: u32,
    fiscal_signature: u64,
    number: u8,
}

impl DeepView for TicketParams {
    type V = ParamsV;

    closed spec fn deep_view(&self) -> ParamsV {
        ParamsV {
            time: self.time@,
            sum: self.sum as int,
            fiscal_storage: self.fiscal_storage as int,
            index: self.index as int,
            fiscal_signature: self.fiscal_signature as int,
            number: self.number as int,
        }
    }
}

/// The idempotency key of a ticket: its verbatim timestamp and its
/// receipt index, separated by a semicolon.
pub open spec fn key_of(p: ParamsV) -> Seq<char> {
    p.time + seq![';'] + dec_rep(p.index)
}

impl TicketParams {
    /// The derived ticket key, unique per physical receipt.
    pub fn key(&self) -> (r: String)
        ensures
            r@ == key_of(self.deep_view()),
    {
        let mut s = self.time.clone();
        proof {
            reveal_strlit(";");
        }
        s.append(";");
        s.append(u64_string(self.index as u64).as_str());
        proof {
            assert(s@ =~= key_of(self.deep_view()));
        }
        s
    }

    pub fn time(&self) -> (r: &str)
        ensures
            r@ == self.deep_view().time,
    {
        self.time.as_str()
    }

    pub fn sum(&self) -> (r: u64)
        ensures
            r as int == self.deep_view().sum,
    {
        self.sum
    }

    pub fn fiscal_storage(&self) -> (r: u64)
        ensures
            r as int == self.deep_view().fiscal_storage,
    {
        self.fiscal_storage
    }

    pub fn index(&self) -> (r: u32)
        ensures
            r as int == self.deep_view().index,
    {
        self.index
    }

    pub fn fiscal_signature(&self) -> (r: u64)
        ensures
            r as int == self.deep_view().fiscal_signature,
    {
        self.fiscal_signature
    }

    pub fn number(&self) -> (r: u8)
        ensures
            r as int == self.deep_view().number,
    {
        self.number
    }
}

// ---------------------------------------------------------------------------
// QR payload parsing
// ---------------------------------------------------------------------------

/// The key part of one `key=value` segment (the whole segment when it
/// carries no equals sign).
pub open spec fn seg_key(seg: Seq<char>) -> Seq<char> {
    let e = find_in(seg, '=');
    if e < 0 {
        seg
    } else {
        seg.subrange(0, e)
    }
}

/// The value part of one `key=value` segment (empty when it carries no
/// equals sign).
pub open spec fn seg_val(seg: Seq<char>) -> Seq<char> {
    let e = find_in(seg, '=');
    if e < 0 {
        Seq::empty()
    } else {
        seg.subrange(e + 1, seg.len() as int)
    }
}

/// The value of the last segment carrying the given key, if any.
pub open spec fn field_from(segs: Seq<Seq<char>>, key: Seq<char>) -> Option<Seq<char>>
    decreases segs.len(),
{
    if segs.len() == 0 {
        None
    } else if seg_key(segs.last()) == key {
        Some(seg_val(segs.last()))
    } else {
        field_from(segs.drop_last(), key)
    }
}

/// The value of a key in an ampersand-separated query payload: the last
/// `key=value` segment wins.
pub open spec fn qs_field(s: Seq<char>, key: Seq<char>) -> Option<Seq<char>> {
    field_from(split_on(s, '&'), key)
}

/// The parameters encoded by a QR payload, when all six fields are
/// present and parse in range: `t` verbatim, `s` as a monetary amount
/// with at most two fractional digits, the rest as decimal integers.
pub open spec fn params_spec(s: Seq<char>) -> Option<ParamsV> {
    let t = qs_field(s, seq!['t']);
    let sm = qs_field(s, seq!['s']);
    let fs = qs_field(s, seq!['f', 'n']);
    let ix = qs_field(s, seq!['i']);
    let fp = qs_field(s, seq!['f', 'p']);
    let nm = qs_field(s, seq!['n']);
    if t is Some && sm is Some && fs is Some && ix is Some && fp is Some && nm is Some {
        let sv = scaled_val(sm->Some_0, 2);
        if (sv is Some && sv->Some_0 <= u64::MAX) && (fs->Some_0.len() > 0 && all_digits(
            fs->Some_0,
        ) && dec_val(fs->Some_0) <= u64::MAX) && (ix->Some_0.len() > 0 && all_digits(ix->Some_0)
            && dec_val(ix->Some_0) <= u32::MAX) && (fp->Some_0.len() > 0 && all_digits(fp->Some_0)
            && dec_val(fp->Some_0) <= u64::MAX) && (nm->Some_0.len() > 0 && all_digits(nm->Some_0)
            && dec_val(nm->Some_0) <= u8::MAX) {
            Some(
                ParamsV {
                    time: t->Some_0,
                    sum: sv->Some_0,
                    fiscal_storage: dec_val(fs->Some_0),
                    index: dec_val(ix->Some_0),
                    fiscal_signature: dec_val(fp->Some_0),
                    number: dec_val(nm->Some_0),
                },
            )
        } else {
            None
        }
    } else {
        None
    }
}

/// Unrolling `field_from` at a prefix boundary.
proof fn lemma_field_from_snoc(segs: Seq<Seq<char>>, key: Seq<char>, i: int)
    requires
        0 <= i < segs.len(),
    ensures
        field_from(segs.subrange(0, i + 1), key) == if seg_key(segs[i]) == key {
            Some(seg_val(segs[i]))
        } else {
            field_from(segs.subrange(0, i), key)
        },
{
    let t = segs.subrange(0, i + 1);
    assert(t.drop_last() =~= segs.subrange(0, i));
    assert(t.last() == segs[i]);
}

/// The key and value of one `key=value` segment.
fn split_kv(seg: &str) -> (r: (String, String))
    ensures
        r.0@ == seg_key(seg@),
        r.1@ == seg_val(seg@),
{
    proof {
        lemma_find_in(seg@, '=');
    }
    let n = seg.unicode_len();
    match find_char(seg, '=') {
        Some(e) => {
            (String::from_str(seg.substring_char(0, e)), String::from_str(
                seg.substring_char(e + 1, n),
            ))
        },
        None => {
            let r = (String::from_str(seg), String::new());
            proof {
                assert(r.1@ =~= seg_val(seg@));
            }
            r
        },
    }
}

/// Parses a scanned QR payload into ticket parameters.  All six operator
/// fields must be present; anything else is rejected as an invalid
/// payload.
pub fn load_params(data: &str) -> (r: Result<TicketParams, TicketError>)
    ensures
        r is Ok <==> params_spec(data@) is Some,
        r is Ok ==> r->Ok_0.deep_view() == params_spec(data@)->Some_0,
        r is Err ==> r->Err_0 is InvalidPayload,
{
    let segs = split_char(data, '&');
    let ghost sv = segs.deep_view();
    let n = segs.len();
    let mut f_t: Option<String> = None;
    let mut f_s: Option<String> = None;
    let mut f_fn: Option<String> = None;
    let mut f_i: Option<String> = None;
    let mut f_fp: Option<String> = None;
    let mut f_n: Option<String> = None;
    let mut i: usize = 0;
    proof {
        reveal_strlit("t");
        reveal_strlit("s");
        reveal_strlit("fn");
        reveal_strlit("i");
        reveal_strlit("fp");
        reveal_strlit("n");
        assert("t"@ =~= seq!['t']);
        assert("s"@ =~= seq!['s']);
        assert("fn"@ =~= seq!['f', 'n']);
        assert("i"@ =~= seq!['i']);
        assert("fp"@ =~= seq!['f', 'p']);
        assert("n"@ =~= seq!['n']);
        assert(sv.subrange(0, 0) =~= Seq::<Seq<char>>::empty());
    }
    while i < n
        invariant
            i <= n,
            n == sv.len(),
            sv == segs.deep_view(),
            f_t.deep_view() == field_from(sv.subrange(0, i as int), seq!['t']),
            f_s.deep_view() == field_from(sv.subrange(0, i as int), seq!['s']),
            f_fn.deep_view() == field_from(sv.subrange(0, i as int), seq!['f', 'n']),
            f_i.deep_view() == field_from(sv.subrange(0, i as int), seq!['i']),
            f_fp.deep_view() == field_from(sv.subrange(0, i as int), seq!['f', 'p']),
            f_n.deep_view() == field_from(sv.subrange(0, i as int), seq!['n']),
        decreases n - i,
    {
        proof {
            assert(sv[i as int] == segs@[i as int]@);
            lemma_field_from_snoc(sv, seq!['t'], i as int);
            lemma_field_from_snoc(sv, seq!['s'], i as int);
            lemma_field_from_snoc(sv, seq!['f', 'n'], i as int);
            lemma_field_from_snoc(sv, seq!['i'], i as int);
            lemma_field_from_snoc(sv, seq!['f', 'p'], i as int);
            lemma_field_from_snoc(sv, seq!['n'], i as int);
            reveal_strlit("t");
            reveal_strlit("s");
            reveal_strlit("fn");
            reveal_strlit("i");
            reveal_strlit("fp");
            reveal_strlit("n");
            assert("t"@ =~= seq!['t']);
            assert("s"@ =~= seq!['s']);
            assert("fn"@ =~= seq!['f', 'n']);
            assert("i"@ =~= seq!['i']);
            assert("fp"@ =~= seq!['f', 'p']);
            assert("n"@ =~= seq!['n']);
            assert(seq!['t'][0] == 't' && seq!['s'][0] == 's' && seq!['i'][0] == 'i'
                && seq!['n'][0] == 'n' && seq!['f', 'n'][0] == 'f' && seq!['f', 'p'][1] == 'p'
                && seq!['f', 'n'][1] == 'n');
            assert(seq!['t'] != seq!['s'] && seq!['t'] != seq!['i'] && seq!['t'] != seq!['n']
                && seq!['s'] != seq!['i'] && seq!['s'] != seq!['n'] && seq!['i'] != seq!['n']
                && seq!['f', 'n'] != seq!['f', 'p']);
        }
        let (k, v) = split_kv(segs[i].as_str());
        if str_eq(k.as_str(), "t") {
            f_t = Some(v);
        } else if str_eq(k.as_str(), "s") {
            f_s = Some(v);
        } else if str_eq(k.as_str(), "fn") {
            f_fn = Some(v);
        } else if str_eq(k.as_str(), "i") {
            f_i = Some(v);
        } else if str_eq(k.as_str(), "fp") {
            f_fp = Some(v);
        } else if str_eq(k.as_str(), "n") {
            f_n = Some(v);
        }
        i = i + 1;
    }
    proof {
        assert(sv.subrange(0, n as int) =~= sv);
    }
    let t = match f_t {
        Some(v) => v,
        None => { return Err(TicketError::InvalidPayload); },
    };
    let s_txt = match f_s {
        Some(v) => v,
        None => { return Err(TicketError::InvalidPayload); },
    };
    let fn_txt = match f_fn {
        Some(v) => v,
        None => { return Err(TicketError::InvalidPayload); },
    };
    let i_txt = match f_i {
        Some(v) => v,
        None => { return Err(TicketError::InvalidPayload); },
    };
    let fp_txt = match f_fp {
        Some(v) => v,
        None => { return Err(TicketError::InvalidPayload); },
    };
    let n_txt = match f_n {
        Some(v) => v,
        None => { return Err(TicketError::InvalidPayload); },
    };
    let sum = match parse_scaled(s_txt.as_str(), 2) {
        Some(v) => v,
        None => { return Err(TicketError::InvalidPayload); },
    };
    let fiscal_storage = match parse_u64(fn_txt.as_str()) {
        Some(v) => v,
        None => { return Err(TicketError::InvalidPayload); },
    };
    let index64 = match parse_u64(i_txt.as_str()) {
        Some(v) => v,
        None => { return Err(TicketError::InvalidPayload); },
    };
    if index64 > u32::MAX as u64 {
        return Err(TicketError::InvalidPayload);
    }
    let fiscal_signature = match parse_u64(fp_txt.as_str()) {
        Some(v) => v,
        None => { return Err(TicketError::InvalidPayload); },
    };
    let number64 = match parse_u64(n_txt.as_str()) {
        Some(v) => v,
        None => { return Err(TicketError::InvalidPayload); },
    };
    if number64 > u8::MAX as u64 {
        return Err(TicketError::InvalidPayload);
    }
    Ok(
        TicketParams {
            time: t,
            sum,
            fiscal_storage,
            index: index64 as u32,
            fiscal_signature,
            number: number64 as u8,
        },
    )
}

// ---------------------------------------------------------------------------
// The lookup request
// ---------------------------------------------------------------------------

/// The operator's ticket-lookup URI for given parameters: the six fields
/// in fixed order, the sum rendered as a decimal amount of major units.
pub open spec fn uri_of(p: ParamsV) -> Seq<char> {
    "https://consumer.1-ofd.ru/api/tickets/ticket/t="@ + p.time + "&s="@ + sum_rep(p.sum) + "&fn="@
        + dec_rep(p.fiscal_storage) + "&i="@ + dec_rep(p.index) + "&fp="@ + dec_rep(
        p.fiscal_signature,
    ) + "&n="@ + dec_rep(p.number)
}

/// Builds the operator's ticket-lookup URI.
pub fn ticket_uri(params: &TicketParams) -> (r: String)
    ensures
        r@ == uri_of(params.deep_view()),
{
    let mut s = String::from_str("https://consumer.1-ofd.ru/api/tickets/ticket/t=");
    s.append(params.time.as_str());
    s.append("&s=");
    s.append(crate::text::format_sum(params.sum).as_str());
    s.append("&fn=");
    s.append(u64_string(params.fiscal_storage).as_str());
    s.append("&i=");
    s.append(u64_string(params.index as u64).as_str());
    s.append("&fp=");
    s.append(u64_string(params.fiscal_signature).as_str());
    s.append("&n=");
    s.append(u64_string(params.number as u64).as_str());
    proof {
        assert(s@ =~= uri_of(params.deep_view()));
    }
    s
}

// ---------------------------------------------------------------------------
// Raw and aggregated line items
// ---------------------------------------------------------------------------

/// Ghost view of a raw line item.
pub struct RawV {
    pub name: Seq<char>,
    pub quantity: int,
    pub sum: int,
}

/// One raw line item of the operator's response: product name, quantity
/// in thousandths, sum in minor currency units.
pub struct OfdTicketItem {
    pub name: String,
    pub quantity: u64,
    pub sum: u64,
}

impl DeepView for OfdTicketItem {
    type V = RawV;

    open spec fn deep_view(&self) -> RawV {
        RawV { name: self.name@, quantity: self.quantity as int, sum: self.sum as int }
    }
}

/// Ghost view of an aggregated line item.
pub struct ItemV {
    pub name: Seq<char>,
    pub quantity: int,
    pub sum: int,
}

/// One aggregated line item: a product name with the summed quantity
/// (thousandths) and summed monetary amount (minor units) of every raw
/// item sharing that name.
pub struct TicketItem {
    name: String,
    quantity: u64,
    sum: u64,
}

impl DeepView for TicketItem {
    type V = ItemV;

    closed spec fn deep_view(&self) -> ItemV {
        ItemV { name: self.name@, quantity: self.quantity as int, sum: self.sum as int }
    }
}

impl TicketItem {
    /// A fresh accumulator for one product name.
    pub fn new(name: &str) -> (r: Self)
        ensures
            r.deep_view() == (ItemV { name: name@, quantity: 0int, sum: 0int }),
    {
        Self { name: String::from_str(name), quantity: 0, sum: 0 }
    }

    pub fn name(&self) -> (r: &str)
        ensures
            r@ == self.deep_view().name,
    {
        self.name.as_str()
    }

    pub fn quantity(&self) -> (r: u64)
        ensures
            r as int == self.deep_view().quantity,
    {
        self.quantity
    }

    pub fn sum(&self) -> (r: u64)
        ensures
            r as int == self.deep_view().sum,
    {
        self.sum
    }
}

// ---------------------------------------------------------------------------
// Aggregation
// ---------------------------------------------------------------------------

/// Adds one raw item to an aggregate: the first entry with its name
/// accumulates it, or a fresh entry is appended.
pub open spec fn agg_add(acc: Seq<ItemV>, r: RawV) -> Seq<ItemV>
    decreases acc.len(),
{
    if acc.len() == 0 {
        seq![ItemV { name: r.name, quantity: r.quantity, sum: r.sum }]
    } else if acc[0].name == r.name {
        seq![
            ItemV {
                name: acc[0].name,
                quantity: acc[0].quantity + r.quantity,
                sum: acc[0].sum + r.sum,
            },
        ] + acc.drop_first()
    } else {
        seq![acc[0]] + agg_add(acc.drop_first(), r)
    }
}

/// The aggregate of a raw item sequence, processed left to right.
pub open spec fn aggregate_spec(raws: Seq<RawV>) -> Seq<ItemV>
    decreases raws.len(),
{
    if raws.len() == 0 {
        Seq::empty()
    } else {
        agg_add(aggregate_spec(raws.drop_last()), raws.last())
    }
}

/// The first aggregated entry carrying a name, if any.
pub open spec fn item_lookup(items: Seq<ItemV>, name: Seq<char>) -> Option<ItemV>
    decreases items.len(),
{
    if items.len() == 0 {
        None
    } else if items[0].name == name {
        Some(items[0])
    } else {
        item_lookup(items.drop_first(), name)
    }
}

/// Aggregated entries carry pairwise distinct names.
pub open spec fn items_wf(items: Seq<ItemV>) -> bool {
    forall|i: int, j: int|
        0 <= i < j < items.len() ==> (#[trigger] items[i].name) != (#[trigger] items[j].name)
}

/// Some raw item carries the name.
pub open spec fn has_name(raws: Seq<RawV>, name: Seq<char>) -> bool {
    exists|i: int| 0 <= i < raws.len() && (#[trigger] raws[i]).name == name
}

/// Total quantity of the raw items carrying a name.
pub open spec fn qty_total(raws: Seq<RawV>, name: Seq<char>) -> int
    decreases raws.len(),
{
    if raws.len() == 0 {
        0
    } else {
        qty_total(raws.drop_last(), name) + if raws.last().name == name {
            raws.last().quantity
        } else {
            0int
        }
    }
}

/// Total monetary sum of the raw items carrying a name.
pub open spec fn sum_total(raws: Seq<RawV>, name: Seq<char>) -> int
    decreases raws.len(),
{
    if raws.len() == 0 {
        0
    } else {
        sum_total(raws.drop_last(), name) + if raws.last().name == name {
            raws.last().sum
        } else {
            0int
        }
    }
}

/// `item_lookup` misses exactly when no entry carries the name.
pub proof fn lemma_item_lookup_none(items: Seq<ItemV>, name: Seq<char>)
    ensures
        item_lookup(items, name) is None <==> forall|k: int|
            0 <= k < items.len() ==> (#[trigger] items[k].name) != name,
    decreases items.len(),
{
    if items.len() > 0 {
        let t = items.drop_first();
        lemma_item_lookup_none(t, name);
        assert(items[0].name == items[0].name);
        assert forall|k: int| 0 <= k < t.len() implies t[k] == items[k + 1] by {}
        if item_lookup(items, name) is None {
            assert forall|k: int| 0 <= k < items.len() implies (#[trigger] items[k].name)
                != name by {
                if k > 0 {
                    assert(items[k] == t[k - 1]);
                }
            }
        }
    }
}

/// `item_lookup` finds the first matching entry.
pub proof fn lemma_item_lookup_at(items: Seq<ItemV>, name: Seq<char>, j: int)
    requires
        0 <= j < items.len(),
        items[j].name == name,
        forall|k: int| 0 <= k < j ==> (#[trigger] items[k].name) != name,
    ensures
        item_lookup(items, name) == Some(items[j]),
    decreases j,
{
    if j > 0 {
        let t = items.drop_first();
        assert(t[j - 1] == items[j]);
        assert forall|k: int| 0 <= k < j - 1 implies (#[trigger] t[k].name) != name by {
            assert(t[k] == items[k + 1]);
        }
        lemma_item_lookup_at(t, name, j - 1);
    }
}

/// An addition hitting the first entry with its name rewrites exactly
/// that entry.
pub proof fn lemma_agg_add_at(acc: Seq<ItemV>, r: RawV, j: int)
    requires
        0 <= j < acc.len(),
        acc[j].name == r.name,
        forall|k: int| 0 <= k < j ==> (#[trigger] acc[k].name) != r.name,
    ensures
        agg_add(acc, r) == acc.update(
            j,
            ItemV { name: acc[j].name, quantity: acc[j].quantity + r.quantity, sum: acc[j].sum + r.sum },
        ),
    decreases j,
{
    let upd = ItemV {
        name: acc[j].name,
        quantity: acc[j].quantity + r.quantity,
        sum: acc[j].sum + r.sum,
    };
    if j == 0 {
        assert(seq![upd] + acc.drop_first() =~= acc.update(0, upd));
    } else {
        let t = acc.drop_first();
        assert(t[j - 1] == acc[j]);
        assert forall|k: int| 0 <= k < j - 1 implies (#[trigger] t[k].name) != r.name by {
            assert(t[k] == acc[k + 1]);
        }
        lemma_agg_add_at(t, r, j - 1);
        assert(seq![acc[0]] + t.update(j - 1, upd) =~= acc.update(j, upd));
    }
}

/// An addition missing every entry appends a fresh one.
pub proof fn lemma_agg_add_absent(acc: Seq<ItemV>, r: RawV)
    requires
        forall|k: int| 0 <= k < acc.len() ==> (#[trigger] acc[k].name) != r.name,
    ensures
        agg_add(acc, r) == acc.push(ItemV { name: r.name, quantity: r.quantity, sum: r.sum }),
    decreases acc.len(),
{
    let x = ItemV { name: r.name, quantity: r.quantity, sum: r.sum };
    if acc.len() == 0 {
        assert(agg_add(acc, r) =~= acc.push(x));
    } else {
        let t = acc.drop_first();
        assert forall|k: int| 0 <= k < t.len() implies (#[trigger] t[k].name) != r.name by {
            assert(t[k] == acc[k + 1]);
        }
        lemma_agg_add_absent(t, r);
        assert(seq![acc[0]] + t.push(x) =~= acc.push(x));
    }
}

/// How one addition changes the aggregate: the entry under the raw
/// item's name accumulates it, every other entry stays, and the entry
/// names stay in place (with the new name appended when it was absent).
pub proof fn lemma_agg_add_lookup(acc: Seq<ItemV>, r: RawV, q: Seq<char>)
    ensures
        item_lookup(agg_add(acc, r), q) == (if q == r.name {
            match item_lookup(acc, q) {
                Some(it) => Some(
                    ItemV { name: q, quantity: it.quantity + r.quantity, sum: it.sum + r.sum },
                ),
                None => Some(ItemV { name: q, quantity: r.quantity, sum: r.sum }),
            }
        } else {
            item_lookup(acc, q)
        }),
        agg_add(acc, r).len() == if item_lookup(acc, r.name) is Some {
            acc.len() as int
        } else {
            acc.len() as int + 1
        },
        forall|k: int|
            0 <= k < agg_add(acc, r).len() ==> (#[trigger] agg_add(acc, r)[k].name) == if k
                < acc.len() {
                acc[k].name
            } else {
                r.name
            },
    decreases acc.len(),
{
    let res = agg_add(acc, r);
    if acc.len() == 0 {
        assert(res == seq![ItemV { name: r.name, quantity: r.quantity, sum: r.sum }]);
        assert(res[0].name == r.name);
        if q != r.name {
            assert(res.drop_first() =~= Seq::<ItemV>::empty());
            assert(item_lookup(Seq::<ItemV>::empty(), q) is None);
        }
    } else if acc[0].name == r.name {
        let upd = ItemV {
            name: acc[0].name,
            quantity: acc[0].quantity + r.quantity,
            sum: acc[0].sum + r.sum,
        };
        assert(res == seq![upd] + acc.drop_first());
        assert(res[0] == upd);
        assert(res.drop_first() =~= acc.drop_first());
        if q != r.name {
            assert(item_lookup(res, q) == item_lookup(acc.drop_first(), q));
            assert(item_lookup(acc, q) == item_lookup(acc.drop_first(), q));
        }
    } else {
        let t = acc.drop_first();
        lemma_agg_add_lookup(t, r, q);
        if q != r.name {
            lemma_agg_add_lookup(t, r, r.name);
        }
        assert(res == seq![acc[0]] + agg_add(t, r));
        assert(res[0] == acc[0]);
        assert(res.drop_first() =~= agg_add(t, r));
        assert forall|k: int| 0 <= k < res.len() implies (#[trigger] res[k].name) == if k
            < acc.len() {
            acc[k].name
        } else {
            r.name
        } by {
            if k > 0 {
                assert(res[k] == agg_add(t, r)[k - 1]);
                if k < acc.len() {
                    assert(t[k - 1] == acc[k]);
                }
            }
        }
    }
}

/// With no raw item under the name, its totals are zero.
pub proof fn lemma_totals_absent(raws: Seq<RawV>, name: Seq<char>)
    requires
        !has_name(raws, name),
    ensures
        qty_total(raws, name) == 0,
        sum_total(raws, name) == 0,
    decreases raws.len(),
{
    if raws.len() > 0 {
        let t = raws.drop_last();
        assert(!has_name(t, name)) by {
            if has_name(t, name) {
                let i = choose|i: int| 0 <= i < t.len() && (#[trigger] t[i]).name == name;
                assert(raws[i].name == name);
            }
        }
        lemma_totals_absent(t, name);
        assert(raws[raws.len() - 1] == raws.last());
    }
}

/// Aggregation correctness: the aggregate of a raw item sequence carries
/// pairwise distinct names, exactly the names that occur among the raw
/// items, and under each name the exact totals of the quantities and
/// sums of the raw items sharing it.
pub proof fn lemma_aggregate_totals(raws: Seq<RawV>)
    ensures
        items_wf(aggregate_spec(raws)),
        forall|q: Seq<char>|
            #[trigger] item_lookup(aggregate_spec(raws), q) == (if has_name(raws, q) {
                Some(ItemV { name: q, quantity: qty_total(raws, q), sum: sum_total(raws, q) })
            } else {
                None::<ItemV>
            }),
    decreases raws.len(),
{
    if raws.len() == 0 {
        assert forall|q: Seq<char>| #[trigger] item_lookup(aggregate_spec(raws), q) == (if
            has_name(raws, q) {
            Some(ItemV { name: q, quantity: qty_total(raws, q), sum: sum_total(raws, q) })
        } else {
            None::<ItemV>
        }) by {
            assert(!has_name(raws, q));
            assert(item_lookup(aggregate_spec(raws), q) is None);
        }
    } else {
        let dl = raws.drop_last();
        let r = raws.last();
        let prev = aggregate_spec(dl);
        let agg = aggregate_spec(raws);
        lemma_aggregate_totals(dl);
        assert(agg == agg_add(prev, r));
        assert forall|q: Seq<char>| #[trigger] item_lookup(agg, q) == (if has_name(raws, q) {
            Some(ItemV { name: q, quantity: qty_total(raws, q), sum: sum_total(raws, q) })
        } else {
            None::<ItemV>
        }) by {
            lemma_agg_add_lookup(prev, r, q);
            assert(raws[raws.len() - 1] == r);
            if q == r.name {
                assert(has_name(raws, q));
                if !has_name(dl, q) {
                    lemma_totals_absent(dl, q);
                }
            } else {
                if has_name(raws, q) {
                    let i = choose|i: int|
                        0 <= i < raws.len() && (#[trigger] raws[i]).name == q;
                    assert(i < dl.len());
                    assert(dl[i] == raws[i]);
                    assert(has_name(dl, q));
                }
                if has_name(dl, q) {
                    let i = choose|i: int| 0 <= i < dl.len() && (#[trigger] dl[i]).name == q;
                    assert(raws[i] == dl[i]);
                    assert(has_name(raws, q));
                }
            }
        }
        lemma_agg_add_lookup(prev, r, r.name);
        lemma_item_lookup_none(prev, r.name);
        assert forall|i: int, j: int| 0 <= i < j < agg.len() implies (#[trigger] agg[i].name)
            != (#[trigger] agg[j].name) by {
            if j < prev.len() {
                assert(agg[i].name == prev[i].name && agg[j].name == prev[j].name);
            } else {
                assert(agg[j].name == r.name);
                if item_lookup(prev, r.name) is None {
                    assert(agg[i].name == prev[i].name);
                } else {
                    assert(agg.len() == prev.len());
                }
            }
        }
    }
}

/// Totals are bounded by the number of raw items times the item bound.
pub proof fn lemma_totals_bound(raws: Seq<RawV>, name: Seq<char>, b: int)
    requires
        b >= 0,
        forall|k: int|
            0 <= k < raws.len() ==> 0 <= (#[trigger] raws[k]).quantity <= b && 0 <= raws[k].sum
                <= b,
    ensures
        0 <= qty_total(raws, name) <= raws.len() * b,
        0 <= sum_total(raws, name) <= raws.len() * b,
    decreases raws.len(),
{
    if raws.len() == 0 {
    } else {
        let t = raws.drop_last();
        assert forall|k: int| 0 <= k < t.len() implies 0 <= (#[trigger] t[k]).quantity <= b && 0
            <= t[k].sum <= b by {
            assert(t[k] == raws[k]);
        }
        lemma_totals_bound(t, name, b);
        assert(raws[raws.len() - 1] == raws.last());
        assert(t.len() * b + b == raws.len() * b) by (nonlinear_arith)
            requires
                t.len() == raws.len() - 1,
        ;
    }
}

/// Collapses raw line items into one aggregated item per distinct name.
fn aggregate(raws: &Vec<OfdTicketItem>) -> (r: Vec<TicketItem>)
    requires
        raws.deep_view().len() < AMOUNT_LIMIT,
        forall|k: int|
            0 <= k < raws.deep_view().len() ==> (#[trigger] raws.deep_view()[k]).quantity
                < AMOUNT_LIMIT && raws.deep_view()[k].sum < AMOUNT_LIMIT,
    ensures
        r.deep_view() == aggregate_spec(raws.deep_view()),
{
    let ghost rv = raws.deep_view();
    let n = raws.len();
    let mut acc: Vec<TicketItem> = Vec::new();
    let mut i: usize = 0;
    proof {
        assert(acc.deep_view() =~= aggregate_spec(rv.subrange(0, 0)));
    }
    while i < n
        invariant
            i <= n,
            n == rv.len(),
            rv == raws.deep_view(),
            rv.len() < AMOUNT_LIMIT,
            forall|k: int|
                0 <= k < rv.len() ==> (#[trigger] rv[k]).quantity < AMOUNT_LIMIT && rv[k].sum
                    < AMOUNT_LIMIT,
            acc.deep_view() == aggregate_spec(rv.subrange(0, i as int)),
        decreases n - i,
    {
        let ghost pre = rv.subrange(0, i as int);
        let ghost accv = acc.deep_view();
        proof {
            assert(rv[i as int] == raws@[i as int].deep_view());
            assert(rv.subrange(0, i + 1).drop_last() =~= pre);
            assert(rv.subrange(0, i + 1).last() == rv[i as int]);
            assert forall|k: int| 0 <= k < pre.len() implies 0 <= (#[trigger] pre[k]).quantity
                <= AMOUNT_LIMIT - 1 && 0 <= pre[k].sum <= AMOUNT_LIMIT - 1 by {
                assert(pre[k] == rv[k]);
            }
        }
        // find the first accumulated entry with this raw item's name
        let m = acc.len();
        let mut j: usize = 0;
        let mut found: Option<usize> = None;
        while j < m
            invariant
                j <= m,
                m == accv.len(),
                accv == acc.deep_view(),
                i < n,
                n == rv.len(),
                rv == raws.deep_view(),
                rv[i as int] == raws@[i as int].deep_view(),
                found is None ==> forall|k: int|
                    0 <= k < j ==> (#[trigger] accv[k].name) != rv[i as int].name,
                found is Some ==> {
                    let f = found->Some_0 as int;
                    &&& 0 <= f < accv.len()
                    &&& accv[f].name == rv[i as int].name
                    &&& forall|k: int|
                        0 <= k < f ==> (#[trigger] accv[k].name) != rv[i as int].name
                    &&& j == m
                },
            decreases m - j,
        {
            proof {
                assert(accv[j as int].name == acc@[j as int].deep_view().name);
            }
            if str_eq(acc[j].name.as_str(), raws[i].name.as_str()) {
                found = Some(j);
                proof {
                    assert(accv[j as int].name == rv[i as int].name);
                }
                j = m;
            } else {
                j = j + 1;
            }
        }
        match found {
            Some(f) => {
                proof {
                    lemma_agg_add_at(accv, rv[i as int], f as int);
                    lemma_item_lookup_at(accv, rv[i as int].name, f as int);
                    lemma_aggregate_totals(pre);
                    lemma_totals_bound(pre, rv[i as int].name, AMOUNT_LIMIT as int - 1);
                    assert(has_name(pre, rv[i as int].name)) by {
                        if !has_name(pre, rv[i as int].name) {
                            lemma_item_lookup_none(accv, rv[i as int].name);
                        }
                    }
                    assert(accv[f as int].quantity == qty_total(pre, rv[i as int].name));
                    assert(accv[f as int].sum == sum_total(pre, rv[i as int].name));
                    assert(pre.len() * (AMOUNT_LIMIT as int - 1) <= (AMOUNT_LIMIT as int - 1)
                        * (AMOUNT_LIMIT as int - 1)) by (nonlinear_arith)
                        requires
                            0 <= pre.len() <= AMOUNT_LIMIT as int - 1,
                    ;
                }
                let q2 = acc[f].quantity + raws[i].quantity;
                let s2 = acc[f].sum + raws[i].sum;
                let name2 = acc[f].name.clone();
                let upd = TicketItem { name: name2, quantity: q2, sum: s2 };
                proof {
                    assert(upd.deep_view() == (ItemV {
                        name: accv[f as int].name,
                        quantity: accv[f as int].quantity + rv[i as int].quantity,
                        sum: accv[f as int].sum + rv[i as int].sum,
                    }));
                }
                acc.remove(f);
                acc.insert(f, upd);
                proof {
                    assert(acc.deep_view() =~= accv.update(f as int, upd.deep_view()));
                    assert(acc.deep_view() =~= aggregate_spec(rv.subrange(0, i + 1)));
                }
            },
            None => {
                proof {
                    lemma_agg_add_absent(accv, rv[i as int]);
                }
                let item = TicketItem {
                    name: raws[i].name.clone(),
                    quantity: raws[i].quantity,
                    sum: raws[i].sum,
                };
                acc.push(item);
                proof {
                    assert(acc.deep_view() =~= accv.push(
                        ItemV {
                            name: rv[i as int].name,
                            quantity: rv[i as int].quantity,
                            sum: rv[i as int].sum,
                        },
                    ));
                    assert(acc.deep_view() =~= aggregate_spec(rv.subrange(0, i + 1)));
                }
            },
        }
        i = i + 1;
    }
    proof {
        assert(rv.subrange(0, n as int) =~= rv);
    }
    acc
}

// ---------------------------------------------------------------------------
// The resolved ticket
// ---------------------------------------------------------------------------

/// Ghost view of a resolved ticket.
pub struct TicketV {
    pub datetime: Timestamp,
    pub items: Seq<ItemV>,
}

/// The operator's response, normalized: the transaction instant and one
/// aggregated item per distinct product name.
pub struct Ticket {
    datetime: Timestamp,
    items: Vec<TicketItem>,
}

impl DeepView for Ticket {
    type V = TicketV;

    closed spec fn deep_view(&self) -> TicketV {
        TicketV { datetime: self.datetime, items: self.items.deep_view() }
    }
}

impl Ticket {
    pub fn datetime(&self) -> (r: &Timestamp)
        ensures
            *r == self.deep_view().datetime,
    {
        &self.datetime
    }

    pub fn items(&self) -> (r: &Vec<TicketItem>)
        ensures
            r.deep_view() == self.deep_view().items,
    {
        &self.items
    }

    /// Normalizes a decoded response: the transaction date must be a
    /// valid operator timestamp, and the raw items are aggregated by
    /// name.  Raw values are bounded so that no sum can overflow.
    pub fn from_parts(transaction_date: &str, items: Vec<OfdTicketItem>) -> (r: Result<
        Ticket,
        TicketError,
    >)
        requires
            items.deep_view().len() < AMOUNT_LIMIT,
            forall|k: int|
                0 <= k < items.deep_view().len() ==> (#[trigger] items.deep_view()[k]).quantity
                    < AMOUNT_LIMIT && items.deep_view()[k].sum < AMOUNT_LIMIT,
        ensures
            r is Ok <==> ts_valid(transaction_date@),
            r is Ok ==> r->Ok_0.deep_view() == (TicketV {
                datetime: ts_of(transaction_date@),
                items: aggregate_spec(items.deep_view()),
            }),
            r is Err ==> r->Err_0 is InvalidTimestamp,
    {
        match parse_timestamp(transaction_date) {
            None => Err(TicketError::InvalidTimestamp),
            Some(dt) => Ok(Ticket { datetime: dt, items: aggregate(&items) }),
        }
    }
}

/// The raw item encoded by one element of the response's item array: an
/// object with a string `name`, a `quantity` number of at most three
/// fractional digits, and an unsigned integral `sum`, both under the
/// aggregation bound.
pub open spec fn item_raw(j: JsonV) -> Option<RawV> {
    match (jv_get(j, "name"@), jv_get(j, "quantity"@), jv_get(j, "sum"@)) {
        (Some(JsonV::Text(n)), Some(JsonV::Number(qt)), Some(JsonV::Number(st))) => {
            let q = scaled_val(qt, 3);
            if (q is Some && q->Some_0 < AMOUNT_LIMIT) && (st.len() > 0 && all_digits(st)
                && dec_val(st) < AMOUNT_LIMIT) {
                Some(RawV { name: n, quantity: q->Some_0, sum: dec_val(st) })
            } else {
                None
            }
        },
        _ => None,
    }
}

/// The raw items of the response's array, present only when every
/// element parses as an item.
pub open spec fn items_raw(items: Seq<JsonV>) -> Option<Seq<RawV>>
    decreases items.len(),
{
    if items.len() == 0 {
        Some(Seq::<RawV>::empty())
    } else {
        match (items_raw(items.drop_last()), item_raw(items.last())) {
            (Some(rs), Some(r)) => Some(rs.push(r)),
            _ => None,
        }
    }
}

/// The transaction-date text and raw items of a response body of the
/// expected shape `{"ticket": {"transactionDate": ..., "items": [...]}}`.
/// Anything else — text that is not JSON, a missing or mis-typed member,
/// an item that is no well-shaped object, an oversized value, or more
/// items than can be aggregated safely — has no parts.
pub open spec fn response_parts(s: Seq<char>) -> Option<(Seq<char>, Seq<RawV>)> {
    match json_of(s) {
        Some(root) => match jv_get(root, "ticket"@) {
            Some(t) => match (jv_get(t, "transactionDate"@), jv_get(t, "items"@)) {
                (Some(JsonV::Text(date)), Some(JsonV::Array(items))) => {
                    if items.len() < AMOUNT_LIMIT {
                        match items_raw(items) {
                            Some(rs) => Some((date, rs)),
                            None => None,
                        }
                    } else {
                        None
                    }
                },
                _ => None,
            },
            None => None,
        },
        None => None,
    }
}

/// One unparsable element spoils the whole item array.
proof fn lemma_items_raw_none(items: Seq<JsonV>, i: int)
    requires
        0 <= i < items.len(),
        item_raw(items[i]) is None,
    ensures
        items_raw(items) is None,
    decreases items.len(),
{
    if i == items.len() - 1 {
        assert(items.last() == items[i]);
    } else {
        assert(items.drop_last()[i] == items[i]);
        lemma_items_raw_none(items.drop_last(), i);
    }
}

/// Decodes the operator's response body.  A body of the expected shape
/// decodes to the aggregate of its items under its transaction date; a
/// body of any other shape is a malformed response, and a well-shaped
/// body whose transaction date is not a valid `YYYY-MM-DDTHH:MM:SS`
/// instant is an invalid timestamp.
pub fn decode_ticket(body: &str) -> (r: Result<Ticket, TicketError>)
    ensures
        r is Ok <==> response_parts(body@) is Some && ts_valid(response_parts(body@)->Some_0.0),
        r is Ok ==> r->Ok_0.deep_view() == (TicketV {
            datetime: ts_of(response_parts(body@)->Some_0.0),
            items: aggregate_spec(response_parts(body@)->Some_0.1),
        }),
        r is Err ==> (r->Err_0 is InvalidTimestamp <==> response_parts(body@) is Some),
        r is Err ==> r->Err_0 is MalformedResponse || r->Err_0 is InvalidTimestamp,
{
    let root = match parse_json(body) {
        Some(v) => v,
        None => { return Err(TicketError::MalformedResponse); },
    };
    let ghost root_v = root.deep_view();
    let ticket = match get_member(&root, "ticket") {
        Some(v) => v,
        None => { return Err(TicketError::MalformedResponse); },
    };
    let ghost ticket_v = ticket.deep_view();
    let date_s = match get_member(ticket, "transactionDate") {
        Some(v) => match get_text(v) {
            Some(t) => t,
            None => { return Err(TicketError::MalformedResponse); },
        },
        None => { return Err(TicketError::MalformedResponse); },
    };
    let arr = match get_member(ticket, "items") {
        Some(v) => match get_array(v) {
            Some(a) => a,
            None => { return Err(TicketError::MalformedResponse); },
        },
        None => { return Err(TicketError::MalformedResponse); },
    };
    let ghost items_seq = arr.deep_view();
    proof {
        assert(jv_get(ticket_v, "transactionDate"@) == Some(JsonV::Text(date_s@)));
        assert(jv_get(ticket_v, "items"@) == Some(JsonV::Array(items_seq)));
    }
    let count = arr.len();
    if count as u64 >= AMOUNT_LIMIT {
        return Err(TicketError::MalformedResponse);
    }
    let mut raws: Vec<OfdTicketItem> = Vec::new();
    let mut i: usize = 0;
    proof {
        assert(items_raw(items_seq.subrange(0, 0)) == Some(raws.deep_view())) by {
            assert(items_seq.subrange(0, 0) =~= Seq::<JsonV>::empty());
            assert(raws.deep_view() =~= Seq::<RawV>::empty());
        }
    }
    while i < count
        invariant
            i <= count,
            count == arr@.len(),
            items_seq == arr.deep_view(),
            (count as u64) < AMOUNT_LIMIT,
            json_of(body@) == Some(root_v),
            jv_get(root_v, "ticket"@) == Some(ticket_v),
            jv_get(ticket_v, "transactionDate"@) == Some(JsonV::Text(date_s@)),
            jv_get(ticket_v, "items"@) == Some(JsonV::Array(items_seq)),
            items_raw(items_seq.subrange(0, i as int)) == Some(raws.deep_view()),
            raws.deep_view().len() == i,
            forall|k: int|
                0 <= k < raws.deep_view().len() ==> (#[trigger] raws.deep_view()[k]).quantity
                    < AMOUNT_LIMIT && raws.deep_view()[k].sum < AMOUNT_LIMIT,
        decreases count - i,
    {
        let item = &arr[i];
        let ghost item_v = items_seq[i as int];
        proof {
            assert(item.deep_view() == items_seq[i as int]);
        }
        let name = match get_member(item, "name") {
            Some(v) => match get_text(v) {
                Some(t) => t,
                None => {
                    proof {
                        lemma_items_raw_none(items_seq, i as int);
                    }
                    return Err(TicketError::MalformedResponse);
                },
            },
            None => {
                proof {
                    lemma_items_raw_none(items_seq, i as int);
                }
                return Err(TicketError::MalformedResponse);
            },
        };
        let quantity = match get_member(item, "quantity") {
            Some(v) => match get_number_text(v) {
                Some(t) => match parse_scaled(t.as_str(), 3) {
                    Some(q) if q < AMOUNT_LIMIT => q,
                    _ => {
                        proof {
                            lemma_items_raw_none(items_seq, i as int);
                        }
                        return Err(TicketError::MalformedResponse);
                    },
                },
                None => {
                    proof {
                        lemma_items_raw_none(items_seq, i as int);
                    }
                    return Err(TicketError::MalformedResponse);
                },
            },
            None => {
                proof {
                    lemma_items_raw_none(items_seq, i as int);
                }
                return Err(TicketError::MalformedResponse);
            },
        };
        let sum = match get_member(item, "sum") {
            Some(v) => match get_number_text(v) {
                Some(t) => match parse_u64(t.as_str()) {
                    Some(v2) if v2 < AMOUNT_LIMIT => v2,
                    _ => {
                        proof {
                            lemma_items_raw_none(items_seq, i as int);
                        }
                        return Err(TicketError::MalformedResponse);
                    },
                },
                None => {
                    proof {
                        lemma_items_raw_none(items_seq, i as int);
                    }
                    return Err(TicketError::MalformedResponse);
                },
            },
            None => {
                proof {
                    lemma_items_raw_none(items_seq, i as int);
                }
                return Err(TicketError::MalformedResponse);
            },
        };
        let ghost before = raws.deep_view();
        let raw = OfdTicketItem { name: name.clone(), quantity, sum };
        proof {
            assert(item_raw(item_v) == Some(raw.deep_view()));
        }
        raws.push(raw);
        proof {
            assert(raws.deep_view() =~= before.push(raw.deep_view()));
            let sub1 = items_seq.subrange(0, i + 1);
            assert(sub1.drop_last() =~= items_seq.subrange(0, i as int));
            assert(sub1.last() == items_seq[i as int]);
            assert(items_raw(sub1) == Some(raws.deep_view()));
        }
        i = i + 1;
    }
    proof {
        assert(items_seq.subrange(0, count as int) =~= items_seq);
        assert(response_parts(body@) == Some((date_s@, raws.deep_view())));
    }
    Ticket::from_parts(date_s.as_str(), raws)
}

} // verus!
