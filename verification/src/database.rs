//! In-memory model of the two persisted relations.
//!
//! The store holds ticket lines (ticket key, ingestion date, product,
//! quantity, sum) and product categories (product identifier, optional
//! category, optional display name).  Category rows are keyed uniquely by
//! product identifier; ticket lines may repeat freely.  Every operation is
//! specified against the ghost view [`DbV`].

use vstd::prelude::*;
use crate::text::{lex_le, lex_lt, lemma_lex_irrefl, lemma_lex_total, lemma_lex_trans, str_eq, str_lt};
use vstd::multiset::Multiset;

verus! {

// ---------------------------------------------------------------------------
// Ghost views
// ---------------------------------------------------------------------------

/// Ghost view of one persisted ticket line.
pub struct LineV {
    pub ticket: Seq<char>,
    pub date: Seq<char>,
    pub product: Seq<char>,
    pub quantity: int,
    pub sum: int,
}

/// Ghost view of one product category row, and of one row of the
/// left-outer join between line products and category rows.
pub struct ProdV {
    pub product: Seq<char>,
    pub category: Option<Seq<char>>,
    pub name: Option<Seq<char>>,
}

/// Ghost view of one joined ticket line.
pub struct TItemV {
    pub date: Seq<char>,
    pub product: Seq<char>,
    pub category: Option<Seq<char>>,
    pub name: Option<Seq<char>>,
    pub quantity: int,
    pub sum: int,
}

/// Ghost view of the whole store.
pub struct DbV {
    pub lines: Seq<LineV>,
    pub products: Seq<ProdV>,
}

// ---------------------------------------------------------------------------
// Exec row types
// ---------------------------------------------------------------------------

/// One persisted ticket line.  Quantities are thousandths of a unit, sums
/// minor currency units.
struct TicketLine {
    ticket: String,
    date: String,
    product: String,
    quantity: u64,
    sum: u64,
}

impl DeepView for TicketLine {
    type V = LineV;

    closed spec fn deep_view(&self) -> LineV {
        LineV {
            ticket: self.ticket@,
            date: self.date@,
            product: self.product@,
            quantity: self.quantity as int,
            sum: self.sum as int,
        }
    }
}

/// One row of the product listing: a product identifier with the category
/// and display name assigned to it, if any.
pub struct ProductData {
    product: String,
    category: Option<String>,
    name: Option<String>,
}

impl DeepView for ProductData {
    type V = ProdV;

    closed spec fn deep_view(&self) -> ProdV {
        ProdV {
            product: self.product@,
            category: self.category.deep_view(),
            name: self.name.deep_view(),
        }
    }
}

impl ProductData {
    pub fn new(product: String, category: Option<String>, name: Option<String>) -> (r: Self)
        ensures
            r.deep_view() == (ProdV {
                product: product@,
                category: category.deep_view(),
                name: name.deep_view(),
            }),
    {
        Self { product, category, name }
    }

    pub fn product(&self) -> (r: &str)
        ensures
            r@ == self.deep_view().product,
    {
        self.product.as_str()
    }

    pub fn category(&self) -> (r: Option<&String>)
        ensures
            r.deep_view() == self.deep_view().category,
    {
        self.category.as_ref()
    }

    pub fn name(&self) -> (r: Option<&String>)
        ensures
            r.deep_view() == self.deep_view().name,
    {
        self.name.as_ref()
    }
}

/// One joined ticket line, as listed to the user.
pub struct TicketItemData {
    date: String,
    product: String,
    category: Option<String>,
    name: Option<String>,
    quantity: u64,
    sum: u64,
}

impl DeepView for TicketItemData {
    type V = TItemV;

    closed spec fn deep_view(&self) -> TItemV {
        TItemV {
            date: self.date@,
            product: self.product@,
            category: self.category.deep_view(),
            name: self.name.deep_view(),
            quantity: self.quantity as int,
            sum: self.sum as int,
        }
    }
}

impl TicketItemData {
    pub fn new(
        date: String,
        product: String,
        category: Option<String>,
        name: Option<String>,
        quantity: u64,
        sum: u64,
    ) -> (r: Self)
        ensures
            r.deep_view() == (TItemV {
                date: date@,
                product: product@,
                category: category.deep_view(),
                name: name.deep_view(),
                quantity: quantity as int,
                sum: sum as int,
            }),
    {
        Self { date, product, category, name, quantity, sum }
    }

    pub fn date(&self) -> (r: &str)
        ensures
            r@ == self.deep_view().date,
    {
        self.date.as_str()
    }

    pub fn product(&self) -> (r: &str)
        ensures
            r@ == self.deep_view().product,
    {
        self.product.as_str()
    }

    pub fn category(&self) -> (r: Option<&String>)
        ensures
            r.deep_view() == self.deep_view().category,
    {
        self.category.as_ref()
    }

    pub fn name(&self) -> (r: Option<&String>)
        ensures
            r.deep_view() == self.deep_view().name,
    {
        self.name.as_ref()
    }

    pub fn quantity(&self) -> (r: u64)
        ensures
            r as int == self.deep_view().quantity,
    {
        self.quantity
    }

    pub fn sum(&self) -> (r: u64)
        ensures
            r as int == self.deep_view().sum,
    {
        self.sum
    }
}

/// A category label together with a display name.
pub struct CategoryName {
    category: String,
    name: String,
}

/// Ghost view of a [`CategoryName`].
pub struct CatNameV {
    pub category: Seq<char>,
    pub name: Seq<char>,
}

impl DeepView for CategoryName {
    type V = CatNameV;

    closed spec fn deep_view(&self) -> CatNameV {
        CatNameV { category: self.category@, name: self.name@ }
    }
}

impl CategoryName {
    pub fn new(category: &str, name: &str) -> (r: Self)
        ensures
            r.deep_view() == (CatNameV { category: category@, name: name@ }),
    {
        Self { category: String::from_str(category), name: String::from_str(name) }
    }

    pub fn category(&self) -> (r: &str)
        ensures
            r@ == self.deep_view().category,
    {
        self.category.as_str()
    }

    pub fn name(&self) -> (r: &str)
        ensures
            r@ == self.deep_view().name,
    {
        self.name.as_str()
    }
}

// ---------------------------------------------------------------------------
// Spec-level relations
// ---------------------------------------------------------------------------

/// Number of persisted lines recorded under a ticket key.
pub open spec fn count_key(lines: Seq<LineV>, key: Seq<char>) -> int
    decreases lines.len(),
{
    if lines.len() == 0 {
        0
    } else {
        count_key(lines.drop_last(), key) + if lines.last().ticket == key {
            1int
        } else {
            0int
        }
    }
}

/// Some persisted line references the product.
pub open spec fn has_product(lines: Seq<LineV>, p: Seq<char>) -> bool {
    exists|i: int| 0 <= i < lines.len() && #[trigger] lines[i].product == p
}

/// The first category row for a product identifier, if any.
pub open spec fn prod_lookup(products: Seq<ProdV>, p: Seq<char>) -> Option<ProdV>
    decreases products.len(),
{
    if products.len() == 0 {
        None
    } else if products[0].product == p {
        Some(products[0])
    } else {
        prod_lookup(products.drop_first(), p)
    }
}

/// Category rows are keyed uniquely by product identifier.
pub open spec fn products_wf(products: Seq<ProdV>) -> bool {
    forall|i: int, j: int|
        0 <= i < j < products.len() ==> (#[trigger] products[i].product) != (
        #[trigger] products[j].product)
}

impl DbV {
    /// Store invariant.
    pub open spec fn wf(self) -> bool {
        products_wf(self.products)
    }
}

/// The category row written by an insert-or-replace of `(p, c, n)`.
pub open spec fn upsert_row(p: Seq<char>, c: Seq<char>, n: Seq<char>) -> ProdV {
    ProdV { product: p, category: Some(c), name: Some(n) }
}

/// Insert-or-replace on the category rows: the first row keyed `p` is
/// replaced, or a fresh row is appended when none exists.
pub open spec fn upsert_spec(products: Seq<ProdV>, p: Seq<char>, c: Seq<char>, n: Seq<char>) -> Seq<
    ProdV,
>
    decreases products.len(),
{
    if products.len() == 0 {
        seq![upsert_row(p, c, n)]
    } else if products[0].product == p {
        seq![upsert_row(p, c, n)] + products.drop_first()
    } else {
        seq![products[0]] + upsert_spec(products.drop_first(), p, c, n)
    }
}

/// The lines kept by deleting one ticket key.
pub open spec fn drop_key(lines: Seq<LineV>, key: Seq<char>) -> Seq<LineV>
    decreases lines.len(),
{
    if lines.len() == 0 {
        Seq::empty()
    } else {
        drop_key(lines.drop_last(), key) + if lines.last().ticket == key {
            Seq::<LineV>::empty()
        } else {
            seq![lines.last()]
        }
    }
}

/// The first line product that has no category row, scanning in insertion
/// order.
pub open spec fn first_uncat(lines: Seq<LineV>, products: Seq<ProdV>) -> Option<Seq<char>>
    decreases lines.len(),
{
    if lines.len() == 0 {
        None
    } else if prod_lookup(products, lines[0].product) is None {
        Some(lines[0].product)
    } else {
        first_uncat(lines.drop_first(), products)
    }
}

// ---------------------------------------------------------------------------
// Lemmas on the spec-level relations
// ---------------------------------------------------------------------------

/// Unrolling `count_key` at a prefix boundary.
pub proof fn lemma_count_key_snoc(lines: Seq<LineV>, key: Seq<char>, i: int)
    requires
        0 <= i < lines.len(),
    ensures
        count_key(lines.subrange(0, i + 1), key) == count_key(lines.subrange(0, i), key) + if lines[i].ticket
            == key {
            1int
        } else {
            0int
        },
{
    let t = lines.subrange(0, i + 1);
    assert(t.drop_last() =~= lines.subrange(0, i));
    assert(t.last() == lines[i]);
}

/// `count_key` never exceeds the number of lines.
pub proof fn lemma_count_key_le_len(lines: Seq<LineV>, key: Seq<char>)
    ensures
        0 <= count_key(lines, key) <= lines.len(),
    decreases lines.len(),
{
    if lines.len() > 0 {
        lemma_count_key_le_len(lines.drop_last(), key);
    }
}

/// Appending lines adds their matches to the count.
pub proof fn lemma_count_key_app(a: Seq<LineV>, b: Seq<LineV>, key: Seq<char>)
    ensures
        count_key(a + b, key) == count_key(a, key) + count_key(b, key),
    decreases b.len(),
{
    if b.len() == 0 {
        assert(a + b =~= a);
    } else {
        assert((a + b).drop_last() =~= a + b.drop_last());
        assert((a + b).last() == b.last());
        lemma_count_key_app(a, b.drop_last(), key);
    }
}

/// Consistency of the existence check with insertion: the count under a
/// key is positive exactly when some persisted line carries that key, so
/// no line is ever created without the key's count turning nonzero.
pub proof fn lemma_count_key_positive(lines: Seq<LineV>, key: Seq<char>)
    ensures
        count_key(lines, key) > 0 <==> exists|i: int|
            0 <= i < lines.len() && (#[trigger] lines[i].ticket) == key,
    decreases lines.len(),
{
    lemma_count_key_le_len(lines, key);
    if lines.len() > 0 {
        lemma_count_key_positive(lines.drop_last(), key);
        lemma_count_key_le_len(lines.drop_last(), key);
        if lines.last().ticket == key {
            assert(lines[lines.len() - 1].ticket == key);
        } else {
            if exists|i: int| 0 <= i < lines.len() && (#[trigger] lines[i].ticket) == key {
                let i = choose|i: int| 0 <= i < lines.len() && (#[trigger] lines[i].ticket) == key;
                assert(lines.drop_last()[i] == lines[i]);
            }
        }
    }
}

/// `prod_lookup` finds the first matching row.
pub proof fn lemma_prod_lookup_at(products: Seq<ProdV>, p: Seq<char>, i: int)
    requires
        0 <= i < products.len(),
        products[i].product == p,
        forall|j: int| 0 <= j < i ==> (#[trigger] products[j].product) != p,
    ensures
        prod_lookup(products, p) == Some(products[i]),
    decreases i,
{
    if i > 0 {
        let t = products.drop_first();
        assert(t[i - 1] == products[i]);
        assert forall|j: int| 0 <= j < i - 1 implies (#[trigger] t[j].product) != p by {
            assert(t[j] == products[j + 1]);
        }
        lemma_prod_lookup_at(t, p, i - 1);
    }
}

/// `prod_lookup` misses exactly when no row matches.
pub proof fn lemma_prod_lookup_absent(products: Seq<ProdV>, p: Seq<char>)
    requires
        forall|j: int| 0 <= j < products.len() ==> (#[trigger] products[j].product) != p,
    ensures
        prod_lookup(products, p) is None,
    decreases products.len(),
{
    if products.len() > 0 {
        let t = products.drop_first();
        assert forall|j: int| 0 <= j < t.len() implies (#[trigger] t[j].product) != p by {
            assert(t[j] == products[j + 1]);
        }
        lemma_prod_lookup_absent(t, p);
    }
}

/// An upsert hitting the first row keyed `p` rewrites exactly that row.
pub proof fn lemma_upsert_at(products: Seq<ProdV>, p: Seq<char>, c: Seq<char>, n: Seq<char>, i: int)
    requires
        0 <= i < products.len(),
        products[i].product == p,
        forall|j: int| 0 <= j < i ==> (#[trigger] products[j].product) != p,
    ensures
        upsert_spec(products, p, c, n) == products.update(i, upsert_row(p, c, n)),
    decreases i,
{
    if i == 0 {
        assert(seq![upsert_row(p, c, n)] + products.drop_first() =~= products.update(
            0,
            upsert_row(p, c, n),
        ));
    } else {
        let t = products.drop_first();
        assert(t[i - 1] == products[i]);
        assert forall|j: int| 0 <= j < i - 1 implies (#[trigger] t[j].product) != p by {
            assert(t[j] == products[j + 1]);
        }
        lemma_upsert_at(t, p, c, n, i - 1);
        assert(seq![products[0]] + t.update(i - 1, upsert_row(p, c, n)) =~= products.update(
            i,
            upsert_row(p, c, n),
        ));
    }
}

/// An upsert missing every row appends a fresh one.
pub proof fn lemma_upsert_absent(products: Seq<ProdV>, p: Seq<char>, c: Seq<char>, n: Seq<char>)
    requires
        forall|j: int| 0 <= j < products.len() ==> (#[trigger] products[j].product) != p,
    ensures
        upsert_spec(products, p, c, n) == products.push(upsert_row(p, c, n)),
    decreases products.len(),
{
    if products.len() == 0 {
        assert(upsert_spec(products, p, c, n) =~= products.push(upsert_row(p, c, n)));
    } else {
        let t = products.drop_first();
        assert forall|j: int| 0 <= j < t.len() implies (#[trigger] t[j].product) != p by {
            assert(t[j] == products[j + 1]);
        }
        lemma_upsert_absent(t, p, c, n);
        assert(seq![products[0]] + t.push(upsert_row(p, c, n)) =~= products.push(
            upsert_row(p, c, n),
        ));
    }
}

/// After an upsert the key maps to the new row and every other key is
/// untouched.
pub proof fn lemma_upsert_lookup(
    products: Seq<ProdV>,
    p: Seq<char>,
    c: Seq<char>,
    n: Seq<char>,
    q: Seq<char>,
)
    ensures
        prod_lookup(upsert_spec(products, p, c, n), q) == if q == p {
            Some(upsert_row(p, c, n))
        } else {
            prod_lookup(products, q)
        },
    decreases products.len(),
{
    let u = upsert_spec(products, p, c, n);
    if products.len() == 0 {
        assert(u == seq![upsert_row(p, c, n)]);
        assert(u[0] == upsert_row(p, c, n));
        if q == p {
            assert(prod_lookup(u, q) == Some(upsert_row(p, c, n)));
        } else {
            assert(u.drop_first() =~= Seq::<ProdV>::empty());
            assert(prod_lookup(Seq::<ProdV>::empty(), q) is None);
            assert(prod_lookup(u, q) is None);
        }
    } else if products[0].product == p {
        assert(u == seq![upsert_row(p, c, n)] + products.drop_first());
        assert(u[0] == upsert_row(p, c, n));
        if q != p {
            assert(u.drop_first() =~= products.drop_first());
        }
    } else {
        assert(u == seq![products[0]] + upsert_spec(products.drop_first(), p, c, n));
        assert(u[0] == products[0]);
        assert(u.drop_first() =~= upsert_spec(products.drop_first(), p, c, n));
        lemma_upsert_lookup(products.drop_first(), p, c, n, q);
    }
}

/// Upserting preserves the uniqueness of product keys.
pub proof fn lemma_upsert_wf(products: Seq<ProdV>, p: Seq<char>, c: Seq<char>, n: Seq<char>)
    requires
        products_wf(products),
    ensures
        products_wf(upsert_spec(products, p, c, n)),
    decreases products.len(),
{
    let u = upsert_spec(products, p, c, n);
    if products.len() == 0 {
    } else if products[0].product == p {
        assert forall|i: int, j: int| 0 <= i < j < u.len() implies (#[trigger] u[i].product) != (
        #[trigger] u[j].product) by {
            assert(u[j] == products[j]);
            if i > 0 {
                assert(u[i] == products[i]);
            }
        }
    } else {
        let t = products.drop_first();
        assert(products_wf(t)) by {
            assert forall|i: int, j: int| 0 <= i < j < t.len() implies (#[trigger] t[i].product)
                != (#[trigger] t[j].product) by {
                assert(t[i] == products[i + 1]);
                assert(t[j] == products[j + 1]);
            }
        }
        lemma_upsert_wf(t, p, c, n);
        let ut = upsert_spec(t, p, c, n);
        assert forall|i: int, j: int| 0 <= i < j < u.len() implies (#[trigger] u[i].product) != (
        #[trigger] u[j].product) by {
            if i == 0 {
                assert(u[j] == ut[j - 1]);
                lemma_upsert_keys(t, p, c, n, j - 1);
            } else {
                assert(u[i] == ut[i - 1]);
                assert(u[j] == ut[j - 1]);
            }
        }
    }
}

/// Every row of an upsert result keeps its key from the input, except that
/// the key `p` may appear where it was absent.
proof fn lemma_upsert_keys(products: Seq<ProdV>, p: Seq<char>, c: Seq<char>, n: Seq<char>, i: int)
    requires
        0 <= i < upsert_spec(products, p, c, n).len(),
    ensures
        upsert_spec(products, p, c, n)[i].product == p || (i < products.len() && upsert_spec(
            products,
            p,
            c,
            n,
        )[i].product == products[i].product),
    decreases products.len(),
{
    let u = upsert_spec(products, p, c, n);
    if products.len() == 0 {
    } else if products[0].product == p {
        if i > 0 {
            assert(u[i] == products.drop_first()[i - 1]);
        }
    } else {
        if i > 0 {
            assert(u[i] == upsert_spec(products.drop_first(), p, c, n)[i - 1]);
            lemma_upsert_keys(products.drop_first(), p, c, n, i - 1);
        }
    }
}

/// Two successive upserts of the same product collapse to the last one:
/// the category assignment is last-writer-wins and leaves a single row.
pub proof fn lemma_upsert_twice(
    products: Seq<ProdV>,
    p: Seq<char>,
    c1: Seq<char>,
    n1: Seq<char>,
    c2: Seq<char>,
    n2: Seq<char>,
)
    ensures
        upsert_spec(upsert_spec(products, p, c1, n1), p, c2, n2) == upsert_spec(products, p, c2, n2),
    decreases products.len(),
{
    let u1 = upsert_spec(products, p, c1, n1);
    if products.len() == 0 {
        assert(u1 == seq![upsert_row(p, c1, n1)]);
        assert(upsert_spec(u1, p, c2, n2) =~= seq![upsert_row(p, c2, n2)]);
    } else if products[0].product == p {
        assert(u1 == seq![upsert_row(p, c1, n1)] + products.drop_first());
        assert(u1[0] == upsert_row(p, c1, n1));
        assert(upsert_spec(u1, p, c2, n2) =~= seq![upsert_row(p, c2, n2)] + u1.drop_first());
        assert(u1.drop_first() =~= products.drop_first());
    } else {
        assert(u1 == seq![products[0]] + upsert_spec(products.drop_first(), p, c1, n1));
        assert(u1[0] == products[0]);
        assert(u1.drop_first() =~= upsert_spec(products.drop_first(), p, c1, n1));
        lemma_upsert_twice(products.drop_first(), p, c1, n1, c2, n2);
        assert(upsert_spec(u1, p, c2, n2) =~= seq![products[0]] + upsert_spec(
            u1.drop_first(),
            p,
            c2,
            n2,
        ));
        assert(upsert_spec(products, p, c2, n2) =~= seq![products[0]] + upsert_spec(
            products.drop_first(),
            p,
            c2,
            n2,
        ));
    }
}

/// `first_uncat` returns the product of the first line without a category
/// row.
pub proof fn lemma_first_uncat_at(lines: Seq<LineV>, products: Seq<ProdV>, i: int)
    requires
        0 <= i < lines.len(),
        prod_lookup(products, lines[i].product) is None,
        forall|j: int| 0 <= j < i ==> prod_lookup(products, (#[trigger] lines[j]).product) is Some,
    ensures
        first_uncat(lines, products) == Some(lines[i].product),
    decreases i,
{
    if i > 0 {
        let t = lines.drop_first();
        assert(t[i - 1] == lines[i]);
        assert forall|j: int| 0 <= j < i - 1 implies prod_lookup(
            products,
            (#[trigger] t[j]).product,
        ) is Some by {
            assert(t[j] == lines[j + 1]);
        }
        lemma_first_uncat_at(t, products, i - 1);
        assert(lines[0] == lines[0]);
    }
}

/// `first_uncat` misses exactly when every line product has a category row.
pub proof fn lemma_first_uncat_absent(lines: Seq<LineV>, products: Seq<ProdV>)
    requires
        forall|j: int|
            0 <= j < lines.len() ==> prod_lookup(products, (#[trigger] lines[j]).product) is Some,
    ensures
        first_uncat(lines, products) is None,
    decreases lines.len(),
{
    if lines.len() > 0 {
        let t = lines.drop_first();
        assert forall|j: int| 0 <= j < t.len() implies prod_lookup(
            products,
            (#[trigger] t[j]).product,
        ) is Some by {
            assert(t[j] == lines[j + 1]);
        }
        lemma_first_uncat_absent(t, products);
    }
}

// ---------------------------------------------------------------------------
// The store
// ---------------------------------------------------------------------------

/// Category of one product as shown to the user: present only when both
/// the label and the display name are set and non-empty — a
/// partially-set or blank row counts as absent for reporting.
pub open spec fn full_cat(products: Seq<ProdV>, p: Seq<char>) -> Option<CatNameV> {
    match prod_lookup(products, p) {
        Some(row) => match (row.category, row.name) {
            (Some(c), Some(n)) => if c.len() > 0 && n.len() > 0 {
                Some(CatNameV { category: c, name: n })
            } else {
                None
            },
            _ => None,
        },
        None => None,
    }
}

/// The in-memory store of ticket lines and product categories.
pub struct Database {
    tickets: Vec<TicketLine>,
    products: Vec<ProductData>,
}

impl View for Database {
    type V = DbV;

    closed spec fn view(&self) -> DbV {
        DbV { lines: self.tickets.deep_view(), products: self.products.deep_view() }
    }
}

/// First index of a category row keyed by `p`.
fn find_product(products: &Vec<ProductData>, p: &str) -> (r: Option<usize>)
    ensures
        r is Some ==> {
            let i = r->Some_0 as int;
            &&& 0 <= i < products.deep_view().len()
            &&& products.deep_view()[i].product == p@
            &&& forall|j: int|
                0 <= j < i ==> (#[trigger] products.deep_view()[j].product) != p@
            &&& prod_lookup(products.deep_view(), p@) == Some(products.deep_view()[i])
        },
        r is None ==> prod_lookup(products.deep_view(), p@) is None && forall|j: int|
            0 <= j < products.deep_view().len() ==> (#[trigger] products.deep_view()[j].product)
                != p@,
{
    let n = products.len();
    let mut i: usize = 0;
    while i < n
        invariant
            i <= n,
            n == products.deep_view().len(),
            forall|j: int| 0 <= j < i ==> (#[trigger] products.deep_view()[j].product) != p@,
        decreases n - i,
    {
        if str_eq(products[i].product.as_str(), p) {
            proof {
                lemma_prod_lookup_at(products.deep_view(), p@, i as int);
            }
            return Some(i);
        }
        proof {
            assert(products.deep_view()[i as int].product == products@[i as int].product@);
        }
        i = i + 1;
    }
    proof {
        lemma_prod_lookup_absent(products.deep_view(), p@);
    }
    None
}

impl Database {
    /// A fresh store with no lines and no category rows.
    pub fn new() -> (r: Self)
        ensures
            r@.lines == Seq::<LineV>::empty(),
            r@.products == Seq::<ProdV>::empty(),
            r@.wf(),
    {
        let r = Database { tickets: Vec::new(), products: Vec::new() };
        proof {
            assert(r@.lines =~= Seq::<LineV>::empty());
            assert(r@.products =~= Seq::<ProdV>::empty());
        }
        r
    }

    /// Appends one persisted line.  The storage layer itself never rejects
    /// duplicates; idempotency is the ingestion flow's concern.
    pub fn insert_ticket_item(
        &mut self,
        ticket: &str,
        date: &str,
        product: &str,
        quantity: u64,
        sum: u64,
    )
        ensures
            final(self)@.lines == old(self)@.lines.push(
                LineV {
                    ticket: ticket@,
                    date: date@,
                    product: product@,
                    quantity: quantity as int,
                    sum: sum as int,
                },
            ),
            final(self)@.products == old(self)@.products,
    {
        let line = TicketLine {
            ticket: String::from_str(ticket),
            date: String::from_str(date),
            product: String::from_str(product),
            quantity,
            sum,
        };
        self.tickets.push(line);
        proof {
            assert(self@.lines =~= old(self)@.lines.push(
                LineV {
                    ticket: ticket@,
                    date: date@,
                    product: product@,
                    quantity: quantity as int,
                    sum: sum as int,
                },
            ));
        }
    }

    /// Number of persisted lines recorded under a ticket key.
    pub fn ticket_item_count(&self, ticket: &str) -> (r: usize)
        ensures
            r == count_key(self@.lines, ticket@),
    {
        let ghost lines = self@.lines;
        let n = self.tickets.len();
        let mut cnt: usize = 0;
        let mut i: usize = 0;
        while i < n
            invariant
                i <= n,
                n == lines.len(),
                lines == self@.lines,
                cnt <= i,
                cnt == count_key(lines.subrange(0, i as int), ticket@),
            decreases n - i,
        {
            proof {
                lemma_count_key_snoc(lines, ticket@, i as int);
                assert(lines[i as int].ticket == self.tickets@[i as int].ticket@);
            }
            if str_eq(self.tickets[i].ticket.as_str(), ticket) {
                cnt = cnt + 1;
            }
            i = i + 1;
        }
        proof {
            assert(lines.subrange(0, n as int) =~= lines);
        }
        cnt
    }

    /// Deletes every line recorded under one ticket key.
    pub fn remove_ticket(&mut self, ticket: &str)
        ensures
            final(self)@.lines == drop_key(old(self)@.lines, ticket@),
            final(self)@.products == old(self)@.products,
    {
        let ghost lines = old(self)@.lines;
        let n = self.tickets.len();
        let mut kept: Vec<TicketLine> = Vec::new();
        let mut i: usize = 0;
        while i < n
            invariant
                i <= n,
                n == lines.len(),
                lines == self.tickets.deep_view(),
                kept.deep_view() == drop_key(lines.subrange(0, i as int), ticket@),
            decreases n - i,
        {
            proof {
                lemma_drop_key_snoc(lines, ticket@, i as int);
                assert(lines[i as int].ticket == self.tickets@[i as int].ticket@);
            }
            if !str_eq(self.tickets[i].ticket.as_str(), ticket) {
                let line = TicketLine {
                    ticket: self.tickets[i].ticket.clone(),
                    date: self.tickets[i].date.clone(),
                    product: self.tickets[i].product.clone(),
                    quantity: self.tickets[i].quantity,
                    sum: self.tickets[i].sum,
                };
                proof {
                    assert(line.deep_view() == lines[i as int]);
                }
                kept.push(line);
                proof {
                    assert(kept.deep_view() =~= drop_key(lines.subrange(0, i + 1), ticket@));
                }
            } else {
                proof {
                    assert(kept.deep_view() =~= drop_key(lines.subrange(0, i + 1), ticket@));
                }
            }
            i = i + 1;
        }
        self.tickets = kept;
        proof {
            assert(lines.subrange(0, n as int) =~= lines);
        }
    }

    /// Deletes every persisted line, irrevocably.
    pub fn remove_ticket_items(&mut self)
        ensures
            final(self)@.lines == Seq::<LineV>::empty(),
            final(self)@.products == old(self)@.products,
    {
        self.tickets.clear();
        proof {
            assert(self@.lines =~= Seq::<LineV>::empty());
        }
    }

    /// Insert-or-replace of the category row keyed by `product`:
    /// last writer wins, and the key stays unique.
    pub fn updatre_product_category(&mut self, product: &str, category: &str, name: &str)
        requires
            old(self)@.wf(),
        ensures
            final(self)@.products == upsert_spec(old(self)@.products, product@, category@, name@),
            final(self)@.lines == old(self)@.lines,
            final(self)@.wf(),
    {
        let ghost ps = old(self)@.products;
        let row = ProductData::new(
            String::from_str(product),
            Some(String::from_str(category)),
            Some(String::from_str(name)),
        );
        proof {
            assert(row.deep_view() == upsert_row(product@, category@, name@));
        }
        match find_product(&self.products, product) {
            Some(i) => {
                self.products.remove(i);
                self.products.insert(i, row);
                proof {
                    lemma_upsert_at(ps, product@, category@, name@, i as int);
                    assert(self@.products =~= ps.update(
                        i as int,
                        upsert_row(product@, category@, name@),
                    ));
                }
            },
            None => {
                self.products.push(row);
                proof {
                    lemma_upsert_absent(ps, product@, category@, name@);
                    assert(self@.products =~= ps.push(upsert_row(product@, category@, name@)));
                }
            },
        }
        proof {
            lemma_upsert_wf(ps, product@, category@, name@);
        }
    }

    /// Category and display name of one product, present only when a row
    /// exists with both fields set and non-empty.
    pub fn select_category_name(&self, product: &str) -> (r: Option<CategoryName>)
        ensures
            r.deep_view() == full_cat(self@.products, product@),
    {
        match find_product(&self.products, product) {
            Some(i) => {
                match (self.products[i].category.as_ref(), self.products[i].name.as_ref()) {
                    (Some(c), Some(n)) => {
                        if c.as_str().is_empty() || n.as_str().is_empty() {
                            None
                        } else {
                            Some(CategoryName::new(c.as_str(), n.as_str()))
                        }
                    },
                    _ => None,
                }
            },
            None => None,
        }
    }

    /// The first persisted line product with no category row at all, in
    /// insertion order.  The store has no per-ticket scoping here: the
    /// argument is kept for interface compatibility and ignored.
    pub fn next_uncatigorized_product(&self, _ticket: &str) -> (r: Option<String>)
        ensures
            r.deep_view() == first_uncat(self@.lines, self@.products),
    {
        let ghost lines = self@.lines;
        let n = self.tickets.len();
        let mut i: usize = 0;
        while i < n
            invariant
                i <= n,
                n == lines.len(),
                lines == self@.lines,
                forall|j: int|
                    0 <= j < i ==> prod_lookup(self@.products, (#[trigger] lines[j]).product)
                        is Some,
            decreases n - i,
        {
            proof {
                assert(lines[i as int].product == self.tickets@[i as int].product@);
            }
            match find_product(&self.products, self.tickets[i].product.as_str()) {
                None => {
                    proof {
                        lemma_first_uncat_at(lines, self@.products, i as int);
                    }
                    return Some(self.tickets[i].product.clone());
                },
                Some(_) => {},
            }
            i = i + 1;
        }
        proof {
            lemma_first_uncat_absent(lines, self@.products);
        }
        None
    }
}

/// Unrolling `drop_key` at a prefix boundary.
pub proof fn lemma_drop_key_snoc(lines: Seq<LineV>, key: Seq<char>, i: int)
    requires
        0 <= i < lines.len(),
    ensures
        drop_key(lines.subrange(0, i + 1), key) == drop_key(lines.subrange(0, i), key) + if lines[i].ticket
            == key {
            Seq::<LineV>::empty()
        } else {
            seq![lines[i]]
        },
{
    let t = lines.subrange(0, i + 1);
    assert(t.drop_last() =~= lines.subrange(0, i));
    assert(t.last() == lines[i]);
}

// ---------------------------------------------------------------------------
// The product listing (left-outer join, ordered by product)
// ---------------------------------------------------------------------------

/// Strictly ascending sequence of names.
pub open spec fn strict_sorted(names: Seq<Seq<char>>) -> bool {
    forall|i: int, j: int| 0 <= i < j < names.len() ==> lex_lt(#[trigger] names[i], #[trigger] names[j])
}

/// Membership of a name.
pub open spec fn contains_name(names: Seq<Seq<char>>, q: Seq<char>) -> bool {
    exists|i: int| 0 <= i < names.len() && (#[trigger] names[i]) == q
}

/// One row of the left-outer join for product `p`: the category fields of
/// its row when one exists, absent otherwise.
pub open spec fn joined_row(products: Seq<ProdV>, p: Seq<char>) -> ProdV {
    match prod_lookup(products, p) {
        Some(row) => ProdV { product: p, category: row.category, name: row.name },
        None => ProdV { product: p, category: None, name: None },
    }
}

/// Inserts a name into a strictly sorted vector, keeping it sorted and
/// duplicate-free.
fn insert_sorted(names: &mut Vec<String>, p: &str)
    requires
        strict_sorted(old(names).deep_view()),
    ensures
        strict_sorted(final(names).deep_view()),
        forall|q: Seq<char>|
            #[trigger] contains_name(final(names).deep_view(), q) <==> contains_name(
                old(names).deep_view(),
                q,
            ) || q == p@,
{
    let ghost dv = names.deep_view();
    let n = names.len();
    let mut pos: usize = 0;
    while pos < n && str_lt(names[pos].as_str(), p)
        invariant
            pos <= n,
            n == dv.len(),
            dv == names.deep_view(),
            strict_sorted(dv),
            forall|j: int| 0 <= j < pos ==> lex_lt(#[trigger] dv[j], p@),
        decreases n - pos,
    {
        proof {
            assert(dv[pos as int] == names@[pos as int]@);
        }
        pos = pos + 1;
    }
    proof {
        if pos < n {
            assert(dv[pos as int] == names@[pos as int]@);
        }
    }
    if pos < n && str_eq(names[pos].as_str(), p) {
        proof {
            assert(dv[pos as int] == p@);
            assert(contains_name(dv, p@));
        }
        return;
    }
    proof {
        // `p` sorts strictly below every name at or after `pos`.
        if pos < n {
            lemma_lex_total(dv[pos as int], p@);
        }
        assert forall|k: int| pos <= k < n implies lex_lt(p@, #[trigger] dv[k]) by {
            if k > pos {
                lemma_lex_trans(p@, dv[pos as int], dv[k]);
            }
        }
    }
    names.insert(pos, String::from_str(p));
    proof {
        let ndv = names.deep_view();
        assert(ndv =~= dv.insert(pos as int, p@));
        assert forall|i: int, j: int| 0 <= i < j < ndv.len() implies lex_lt(
            #[trigger] ndv[i],
            #[trigger] ndv[j],
        ) by {
            let a = if i < pos { dv[i] } else if i == pos { p@ } else { dv[i - 1] };
            let b = if j < pos { dv[j] } else if j == pos { p@ } else { dv[j - 1] };
            assert(ndv[i] == a);
            assert(ndv[j] == b);
        }
        assert forall|q: Seq<char>| #[trigger] contains_name(ndv, q) <==> contains_name(dv, q)
            || q == p@ by {
            if contains_name(ndv, q) {
                let i = choose|i: int| 0 <= i < ndv.len() && (#[trigger] ndv[i]) == q;
                if i < pos {
                    assert(dv[i] == q);
                } else if i > pos {
                    assert(dv[i - 1] == q);
                }
            }
            if contains_name(dv, q) {
                let i = choose|i: int| 0 <= i < dv.len() && (#[trigger] dv[i]) == q;
                if i < pos {
                    assert(ndv[i] == q);
                } else {
                    assert(ndv[i + 1] == q);
                }
            }
            if q == p@ {
                assert(ndv[pos as int] == q);
            }
        }
    }
}

/// Clones an optional string.
fn clone_opt(o: &Option<String>) -> (r: Option<String>)
    ensures
        r.deep_view() == o.deep_view(),
{
    match o {
        Some(s) => Some(s.clone()),
        None => None,
    }
}

/// Exactly one row of a product listing carries any one product: its rows
/// are strictly sorted by product identifier, so two equal products would
/// stand at one index.
pub proof fn lemma_join_unique(rs: Seq<ProdV>, p: Seq<char>, i: int, j: int)
    requires
        forall|a: int, b: int|
            0 <= a < b < rs.len() ==> lex_lt(
                (#[trigger] rs[a]).product,
                (#[trigger] rs[b]).product,
            ),
        0 <= i < rs.len(),
        0 <= j < rs.len(),
        rs[i].product == p,
        rs[j].product == p,
    ensures
        i == j,
{
    if i < j {
        lemma_lex_irrefl(p);
        assert(lex_lt(rs[i].product, rs[j].product));
    }
    if j < i {
        lemma_lex_irrefl(p);
        assert(lex_lt(rs[j].product, rs[i].product));
    }
}

impl Database {
    /// The left-outer join between the distinct products of the persisted
    /// lines and the category rows, ordered by product ascending, each
    /// product exactly once.
    pub fn select_category_names(&self) -> (r: Vec<ProductData>)
        ensures
            forall|i: int, j: int|
                0 <= i < j < r.deep_view().len() ==> lex_lt(
                    (#[trigger] r.deep_view()[i]).product,
                    (#[trigger] r.deep_view()[j]).product,
                ),
            forall|i: int|
                0 <= i < r.deep_view().len() ==> has_product(
                    self@.lines,
                    (#[trigger] r.deep_view()[i]).product,
                ),
            forall|p: Seq<char>|
                #[trigger] has_product(self@.lines, p) ==> exists|i: int|
                    0 <= i < r.deep_view().len() && (#[trigger] r.deep_view()[i]).product == p,
            forall|i: int|
                0 <= i < r.deep_view().len() ==> (#[trigger] r.deep_view()[i]) == joined_row(
                    self@.products,
                    r.deep_view()[i].product,
                ),
    {
        let ghost lines = self@.lines;
        let n = self.tickets.len();
        let mut names: Vec<String> = Vec::new();
        let mut i: usize = 0;
        proof {
            assert(names.deep_view() =~= Seq::<Seq<char>>::empty());
        }
        while i < n
            invariant
                i <= n,
                n == lines.len(),
                lines == self@.lines,
                strict_sorted(names.deep_view()),
                forall|q: Seq<char>|
                    #[trigger] contains_name(names.deep_view(), q) <==> has_product(
                        lines.subrange(0, i as int),
                        q,
                    ),
            decreases n - i,
        {
            let ghost before = names.deep_view();
            proof {
                assert(lines[i as int].product == self.tickets@[i as int].product@);
            }
            insert_sorted(&mut names, self.tickets[i].product.as_str());
            proof {
                let sub1 = lines.subrange(0, i + 1);
                let sub0 = lines.subrange(0, i as int);
                assert forall|q: Seq<char>| #[trigger] has_product(sub1, q) implies (has_product(
                    sub0,
                    q,
                ) || q == lines[i as int].product) by {
                    let k = choose|k: int|
                        0 <= k < sub1.len() && (#[trigger] sub1[k].product) == q;
                    if k < i {
                        assert(sub0[k].product == q);
                    } else {
                        assert(sub1[k] == lines[i as int]);
                    }
                }
                assert forall|q: Seq<char>|
                    (has_product(sub0, q) || q == lines[i as int].product) implies #[trigger]
                    has_product(sub1, q) by {
                    if has_product(sub0, q) {
                        let k = choose|k: int|
                            0 <= k < sub0.len() && (#[trigger] sub0[k].product) == q;
                        assert(sub1[k].product == q);
                    } else {
                        assert(sub1[i as int].product == q);
                    }
                }
            }
            i = i + 1;
        }
        proof {
            assert(lines.subrange(0, n as int) =~= lines);
        }
        let m = names.len();
        let mut out: Vec<ProductData> = Vec::new();
        let mut k: usize = 0;
        proof {
            assert(out.deep_view() =~= Seq::<ProdV>::empty());
        }
        while k < m
            invariant
                k <= m,
                m == names.deep_view().len(),
                strict_sorted(names.deep_view()),
                forall|q: Seq<char>|
                    #[trigger] contains_name(names.deep_view(), q) <==> has_product(
                        self@.lines,
                        q,
                    ),
                out.deep_view().len() == k,
                forall|t: int|
                    0 <= t < k ==> (#[trigger] out.deep_view()[t]) == joined_row(
                        self@.products,
                        names.deep_view()[t],
                    ),
            decreases m - k,
        {
            proof {
                assert(names.deep_view()[k as int] == names@[k as int]@);
            }
            let ghost before = out.deep_view();
            let row = match find_product(&self.products, names[k].as_str()) {
                Some(idx) => ProductData::new(
                    names[k].clone(),
                    clone_opt(&self.products[idx].category),
                    clone_opt(&self.products[idx].name),
                ),
                None => ProductData::new(names[k].clone(), None, None),
            };
            proof {
                assert(row.deep_view() == joined_row(self@.products, names.deep_view()[k as int]));
            }
            out.push(row);
            proof {
                assert(out.deep_view() =~= before.push(row.deep_view()));
            }
            k = k + 1;
        }
        proof {
            let rs = out.deep_view();
            let nv = names.deep_view();
            assert forall|i2: int, j2: int| 0 <= i2 < j2 < rs.len() implies lex_lt(
                (#[trigger] rs[i2]).product,
                (#[trigger] rs[j2]).product,
            ) by {
                assert(rs[i2] == joined_row(self@.products, nv[i2]));
                assert(rs[j2] == joined_row(self@.products, nv[j2]));
            }
            assert forall|i2: int| 0 <= i2 < rs.len() implies has_product(
                self@.lines,
                (#[trigger] rs[i2]).product,
            ) by {
                assert(rs[i2] == joined_row(self@.products, nv[i2]));
                assert(nv[i2] == nv[i2]);
                assert(contains_name(nv, nv[i2]));
            }
            assert forall|p: Seq<char>| #[trigger] has_product(self@.lines, p) implies exists|
                i2: int,
            | 0 <= i2 < rs.len() && (#[trigger] rs[i2]).product == p by {
                assert(contains_name(nv, p));
                let w = choose|w: int| 0 <= w < nv.len() && (#[trigger] nv[w]) == p;
                assert(rs[w] == joined_row(self@.products, nv[w]));
                assert(rs[w].product == p);
            }
        }
        out
    }
}

// ---------------------------------------------------------------------------
// The ticket-line listing (left-outer join, ordered by date then product)
// ---------------------------------------------------------------------------

/// The listing order: by ingestion date, then by product.
pub open spec fn item_le(a: TItemV, b: TItemV) -> bool {
    lex_lt(a.date, b.date) || (a.date == b.date && lex_le(a.product, b.product))
}

/// The listing order relates any two items.
pub proof fn lemma_item_le_total(a: TItemV, b: TItemV)
    ensures
        item_le(a, b) || item_le(b, a),
{
    lemma_lex_total(a.date, b.date);
    if a.date == b.date {
        lemma_lex_total(a.product, b.product);
    }
}

/// The listing order is transitive.
pub proof fn lemma_item_le_trans(a: TItemV, b: TItemV, c: TItemV)
    requires
        item_le(a, b),
        item_le(b, c),
    ensures
        item_le(a, c),
{
    if lex_lt(a.date, b.date) && lex_lt(b.date, c.date) {
        lemma_lex_trans(a.date, b.date, c.date);
    }
    if a.date == b.date && b.date == c.date && lex_lt(a.product, b.product) && lex_lt(
        b.product,
        c.product,
    ) {
        lemma_lex_trans(a.product, b.product, c.product);
    }
}

/// One joined line: the line's own fields with the category fields of the
/// product's row, when one exists.
pub open spec fn line_join(products: Seq<ProdV>, l: LineV) -> TItemV {
    match prod_lookup(products, l.product) {
        Some(row) => TItemV {
            date: l.date,
            product: l.product,
            category: row.category,
            name: row.name,
            quantity: l.quantity,
            sum: l.sum,
        },
        None => TItemV {
            date: l.date,
            product: l.product,
            category: None,
            name: None,
            quantity: l.quantity,
            sum: l.sum,
        },
    }
}

/// All persisted lines, joined.
pub open spec fn joined_items(products: Seq<ProdV>, lines: Seq<LineV>) -> Seq<TItemV> {
    lines.map_values(|l: LineV| line_join(products, l))
}

/// Decides the listing order on two joined lines.
fn item_le_exec(a: &TicketItemData, b: &TicketItemData) -> (r: bool)
    ensures
        r == item_le(a.deep_view(), b.deep_view()),
{
    if str_lt(a.date.as_str(), b.date.as_str()) {
        true
    } else if str_eq(a.date.as_str(), b.date.as_str()) {
        str_lt(a.product.as_str(), b.product.as_str()) || str_eq(
            a.product.as_str(),
            b.product.as_str(),
        )
    } else {
        false
    }
}

impl Database {
    /// Every persisted line joined with its product's category row,
    /// ordered by date then product.  The result is a permutation of the
    /// joined lines: nothing is dropped or invented.
    pub fn select_ticket_items(&self) -> (r: Vec<TicketItemData>)
        ensures
            r.deep_view().to_multiset() == joined_items(self@.products, self@.lines).to_multiset(),
            forall|i: int, j: int|
                0 <= i < j < r.deep_view().len() ==> item_le(
                    #[trigger] r.deep_view()[i],
                    #[trigger] r.deep_view()[j],
                ),
    {
        broadcast use vstd::seq_lib::group_to_multiset_ensures;
        broadcast use vstd::multiset::group_multiset_axioms;

        let ghost lines = self@.lines;
        let n = self.tickets.len();
        let mut joined: Vec<TicketItemData> = Vec::new();
        let mut i: usize = 0;
        proof {
            assert(joined.deep_view() =~= joined_items(self@.products, lines.subrange(0, 0)));
        }
        while i < n
            invariant
                i <= n,
                n == lines.len(),
                lines == self@.lines,
                joined.deep_view() == joined_items(self@.products, lines.subrange(0, i as int)),
            decreases n - i,
        {
            let ghost before = joined.deep_view();
            proof {
                assert(lines[i as int] == self.tickets@[i as int].deep_view());
            }
            let row = match find_product(&self.products, self.tickets[i].product.as_str()) {
                Some(idx) => TicketItemData::new(
                    self.tickets[i].date.clone(),
                    self.tickets[i].product.clone(),
                    clone_opt(&self.products[idx].category),
                    clone_opt(&self.products[idx].name),
                    self.tickets[i].quantity,
                    self.tickets[i].sum,
                ),
                None => TicketItemData::new(
                    self.tickets[i].date.clone(),
                    self.tickets[i].product.clone(),
                    None,
                    None,
                    self.tickets[i].quantity,
                    self.tickets[i].sum,
                ),
            };
            proof {
                assert(row.deep_view() == line_join(self@.products, lines[i as int]));
            }
            joined.push(row);
            proof {
                assert(joined.deep_view() =~= before.push(row.deep_view()));
                let sub1 = lines.subrange(0, i + 1);
                let ji = joined_items(self@.products, sub1);
                assert forall|j: int| 0 <= j < i + 1 implies joined.deep_view()[j] == ji[j] by {
                    assert(ji[j] == line_join(self@.products, sub1[j]));
                    if j < i {
                        assert(joined.deep_view()[j] == before[j]);
                        assert(before[j] == line_join(
                            self@.products,
                            lines.subrange(0, i as int)[j],
                        ));
                        assert(lines.subrange(0, i as int)[j] == sub1[j]);
                    } else {
                        assert(joined.deep_view()[j] == row.deep_view());
                        assert(sub1[j] == lines[i as int]);
                    }
                }
                assert(joined.deep_view() =~= ji);
            }
            i = i + 1;
        }
        proof {
            assert(lines.subrange(0, n as int) =~= lines);
        }
        let ghost orig = joined.deep_view();
        let mut out: Vec<TicketItemData> = Vec::new();
        proof {
            assert(out.deep_view() =~= Seq::<TItemV>::empty());
            assert(out.deep_view().to_multiset().add(joined.deep_view().to_multiset())
                =~= orig.to_multiset());
        }
        while joined.len() > 0
            invariant
                out.deep_view().to_multiset().add(joined.deep_view().to_multiset())
                    == orig.to_multiset(),
                forall|a: int, b: int|
                    0 <= a < b < out.deep_view().len() ==> item_le(
                        #[trigger] out.deep_view()[a],
                        #[trigger] out.deep_view()[b],
                    ),
                forall|a: int, b: int|
                    0 <= a < out.deep_view().len() && 0 <= b < joined.deep_view().len()
                        ==> item_le(
                        #[trigger] out.deep_view()[a],
                        #[trigger] joined.deep_view()[b],
                    ),
            decreases joined.len(),
        {
            let ghost jdv = joined.deep_view();
            let mut m: usize = 0;
            let mut k: usize = 1;
            while k < joined.len()
                invariant
                    jdv == joined.deep_view(),
                    joined.len() == jdv.len(),
                    0 < jdv.len(),
                    m < k,
                    k <= jdv.len(),
                    forall|j: int| 0 <= j < k ==> item_le(jdv[m as int], #[trigger] jdv[j]),
                decreases joined.len() - k,
            {
                proof {
                    assert(joined@[m as int].deep_view() == jdv[m as int]);
                    assert(joined@[k as int].deep_view() == jdv[k as int]);
                }
                if item_le_exec(&joined[k], &joined[m]) {
                    proof {
                        assert forall|j: int| 0 <= j < k + 1 implies item_le(
                            jdv[k as int],
                            #[trigger] jdv[j],
                        ) by {
                            if j < k {
                                lemma_item_le_trans(jdv[k as int], jdv[m as int], jdv[j]);
                            } else {
                                lemma_item_le_total(jdv[k as int], jdv[k as int]);
                            }
                        }
                    }
                    m = k;
                } else {
                    proof {
                        lemma_item_le_total(jdv[m as int], jdv[k as int]);
                    }
                }
                k = k + 1;
            }
            proof {
                lemma_item_le_total(jdv[m as int], jdv[m as int]);
            }
            let ghost out_before = out.deep_view();
            let x = joined.remove(m);
            out.push(x);
            proof {
                broadcast use vstd::multiset::group_multiset_axioms;

                let v = jdv[m as int];
                assert(x.deep_view() == v);
                assert(joined.deep_view() =~= jdv.remove(m as int));
                assert(out.deep_view() =~= out_before.push(v));
                vstd::seq_lib::to_multiset_remove(jdv, m as int);
                vstd::seq_lib::to_multiset_build(out_before, v);
                assert(jdv.to_multiset().count(v) > 0) by {
                    vstd::seq_lib::to_multiset_contains(jdv, v);
                }
                assert(out.deep_view().to_multiset().add(joined.deep_view().to_multiset())
                    =~= out_before.to_multiset().add(jdv.to_multiset()));
            }
        }
        proof {
            assert(joined.deep_view().to_multiset() =~= Seq::<TItemV>::empty().to_multiset());
            assert(out.deep_view().to_multiset().add(Multiset::<TItemV>::empty())
                =~= out.deep_view().to_multiset());
        }
        out
    }
}

} // verus!
