//! Category assignment and the category listing.
//!
//! A category row associates a product identifier with a label and a
//! display name, insert-or-replace on the identifier.  The listing joins
//! every product ever seen in a persisted line with its category row, and
//! the uncategorized report filters that join down to the products with
//! no category data at all.

use vstd::prelude::*;
use crate::database::{has_product, joined_row, prod_lookup, upsert_spec, Database, ProdV,
    ProductData};
use crate::text::lex_lt;

verus! {

/// Ghost view of an [`UpdateParams`].
pub struct UpdateV {
    pub product: Seq<char>,
    pub category: Seq<char>,
    pub name: Seq<char>,
}

/// The fields of a categorization-update request.
pub struct UpdateParams {
    product: String,
    category: String,
    name: String,
}

impl DeepView for UpdateParams {
    type V = UpdateV;

    closed spec fn deep_view(&self) -> UpdateV {
        UpdateV { product: self.product@, category: self.category@, name: self.name@ }
    }
}

impl UpdateParams {
    pub fn new(product: String, category: String, name: String) -> (r: Self)
        ensures
            r.deep_view() == (UpdateV { product: product@, category: category@, name: name@ }),
    {
        Self { product, category, name }
    }

    pub fn product(&self) -> (r: &str)
        ensures
            r@ == self.deep_view().product,
    {
        self.product.as_str()
    }

    pub fn category(&self) -> (r: &str)
        ensures
            r@ == self.deep_view().category,
    {
        self.category.as_str()
    }

    pub fn name(&self) -> (r: &str)
        ensures
            r@ == self.deep_view().name,
    {
        self.name.as_str()
    }
}

/// Ghost view of a [`ReplyItem`].
pub struct ReplyItemV {
    pub product: Seq<char>,
    pub category: Seq<char>,
    pub name: Seq<char>,
}

/// A listing row as replied to the user: absent category data becomes
/// empty strings.
pub open spec fn reply_item_of(p: ProdV) -> ReplyItemV {
    ReplyItemV {
        product: p.product,
        category: match p.category {
            Some(c) => c,
            None => Seq::empty(),
        },
        name: match p.name {
            Some(n) => n,
            None => Seq::empty(),
        },
    }
}

/// One row of the category listing reply.
pub struct ReplyItem {
    product: String,
    category: String,
    name: String,
}

impl DeepView for ReplyItem {
    type V = ReplyItemV;

    closed spec fn deep_view(&self) -> ReplyItemV {
        ReplyItemV { product: self.product@, category: self.category@, name: self.name@ }
    }
}

impl ReplyItem {
    /// Shapes one join row for the reply, defaulting absent category
    /// data to empty strings.
    pub fn from(value: ProductData) -> (r: Self)
        ensures
            r.deep_view() == reply_item_of(value.deep_view()),
    {
        let product = String::from_str(value.product());
        let category = match value.category() {
            Some(c) => c.clone(),
            None => String::new(),
        };
        let name = match value.name() {
            Some(n) => n.clone(),
            None => String::new(),
        };
        proof {
            assert(category@ =~= reply_item_of(value.deep_view()).category);
            assert(name@ =~= reply_item_of(value.deep_view()).name);
        }
        Self { product, category, name }
    }

    pub fn product(&self) -> (r: &str)
        ensures
            r@ == self.deep_view().product,
    {
        self.product.as_str()
    }

    pub fn category(&self) -> (r: &str)
        ensures
            r@ == self.deep_view().category,
    {
        self.category.as_str()
    }

    pub fn name(&self) -> (r: &str)
        ensures
            r@ == self.deep_view().name,
    {
        self.name.as_str()
    }
}

/// Reply envelope of the category endpoints.
pub enum Reply {
    List { success: bool, items: Vec<ReplyItem> },
    Success { success: bool },
    Error { success: bool, message: String },
}

impl Reply {
    /// A listing reply: every join row shaped for the wire.
    pub fn list(items: Vec<ProductData>) -> (r: Self)
        ensures
            r matches Reply::List { success, items: out } && success == true
                && out.deep_view().len() == items.deep_view().len() && forall|t: int|
                0 <= t < items.deep_view().len() ==> (#[trigger] out.deep_view()[t])
                    == reply_item_of(items.deep_view()[t]),
    {
        let ghost iv = items.deep_view();
        let n = items.len();
        let mut out: Vec<ReplyItem> = Vec::new();
        let mut k: usize = 0;
        let mut rest = items;
        // consume from the front so each row can be moved out
        while k < n
            invariant
                k <= n,
                n == iv.len(),
                rest.deep_view().len() == n - k,
                forall|t: int|
                    0 <= t < n - k ==> (#[trigger] rest.deep_view()[t]) == iv[t + k],
                out.deep_view().len() == k,
                forall|t: int|
                    0 <= t < k ==> (#[trigger] out.deep_view()[t]) == reply_item_of(iv[t]),
            decreases n - k,
        {
            let ghost rest_before = rest.deep_view();
            let ghost out_before = out.deep_view();
            let row = rest.remove(0);
            proof {
                assert(rest_before[0] == iv[k as int]);
                assert(row.deep_view() == rest_before[0]);
                assert(rest.deep_view() =~= rest_before.subrange(1, rest_before.len() as int));
            }
            let item = ReplyItem::from(row);
            out.push(item);
            proof {
                assert(out.deep_view() =~= out_before.push(item.deep_view()));
                assert forall|t: int| 0 <= t < n - (k + 1) implies (#[trigger] rest.deep_view()[t])
                    == iv[t + k + 1] by {
                    assert(rest.deep_view()[t] == rest_before[t + 1]);
                }
            }
            k = k + 1;
        }
        Reply::List { success: true, items: out }
    }

    pub fn success() -> (r: Self)
        ensures
            r matches Reply::Success { success } && success == true,
    {
        Reply::Success { success: true }
    }

    pub fn error(message: &str) -> (r: Self)
        ensures
            r matches Reply::Error { success, message: m } && success == false && m@ == message@,
    {
        Reply::Error { success: false, message: String::from_str(message) }
    }
}

/// The category listing: one row per product ever seen in a persisted
/// line, ordered by product ascending, carrying its category data (empty
/// strings where none is assigned).
pub fn list(database: &Database) -> (r: Reply)
    ensures
        r matches Reply::List { success, items } && success == true && {
            let rs = items.deep_view();
            &&& forall|i: int, j: int|
                0 <= i < j < rs.len() ==> lex_lt(
                    (#[trigger] rs[i]).product,
                    (#[trigger] rs[j]).product,
                )
            &&& forall|i: int|
                0 <= i < rs.len() ==> has_product(database@.lines, (#[trigger] rs[i]).product)
            &&& forall|p: Seq<char>|
                #[trigger] has_product(database@.lines, p) ==> exists|i: int|
                    0 <= i < rs.len() && (#[trigger] rs[i]).product == p
            &&& forall|i: int|
                0 <= i < rs.len() ==> (#[trigger] rs[i]) == reply_item_of(
                    joined_row(database@.products, rs[i].product),
                )
        },
{
    let rows = database.select_category_names();
    let ghost rv = rows.deep_view();
    let r = Reply::list(rows);
    proof {
        let rs = match &r {
            Reply::List { items, .. } => items.deep_view(),
            _ => Seq::<ReplyItemV>::empty(),
        };
        assert forall|i: int| 0 <= i < rs.len() implies (#[trigger] rs[i]).product
            == rv[i].product by {
            assert(rs[i] == reply_item_of(rv[i]));
        }
        assert forall|p: Seq<char>| #[trigger] has_product(database@.lines, p) implies exists|
            i: int,
        | 0 <= i < rs.len() && (#[trigger] rs[i]).product == p by {
            let w = choose|w: int| 0 <= w < rv.len() && (#[trigger] rv[w]).product == p;
            assert(rs[w].product == p);
        }
        assert forall|i: int| 0 <= i < rs.len() implies (#[trigger] rs[i]) == reply_item_of(
            joined_row(database@.products, rs[i].product),
        ) by {
            assert(rs[i] == reply_item_of(rv[i]));
            assert(rv[i] == joined_row(database@.products, rv[i].product));
        }
    }
    r
}

/// Assigns a category and display name to a product identifier:
/// insert-or-replace on the identifier, last writer wins.  Persisted
/// lines are untouched.
pub fn update(database: &mut Database, params: &UpdateParams) -> (r: Reply)
    requires
        old(database)@.wf(),
    ensures
        final(database)@.products == upsert_spec(
            old(database)@.products,
            params.deep_view().product,
            params.deep_view().category,
            params.deep_view().name,
        ),
        final(database)@.lines == old(database)@.lines,
        final(database)@.wf(),
        r matches Reply::Success { success } && success == true,
{
    database.updatre_product_category(params.product(), params.category(), params.name());
    Reply::success()
}

/// Category data that counts as absent for reporting: a missing field,
/// or one set to the empty string.
pub open spec fn blank(o: Option<Seq<char>>) -> bool {
    match o {
        None => true,
        Some(s) => s.len() == 0,
    }
}

/// Decides whether one optional field carries no category data.
fn is_blank(o: Option<&String>) -> (r: bool)
    ensures
        r == blank(o.deep_view()),
{
    match o {
        None => true,
        Some(s) => s.as_str().is_empty(),
    }
}

/// A product of the join with no category data at all: no row, or a row
/// whose category and name are both absent or empty.
pub open spec fn uncategorized(products: Seq<ProdV>, p: Seq<char>) -> bool {
    match prod_lookup(products, p) {
        None => true,
        Some(row) => blank(row.category) && blank(row.name),
    }
}

/// Whether a join row belongs to the uncategorized report.
pub open spec fn keep_row(p: ProdV) -> bool {
    blank(p.category) && blank(p.name)
}

/// The products of the join rows with no category data, in row order.
pub open spec fn kept_products(rows: Seq<ProdV>) -> Seq<Seq<char>>
    decreases rows.len(),
{
    if rows.len() == 0 {
        Seq::empty()
    } else {
        kept_products(rows.drop_last()) + if keep_row(rows.last()) {
            seq![rows.last().product]
        } else {
            Seq::<Seq<char>>::empty()
        }
    }
}

/// Unrolling `kept_products` at a prefix boundary.
proof fn lemma_kept_snoc(rows: Seq<ProdV>, k: int)
    requires
        0 <= k < rows.len(),
    ensures
        kept_products(rows.subrange(0, k + 1)) == kept_products(rows.subrange(0, k)) + if keep_row(
            rows[k],
        ) {
            seq![rows[k].product]
        } else {
            Seq::<Seq<char>>::empty()
        },
{
    let t = rows.subrange(0, k + 1);
    assert(t.drop_last() =~= rows.subrange(0, k));
    assert(t.last() == rows[k]);
}

/// A product stands in the report exactly when some kept row carries it.
proof fn lemma_kept_membership(rows: Seq<ProdV>, q: Seq<char>)
    ensures
        (exists|t: int|
            0 <= t < kept_products(rows).len() && (#[trigger] kept_products(rows)[t]) == q)
            <==> exists|i: int|
            0 <= i < rows.len() && (#[trigger] rows[i]).product == q && keep_row(rows[i]),
    decreases rows.len(),
{
    if rows.len() > 0 {
        let dl = rows.drop_last();
        let kd = kept_products(dl);
        lemma_kept_membership(dl, q);
        if exists|t: int|
            0 <= t < kept_products(rows).len() && (#[trigger] kept_products(rows)[t]) == q {
            let t = choose|t: int|
                0 <= t < kept_products(rows).len() && (#[trigger] kept_products(rows)[t]) == q;
            if t < kd.len() {
                assert(kd[t] == q);
                let i = choose|i: int|
                    0 <= i < dl.len() && (#[trigger] dl[i]).product == q && keep_row(dl[i]);
                assert(rows[i] == dl[i]);
            } else {
                assert(keep_row(rows.last()));
                assert(rows[rows.len() - 1].product == q);
            }
        }
        if exists|i: int|
            0 <= i < rows.len() && (#[trigger] rows[i]).product == q && keep_row(rows[i]) {
            let i = choose|i: int|
                0 <= i < rows.len() && (#[trigger] rows[i]).product == q && keep_row(rows[i]);
            if i < rows.len() - 1 {
                assert(dl[i] == rows[i]);
                let t = choose|t: int| 0 <= t < kd.len() && (#[trigger] kd[t]) == q;
                assert(kept_products(rows)[t] == q);
            } else {
                assert(keep_row(rows.last()));
                assert(kept_products(rows)[kd.len() as int] == q);
            }
        }
    }
}

/// Filtering rows that are strictly sorted by product keeps the products
/// strictly sorted.
proof fn lemma_kept_sorted(rows: Seq<ProdV>)
    requires
        forall|i: int, j: int|
            0 <= i < j < rows.len() ==> lex_lt(
                (#[trigger] rows[i]).product,
                (#[trigger] rows[j]).product,
            ),
    ensures
        forall|a: int, b: int|
            0 <= a < b < kept_products(rows).len() ==> lex_lt(
                #[trigger] kept_products(rows)[a],
                #[trigger] kept_products(rows)[b],
            ),
    decreases rows.len(),
{
    if rows.len() > 0 {
        let dl = rows.drop_last();
        let kd = kept_products(dl);
        assert forall|i: int, j: int| 0 <= i < j < dl.len() implies lex_lt(
            (#[trigger] dl[i]).product,
            (#[trigger] dl[j]).product,
        ) by {
            assert(dl[i] == rows[i]);
            assert(dl[j] == rows[j]);
        }
        lemma_kept_sorted(dl);
        assert forall|a: int, b: int| 0 <= a < b < kept_products(rows).len() implies lex_lt(
            #[trigger] kept_products(rows)[a],
            #[trigger] kept_products(rows)[b],
        ) by {
            if b < kd.len() {
                assert(kept_products(rows)[a] == kd[a]);
                assert(kept_products(rows)[b] == kd[b]);
            } else {
                assert(kept_products(rows)[b] == rows.last().product);
                assert(kept_products(rows)[a] == kd[a]);
                lemma_kept_membership(dl, kd[a]);
                let i = choose|i: int|
                    0 <= i < dl.len() && (#[trigger] dl[i]).product == kd[a] && keep_row(dl[i]);
                assert(rows[i] == dl[i]);
                assert(lex_lt(rows[i].product, rows[rows.len() - 1].product));
            }
        }
    }
}

/// The products that appear in at least one persisted line but have no
/// category data, ordered ascending, each exactly once.
pub fn uncategorized_products(database: &Database) -> (r: Vec<String>)
    ensures
        forall|i: int, j: int|
            0 <= i < j < r.deep_view().len() ==> lex_lt(
                #[trigger] r.deep_view()[i],
                #[trigger] r.deep_view()[j],
            ),
        forall|p: Seq<char>|
            (exists|i: int| 0 <= i < r.deep_view().len() && (#[trigger] r.deep_view()[i]) == p)
                <==> #[trigger] has_product(database@.lines, p) && uncategorized(
                database@.products,
                p,
            ),
{
    let rows = database.select_category_names();
    let ghost rv = rows.deep_view();
    let n = rows.len();
    let mut out: Vec<String> = Vec::new();
    let mut k: usize = 0;
    proof {
        assert(out.deep_view() =~= kept_products(rv.subrange(0, 0)));
    }
    while k < n
        invariant
            k <= n,
            n == rv.len(),
            rv == rows.deep_view(),
            out.deep_view() == kept_products(rv.subrange(0, k as int)),
        decreases n - k,
    {
        let ghost out_before = out.deep_view();
        proof {
            lemma_kept_snoc(rv, k as int);
        }
        if is_blank(rows[k].category()) && is_blank(rows[k].name()) {
            let p = String::from_str(rows[k].product());
            out.push(p);
            proof {
                assert(out.deep_view() =~= out_before.push(rv[k as int].product));
                assert(out.deep_view() =~= kept_products(rv.subrange(0, k + 1)));
            }
        } else {
            proof {
                assert(out.deep_view() =~= kept_products(rv.subrange(0, k + 1)));
            }
        }
        k = k + 1;
    }
    proof {
        assert(rv.subrange(0, n as int) =~= rv);
        lemma_kept_sorted(rv);
        let dv = out.deep_view();
        assert forall|p: Seq<char>| (exists|i: int|
            0 <= i < dv.len() && (#[trigger] dv[i]) == p) implies #[trigger] has_product(
            database@.lines,
            p,
        ) && uncategorized(database@.products, p) by {
            lemma_kept_membership(rv, p);
            let i = choose|i: int|
                0 <= i < rv.len() && (#[trigger] rv[i]).product == p && keep_row(rv[i]);
            assert(rv[i] == joined_row(database@.products, rv[i].product));
            assert(has_product(database@.lines, rv[i].product));
        }
        assert forall|p: Seq<char>| #[trigger] has_product(database@.lines, p) && uncategorized(
            database@.products,
            p,
        ) implies (exists|i: int| 0 <= i < dv.len() && (#[trigger] dv[i]) == p) by {
            let i = choose|i: int| 0 <= i < rv.len() && (#[trigger] rv[i]).product == p;
            assert(rv[i] == joined_row(database@.products, p));
            assert(keep_row(rv[i]));
            lemma_kept_membership(rv, p);
        }
    }
    out
}

} // verus!
