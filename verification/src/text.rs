//! Character-level utilities shared by the parsing and formatting code:
//! decimal representations of unsigned integers, scaled decimal fractions,
//! and the lexicographic order on strings.

use vstd::prelude::*;

verus! {

// ---------------------------------------------------------------------------
// Decimal digits
// ---------------------------------------------------------------------------

/// A decimal digit character.
pub open spec fn is_digit(c: char) -> bool {
    '0' as u32 <= c as u32 && c as u32 <= '9' as u32
}

/// Numeric value of a digit character.
pub open spec fn digit_val(c: char) -> int {
    c as u32 - '0' as u32
}

/// The digit character for a value in `0..=9`.
pub open spec fn digit_char(d: int) -> char {
    if d == 0 {
        '0'
    } else if d == 1 {
        '1'
    } else if d == 2 {
        '2'
    } else if d == 3 {
        '3'
    } else if d == 4 {
        '4'
    } else if d == 5 {
        '5'
    } else if d == 6 {
        '6'
    } else if d == 7 {
        '7'
    } else if d == 8 {
        '8'
    } else {
        '9'
    }
}

/// One-character string for a digit value.
pub fn digit_str(d: u64) -> (r: &'static str)
    requires
        d <= 9,
    ensures
        r@ == seq![digit_char(d as int)],
{
    if d == 0 {
        proof {
            reveal_strlit("0");
            assert("0"@ =~= seq![digit_char(0int)]);
        }
        "0"
    } else if d == 1 {
        proof {
            reveal_strlit("1");
            assert("1"@ =~= seq![digit_char(1int)]);
        }
        "1"
    } else if d == 2 {
        proof {
            reveal_strlit("2");
            assert("2"@ =~= seq![digit_char(2int)]);
        }
        "2"
    } else if d == 3 {
        proof {
            reveal_strlit("3");
            assert("3"@ =~= seq![digit_char(3int)]);
        }
        "3"
    } else if d == 4 {
        proof {
            reveal_strlit("4");
            assert("4"@ =~= seq![digit_char(4int)]);
        }
        "4"
    } else if d == 5 {
        proof {
            reveal_strlit("5");
            assert("5"@ =~= seq![digit_char(5int)]);
        }
        "5"
    } else if d == 6 {
        proof {
            reveal_strlit("6");
            assert("6"@ =~= seq![digit_char(6int)]);
        }
        "6"
    } else if d == 7 {
        proof {
            reveal_strlit("7");
            assert("7"@ =~= seq![digit_char(7int)]);
        }
        "7"
    } else if d == 8 {
        proof {
            reveal_strlit("8");
            assert("8"@ =~= seq![digit_char(8int)]);
        }
        "8"
    } else {
        proof {
            reveal_strlit("9");
            assert("9"@ =~= seq![digit_char(9int)]);
        }
        "9"
    }
}

// ---------------------------------------------------------------------------
// Unsigned integers in decimal
// ---------------------------------------------------------------------------

/// The canonical decimal representation of a non-negative integer,
/// without leading zeros.
pub open spec fn dec_rep(n: int) -> Seq<char>
    recommends
        n >= 0,
    decreases n,
{
    if n <= 9 {
        seq![digit_char(n)]
    } else {
        dec_rep(n / 10).push(digit_char(n % 10))
    }
}

/// Renders an unsigned integer in decimal.
pub fn u64_string(n: u64) -> (r: String)
    ensures
        r@ == dec_rep(n as int),
    decreases n,
{
    if n <= 9 {
        String::from_str(digit_str(n))
    } else {
        let mut s = u64_string(n / 10);
        s.append(digit_str(n % 10));
        proof {
            assert(s@ =~= dec_rep(n as int));
        }
        s
    }
}

/// Every character of the sequence is a decimal digit.
pub open spec fn all_digits(s: Seq<char>) -> bool {
    forall|i: int| 0 <= i < s.len() ==> is_digit(#[trigger] s[i])
}

/// The numeric value of a digit sequence (most significant digit first).
pub open spec fn dec_val(s: Seq<char>) -> int
    decreases s.len(),
{
    if s.len() == 0 {
        0
    } else {
        dec_val(s.drop_last()) * 10 + digit_val(s.last())
    }
}

/// Ten to the power `k`.
pub open spec fn pow10(k: int) -> int
    decreases k,
{
    if k <= 0 {
        1
    } else {
        10 * pow10(k - 1)
    }
}

/// A digit sequence's value is non-negative and below `pow10` of its length.
pub proof fn lemma_dec_val_bound(s: Seq<char>)
    requires
        all_digits(s),
    ensures
        0 <= dec_val(s) < pow10(s.len() as int),
    decreases s.len(),
{
    if s.len() > 0 {
        assert(all_digits(s.drop_last()));
        lemma_dec_val_bound(s.drop_last());
        assert(is_digit(s.last()));
    }
}

/// Appending one digit multiplies the value by ten and adds the digit.
pub proof fn lemma_dec_val_snoc(s: Seq<char>, i: int)
    requires
        0 <= i < s.len(),
    ensures
        dec_val(s.subrange(0, i + 1)) == dec_val(s.subrange(0, i)) * 10 + digit_val(s[i]),
{
    let t = s.subrange(0, i + 1);
    assert(t.drop_last() =~= s.subrange(0, i));
    assert(t.last() == s[i]);
}

/// The value of a digit sequence dominates the value of each of its prefixes.
pub proof fn lemma_dec_val_prefix(s: Seq<char>, i: int)
    requires
        all_digits(s),
        0 <= i <= s.len(),
    ensures
        dec_val(s) >= dec_val(s.subrange(0, i)),
    decreases s.len() - i,
{
    if i == s.len() {
        assert(s.subrange(0, i) =~= s);
    } else {
        lemma_dec_val_snoc(s, i);
        assert(all_digits(s.subrange(0, i)));
        lemma_dec_val_bound(s.subrange(0, i));
        lemma_dec_val_prefix(s, i + 1);
    }
}

/// Parses a decimal digit string as a `u64`.  Returns `None` when the
/// string is empty, holds a non-digit, or encodes a value above `u64::MAX`.
pub fn parse_u64(s: &str) -> (r: Option<u64>)
    ensures
        r is Some <==> s@.len() > 0 && all_digits(s@) && dec_val(s@) <= u64::MAX,
        r is Some ==> r->Some_0 == dec_val(s@),
{
    let n = s.unicode_len();
    if n == 0 {
        return None;
    }
    let mut val: u64 = 0;
    let mut i: usize = 0;
    while i < n
        invariant
            i <= n,
            n == s@.len(),
            all_digits(s@.subrange(0, i as int)),
            val == dec_val(s@.subrange(0, i as int)),
        decreases n - i,
    {
        let c = s.get_char(i);
        let cv = c as u32;
        if cv < 48 || cv > 57 {
            proof {
                assert(!is_digit(s@[i as int]));
            }
            return None;
        }
        let d = (cv - 48) as u64;
        assert(d == digit_val(s@[i as int]));
        if val > (u64::MAX - d) / 10 {
            proof {
                let q = (u64::MAX - d) / 10;
                vstd::arithmetic::div_mod::lemma_fundamental_div_mod(u64::MAX - d, 10);
                vstd::arithmetic::div_mod::lemma_mod_bound(u64::MAX - d, 10);
                assert(val * 10 >= (q + 1) * 10) by (nonlinear_arith)
                    requires
                        val >= q + 1,
                ;
                lemma_dec_val_snoc(s@, i as int);
                assert(dec_val(s@.subrange(0, i + 1)) > u64::MAX);
                if all_digits(s@) {
                    lemma_dec_val_prefix(s@, i + 1);
                }
            }
            return None;
        }
        proof {
            let q = (u64::MAX - d) / 10;
            vstd::arithmetic::div_mod::lemma_fundamental_div_mod(u64::MAX - d, 10);
            vstd::arithmetic::div_mod::lemma_mod_bound(u64::MAX - d, 10);
            assert(val * 10 <= q * 10) by (nonlinear_arith)
                requires
                    val <= q,
            ;
            lemma_dec_val_snoc(s@, i as int);
        }
        val = val * 10 + d;
        i = i + 1;
    }
    proof {
        assert(s@.subrange(0, n as int) =~= s@);
    }
    Some(val)
}

// ---------------------------------------------------------------------------
// Searching and splitting
// ---------------------------------------------------------------------------

/// Index of the first occurrence of `c` in `s`, or `-1` when absent.
pub open spec fn find_in(s: Seq<char>, c: char) -> int
    decreases s.len(),
{
    if s.len() == 0 {
        -1
    } else if s[0] == c {
        0
    } else {
        let r = find_in(s.drop_first(), c);
        if r < 0 {
            -1
        } else {
            r + 1
        }
    }
}

/// Full characterization of `find_in`.
pub proof fn lemma_find_in(s: Seq<char>, c: char)
    ensures
        -1 <= find_in(s, c) < s.len(),
        find_in(s, c) >= 0 ==> s[find_in(s, c)] == c,
        forall|j: int| 0 <= j < s.len() && (find_in(s, c) < 0 || j < find_in(s, c)) ==> s[j] != c,
    decreases s.len(),
{
    if s.len() > 0 && s[0] != c {
        lemma_find_in(s.drop_first(), c);
        assert forall|j: int|
            0 <= j < s.len() && (find_in(s, c) < 0 || j < find_in(s, c)) implies s[j] != c by {
            if j > 0 {
                assert(s.drop_first()[j - 1] == s[j]);
            }
        }
    }
}

/// `find_in` returns the first index whose character is `c`.
pub proof fn lemma_find_in_at(s: Seq<char>, c: char, i: int)
    requires
        0 <= i < s.len(),
        s[i] == c,
        forall|j: int| 0 <= j < i ==> s[j] != c,
    ensures
        find_in(s, c) == i,
    decreases i,
{
    if i > 0 {
        assert(s[0] != c);
        let t = s.drop_first();
        assert(t[i - 1] == c);
        assert forall|j: int| 0 <= j < i - 1 implies t[j] != c by {
            assert(t[j] == s[j + 1]);
        }
        lemma_find_in_at(t, c, i - 1);
    }
}

/// Finds the first occurrence of a character.
pub fn find_char(s: &str, c: char) -> (r: Option<usize>)
    ensures
        r is Some <==> find_in(s@, c) >= 0,
        r is Some ==> r->Some_0 == find_in(s@, c),
{
    let n = s.unicode_len();
    let mut i: usize = 0;
    while i < n
        invariant
            i <= n,
            n == s@.len(),
            forall|j: int| 0 <= j < i ==> s@[j] != c,
        decreases n - i,
    {
        let ch = s.get_char(i);
        if ch as u32 == c as u32 {
            proof {
                lemma_find_in_at(s@, c, i as int);
            }
            return Some(i);
        }
        proof {
            assert(s@[i as int] != c);
        }
        i = i + 1;
    }
    proof {
        lemma_find_in(s@, c);
    }
    None
}

/// The segments of `s` around each occurrence of the separator `c`.
/// Splitting never yields an empty sequence of segments.
pub open spec fn split_on(s: Seq<char>, c: char) -> Seq<Seq<char>>
    decreases s.len(),
    via split_on_dec
{
    let f = find_in(s, c);
    if f < 0 {
        seq![s]
    } else {
        seq![s.subrange(0, f)] + split_on(s.subrange(f + 1, s.len() as int), c)
    }
}

#[via_fn]
proof fn split_on_dec(s: Seq<char>, c: char) {
    lemma_find_in(s, c);
}

/// Splits a string on a separator character.
pub fn split_char(s: &str, c: char) -> (r: Vec<String>)
    ensures
        r.deep_view() == split_on(s@, c),
{
    let mut out: Vec<String> = Vec::new();
    let mut rem: &str = s;
    loop
        invariant_except_break
            split_on(s@, c) == out.deep_view() + split_on(rem@, c),
        ensures
            out.deep_view() == split_on(s@, c),
        decreases rem@.len(),
    {
        proof {
            lemma_find_in(rem@, c);
        }
        match find_char(rem, c) {
            None => {
                let seg = String::from_str(rem);
                out.push(seg);
                proof {
                    assert(out.deep_view() =~= split_on(s@, c));
                }
                break;
            },
            Some(f) => {
                let n = rem.unicode_len();
                let seg = String::from_str(rem.substring_char(0, f));
                let ghost old_out = out.deep_view();
                out.push(seg);
                rem = rem.substring_char(f + 1, n);
                proof {
                    assert(out.deep_view() =~= old_out.push(seg@));
                    assert(split_on(s@, c) =~= out.deep_view() + split_on(rem@, c));
                }
            },
        }
    }
    out
}

// ---------------------------------------------------------------------------
// Scaled decimal fractions
// ---------------------------------------------------------------------------

/// Value of a decimal numeral with an optional fractional part of at most
/// `fm` digits, scaled by `pow10(fm)` so that the result is an integer.
pub open spec fn scaled_val(s: Seq<char>, fm: int) -> Option<int>
    recommends
        fm >= 0,
{
    let f = find_in(s, '.');
    if f < 0 {
        if s.len() > 0 && all_digits(s) {
            Some(dec_val(s) * pow10(fm))
        } else {
            None
        }
    } else {
        let ip = s.subrange(0, f);
        let fp = s.subrange(f + 1, s.len() as int);
        if ip.len() > 0 && fp.len() > 0 && fp.len() <= fm && all_digits(ip) && all_digits(fp) {
            Some(dec_val(ip) * pow10(fm) + dec_val(fp) * pow10(fm - fp.len()))
        } else {
            None
        }
    }
}

/// `pow10` is at least one for non-negative exponents.
pub proof fn lemma_pow10_pos(k: int)
    ensures
        pow10(k) >= 1,
    decreases k,
{
    if k > 0 {
        lemma_pow10_pos(k - 1);
    }
}

/// `pow10` of a sum is the product of the `pow10`s.
pub proof fn lemma_pow10_adds(a: int, b: int)
    requires
        a >= 0,
        b >= 0,
    ensures
        pow10(a + b) == pow10(a) * pow10(b),
    decreases a,
{
    if a == 0 {
    } else {
        lemma_pow10_adds(a - 1, b);
        assert(pow10(a + b) == 10 * pow10(a - 1 + b));
        assert(10 * (pow10(a - 1) * pow10(b)) == (10 * pow10(a - 1)) * pow10(b))
            by (nonlinear_arith);
    }
}

/// Small powers of ten.
pub fn pow10_u64(k: usize) -> (r: u64)
    requires
        k <= 3,
    ensures
        r == pow10(k as int),
{
    proof {
        reveal_with_fuel(pow10, 5);
    }
    if k == 0 {
        1
    } else if k == 1 {
        10
    } else if k == 2 {
        100
    } else {
        1000
    }
}

/// Parses a decimal numeral with up to `fm` fractional digits into an
/// integer scaled by `pow10(fm)`.  `None` when the text is not such a
/// numeral or the scaled value exceeds `u64::MAX`.
#[verifier::rlimit(60)]
pub fn parse_scaled(s: &str, fm: usize) -> (r: Option<u64>)
    requires
        fm <= 3,
    ensures
        r is Some <==> (scaled_val(s@, fm as int) is Some && scaled_val(s@, fm as int)->Some_0
            <= u64::MAX),
        r is Some ==> r->Some_0 == scaled_val(s@, fm as int)->Some_0,
{
    let p10 = pow10_u64(fm);
    proof {
        lemma_pow10_pos(fm as int);
        lemma_find_in(s@, '.');
    }
    match find_char(s, '.') {
        None => {
            match parse_u64(s) {
                None => {
                    proof {
                        if s@.len() > 0 && all_digits(s@) {
                            lemma_dec_val_bound(s@);
                            assert(dec_val(s@) * pow10(fm as int) >= dec_val(s@) * 1)
                                by (nonlinear_arith)
                                requires
                                    dec_val(s@) >= 0 && pow10(fm as int) >= 1,
                            ;
                        }
                    }
                    None
                },
                Some(v) => {
                    proof {
                        if v as int * pow10(fm as int) > u64::MAX {
                        }
                    }
                    v.checked_mul(p10)
                },
            }
        },
        Some(f) => {
            let n = s.unicode_len();
            let fplen = n - f - 1;
            if f == 0 || fplen == 0 || fplen > fm {
                return None;
            }
            let ip = s.substring_char(0, f);
            let fp = s.substring_char(f + 1, n);
            let iv = parse_u64(ip);
            let fv = parse_u64(fp);
            proof {
                if all_digits(fp@) {
                    lemma_dec_val_bound(fp@);
                    lemma_pow10_adds(fplen as int, 0);
                }
            }
            match (iv, fv) {
                (Some(a), Some(b)) => {
                    let rest_pow = pow10_u64(fm - fplen);
                    proof {
                        lemma_dec_val_bound(fp@);
                        lemma_pow10_adds(fplen as int, fm as int - fplen);
                        assert(dec_val(fp@) * pow10(fm as int - fplen) <= (pow10(fplen as int) - 1)
                            * pow10(fm as int - fplen)) by (nonlinear_arith)
                            requires
                                dec_val(fp@) <= pow10(fplen as int) - 1 && pow10(
                                    fm as int - fplen,
                                ) >= 0,
                        ;
                        assert((pow10(fplen as int) - 1) * pow10(fm as int - fplen) == pow10(
                            fplen as int,
                        ) * pow10(fm as int - fplen) - pow10(fm as int - fplen))
                            by (nonlinear_arith);
                        lemma_pow10_pos(fm as int - fplen);
                    }
                    let frac = b * rest_pow;
                    match a.checked_mul(p10) {
                        None => {
                            proof {
                                lemma_dec_val_bound(fp@);
                                lemma_pow10_pos(fm as int - fplen);
                                assert(dec_val(fp@) * pow10(fm as int - fplen) >= 0)
                                    by (nonlinear_arith)
                                    requires
                                        dec_val(fp@) >= 0 && pow10(fm as int - fplen) >= 0,
                                ;
                            }
                            None
                        },
                        Some(w) => {
                            w.checked_add(frac)
                        },
                    }
                },
                _ => {
                    proof {
                        if scaled_val(s@, fm as int) is Some {
                            lemma_dec_val_bound(fp@);
                            lemma_pow10_pos(fm as int - fplen);
                            reveal_with_fuel(pow10, 5);
                            assert(dec_val(ip@) * pow10(fm as int) >= dec_val(ip@) * 1)
                                by (nonlinear_arith)
                                requires
                                    dec_val(ip@) >= 0 && pow10(fm as int) >= 1,
                            ;
                            assert(dec_val(fp@) * pow10(fm as int - fplen) >= 0)
                                by (nonlinear_arith)
                                requires
                                    dec_val(fp@) >= 0 && pow10(fm as int - fplen) >= 0,
                            ;
                        }
                    }
                    None
                },
            }
        },
    }
}

// ---------------------------------------------------------------------------
// Monetary amounts
// ---------------------------------------------------------------------------

/// Decimal rendering of an amount of minor currency units, with the
/// fractional part shortened: `47800` is `"478"`, `47850` is `"478.5"`,
/// and `47856` is `"478.56"`.
pub open spec fn sum_rep(m: int) -> Seq<char>
    recommends
        m >= 0,
{
    let whole = m / 100;
    let frac = m % 100;
    if frac == 0 {
        dec_rep(whole)
    } else if frac % 10 == 0 {
        dec_rep(whole) + seq!['.', digit_char(frac / 10)]
    } else {
        dec_rep(whole) + seq!['.', digit_char(frac / 10), digit_char(frac % 10)]
    }
}

/// Renders an amount of minor currency units as a decimal amount of major
/// units, trimming trailing zeros of the two-digit fractional part.
pub fn format_sum(m: u64) -> (r: String)
    ensures
        r@ == sum_rep(m as int),
{
    let whole = m / 100;
    let frac = m % 100;
    if frac == 0 {
        u64_string(whole)
    } else if frac % 10 == 0 {
        let mut s = u64_string(whole);
        proof {
            reveal_strlit(".");
        }
        s.append(".");
        s.append(digit_str(frac / 10));
        proof {
            assert(s@ =~= sum_rep(m as int));
        }
        s
    } else {
        let mut s = u64_string(whole);
        proof {
            reveal_strlit(".");
        }
        s.append(".");
        s.append(digit_str(frac / 10));
        s.append(digit_str(frac % 10));
        proof {
            assert(s@ =~= sum_rep(m as int));
        }
        s
    }
}

// ---------------------------------------------------------------------------
// Lexicographic order on strings
// ---------------------------------------------------------------------------

/// Strict lexicographic order on character sequences, by code point.
pub open spec fn lex_lt(a: Seq<char>, b: Seq<char>) -> bool
    decreases a.len(),
{
    if b.len() == 0 {
        false
    } else if a.len() == 0 {
        true
    } else if (a[0] as u32) < (b[0] as u32) {
        true
    } else if a[0] == b[0] {
        lex_lt(a.drop_first(), b.drop_first())
    } else {
        false
    }
}

/// Non-strict lexicographic order.
pub open spec fn lex_le(a: Seq<char>, b: Seq<char>) -> bool {
    lex_lt(a, b) || a == b
}

/// The order is irreflexive.
pub proof fn lemma_lex_irrefl(a: Seq<char>)
    ensures
        !lex_lt(a, a),
    decreases a.len(),
{
    if a.len() > 0 {
        lemma_lex_irrefl(a.drop_first());
    }
}

/// The order is transitive.
pub proof fn lemma_lex_trans(a: Seq<char>, b: Seq<char>, c: Seq<char>)
    requires
        lex_lt(a, b),
        lex_lt(b, c),
    ensures
        lex_lt(a, c),
    decreases a.len(),
{
    if a.len() > 0 && a[0] == b[0] && b[0] == c[0] {
        lemma_lex_trans(a.drop_first(), b.drop_first(), c.drop_first());
    }
}

/// Any two sequences are ordered or equal.
pub proof fn lemma_lex_total(a: Seq<char>, b: Seq<char>)
    ensures
        lex_lt(a, b) || lex_lt(b, a) || a == b,
    decreases a.len(),
{
    if a.len() == 0 && b.len() == 0 {
        assert(a =~= b);
    } else if a.len() == 0 {
        assert(lex_lt(a, b));
    } else if b.len() == 0 {
        assert(lex_lt(b, a));
    } else {
        if a[0] == b[0] {
            lemma_lex_total(a.drop_first(), b.drop_first());
            if a.drop_first() == b.drop_first() {
                assert(a.drop_first().len() == b.drop_first().len());
                assert(a.len() == b.len());
                assert forall|j: int| 0 <= j < a.len() implies a[j] == b[j] by {
                    if j > 0 {
                        assert(a.drop_first()[j - 1] == a[j]);
                        assert(b.drop_first()[j - 1] == b[j]);
                    }
                }
                assert(a =~= b);
            }
        } else {
            vstd::utf8::char_u32_cast(a[0], a[0] as u32);
            vstd::utf8::char_u32_cast(b[0], b[0] as u32);
            assert(a[0] as u32 != b[0] as u32);
        }
    }
}

/// Dropping a common prefix preserves the order.
pub proof fn lemma_lex_skip(a: Seq<char>, b: Seq<char>, i: int)
    requires
        0 <= i <= a.len(),
        i <= b.len(),
        a.subrange(0, i) == b.subrange(0, i),
    ensures
        lex_lt(a, b) == lex_lt(a.subrange(i, a.len() as int), b.subrange(i, b.len() as int)),
    decreases i,
{
    if i == 0 {
        assert(a.subrange(0, a.len() as int) =~= a);
        assert(b.subrange(0, b.len() as int) =~= b);
    } else {
        assert(a.subrange(0, i)[0] == a[0]);
        assert(b.subrange(0, i)[0] == b[0]);
        assert(a[0] == b[0]);
        let a1 = a.drop_first();
        let b1 = b.drop_first();
        assert(a1.subrange(0, i - 1) =~= b1.subrange(0, i - 1)) by {
            assert forall|j: int| 0 <= j < i - 1 implies #[trigger] a1[j] == b1[j] by {
                assert(a1[j] == a[j + 1]);
                assert(b1[j] == b[j + 1]);
                assert(a.subrange(0, i)[j + 1] == a[j + 1]);
                assert(b.subrange(0, i)[j + 1] == b[j + 1]);
            }
        }
        lemma_lex_skip(a1, b1, i - 1);
        assert(a1.subrange(i - 1, a1.len() as int) =~= a.subrange(i, a.len() as int));
        assert(b1.subrange(i - 1, b1.len() as int) =~= b.subrange(i, b.len() as int));
    }
}

/// Decides the strict lexicographic order on two strings.
pub fn str_lt(a: &str, b: &str) -> (r: bool)
    ensures
        r == lex_lt(a@, b@),
{
    let an = a.unicode_len();
    let bn = b.unicode_len();
    let mut i: usize = 0;
    while i < an && i < bn
        invariant
            i <= an,
            i <= bn,
            an == a@.len(),
            bn == b@.len(),
            a@.subrange(0, i as int) == b@.subrange(0, i as int),
        decreases an - i,
    {
        let ca = a.get_char(i);
        let cb = b.get_char(i);
        if (ca as u32) < (cb as u32) {
            proof {
                lemma_lex_skip(a@, b@, i as int);
            }
            return true;
        }
        if (ca as u32) > (cb as u32) {
            proof {
                lemma_lex_skip(a@, b@, i as int);
            }
            return false;
        }
        proof {
            assert(a@[i as int] == b@[i as int]);
            assert(a@.subrange(0, i + 1) =~= b@.subrange(0, i + 1));
        }
        i = i + 1;
    }
    proof {
        lemma_lex_skip(a@, b@, i as int);
    }
    an < bn
}

/// Decides string equality.
pub fn str_eq(a: &str, b: &str) -> (r: bool)
    ensures
        r == (a@ == b@),
{
    let an = a.unicode_len();
    let bn = b.unicode_len();
    if an != bn {
        return false;
    }
    let mut i: usize = 0;
    while i < an
        invariant
            i <= an,
            an == a@.len(),
            an == b@.len(),
            forall|j: int| 0 <= j < i ==> a@[j] == b@[j],
        decreases an - i,
    {
        let ca = a.get_char(i);
        let cb = b.get_char(i);
        if ca as u32 != cb as u32 {
            return false;
        }
        proof {
            assert(a@[i as int] == b@[i as int]);
        }
        i = i + 1;
    }
    proof {
        assert(a@ =~= b@);
    }
    true
}

} // verus!
