//! Bank-export records: tabular rows, each standing for one payment.
//!
//! Amount fields arrive locale-formatted (comma decimal separator,
//! spaces as thousands separators) and are normalized before parsing;
//! a field that still does not parse counts as zero cents.

use vstd::prelude::*;
use crate::date::{dig, digit_val, is_dig, is_digit, spec_parse};
use crate::payment::{Payment, AMOUNT_LIMIT};

verus! {

/// One row of a tabular bank export, fields as raw text.
#[derive(Clone, Debug)]
pub struct Operation {
    pub date_op: String,
    pub date_val: String,
    pub label: String,
    pub category: String,
    pub category_parent: String,
    pub supplier_found: String,
    pub amount: String,
    pub account_num: String,
    pub account_label: String,
    pub account_balance: String,
    pub comment: Option<String>,
    pub pointer: String,
}

/// The rows read from one statement file.
#[derive(Clone, Debug)]
pub struct Export(pub Vec<Operation>);

/// Amount text normalization: spaces are dropped and the comma decimal
/// separator becomes a dot.
pub open spec fn spec_normalize(s: Seq<char>) -> Seq<char>
    decreases s.len(),
{
    if s.len() == 0 {
        Seq::empty()
    } else {
        let rest = spec_normalize(s.drop_last());
        if s.last() == ' ' {
            rest
        } else if s.last() == ',' {
            rest.push('.')
        } else {
            rest.push(s.last())
        }
    }
}

/// Every character of `t` between `from` and `to` is a digit.
pub open spec fn all_digits_range(t: Seq<char>, from: int, to: int) -> bool {
    forall|q: int| from <= q < to ==> is_digit(#[trigger] t[q])
}

/// Length of the longest digit prefix of `t`.
pub open spec fn digits_prefix_len(t: Seq<char>) -> int
    decreases t.len(),
{
    if t.len() == 0 || !is_digit(t[0]) {
        0
    } else {
        1 + digits_prefix_len(t.drop_first())
    }
}

/// Value of an all-digit text read in base ten.
pub open spec fn digits_val(t: Seq<char>) -> int
    decreases t.len(),
{
    if t.len() == 0 {
        0
    } else {
        digits_val(t.drop_last()) * 10 + digit_val(t.last())
    }
}

/// Ten to the `n`-th power.
pub open spec fn pow10(n: nat) -> int
    decreases n,
{
    if n == 0 {
        1
    } else {
        10 * pow10((n - 1) as nat)
    }
}

proof fn lemma_pow10_mono(a: nat, b: nat)
    requires
        a <= b,
    ensures
        pow10(a) <= pow10(b),
        1 <= pow10(a),
    decreases b,
{
    if b == 0 {
    } else if a == b {
        lemma_pow10_mono((a - 1) as nat, (b - 1) as nat);
    } else {
        lemma_pow10_mono(a, (b - 1) as nat);
    }
}

proof fn lemma_digits_prefix_len_at(t: Seq<char>, j: int)
    requires
        0 <= j <= t.len(),
        forall|q: int| 0 <= q < j ==> is_digit(#[trigger] t[q]),
        j == t.len() || !is_digit(t[j]),
    ensures
        digits_prefix_len(t) == j,
    decreases t.len(),
{
    if t.len() == 0 {
    } else if j == 0 {
    } else {
        assert(is_digit(t[0]));
        assert forall|q: int| 0 <= q < j - 1 implies is_digit(#[trigger] t.drop_first()[q]) by {
            assert(t.drop_first()[q] == t[q + 1]);
        }
        if j - 1 < t.drop_first().len() {
            assert(t.drop_first()[j - 1] == t[j]);
        }
        lemma_digits_prefix_len_at(t.drop_first(), j - 1);
    }
}

proof fn lemma_digits_val_bound(t: Seq<char>)
    requires
        forall|q: int| 0 <= q < t.len() ==> is_digit(#[trigger] t[q]),
    ensures
        0 <= digits_val(t) < pow10(t.len()),
    decreases t.len(),
{
    if t.len() == 0 {
    } else {
        lemma_digits_val_bound(t.drop_last());
    }
}

/// A normalized amount body (sign removed): up to eleven integer digits,
/// optionally followed by a dot and fraction digits, with at least one
/// digit on one side of the dot.  Exponent notation is not an amount.
pub open spec fn body_shape(t: Seq<char>) -> bool {
    let k = digits_prefix_len(t);
    &&& k <= 11
    &&& if k == t.len() {
        1 <= k
    } else {
        &&& t[k] == '.'
        &&& all_digits_range(t, k + 1, t.len() as int)
        &&& (1 <= k || k + 1 < t.len())
    }
}

/// Value in cents of the fraction digits starting at `from`: the first
/// two count, missing ones are zero.
pub open spec fn frac_cents(t: Seq<char>, from: int) -> int {
    if from >= t.len() {
        0
    } else if from + 1 == t.len() {
        digit_val(t[from]) * 10
    } else {
        digit_val(t[from]) * 10 + digit_val(t[from + 1])
    }
}

/// Cents spelled by a shaped body: the integer digits times one hundred
/// plus the fraction cents.  Fraction digits past the second lie below
/// cent resolution and are dropped.
pub open spec fn body_cents(t: Seq<char>) -> int {
    let k = digits_prefix_len(t);
    digits_val(t.take(k)) * 100 + frac_cents(t, k + 1)
}

/// An amount text the parser accepts: after normalization, an optional
/// sign followed by a shaped body.
pub open spec fn spec_amount_parses(s: Seq<char>) -> bool {
    let t = spec_normalize(s);
    let p: int = if t.len() > 0 && (t[0] == '-' || t[0] == '+') {
        1
    } else {
        0
    };
    body_shape(t.skip(p))
}

/// What an amount text is worth in cents after normalization: an optional
/// sign, then a shaped body; a text of any other shape counts as zero.
pub open spec fn spec_amount_cents(s: Seq<char>) -> int {
    let t = spec_normalize(s);
    let p: int = if t.len() > 0 && (t[0] == '-' || t[0] == '+') {
        1
    } else {
        0
    };
    let sign: int = if t.len() > 0 && t[0] == '-' {
        -1
    } else {
        1
    };
    let b = t.skip(p);
    if body_shape(b) {
        sign * body_cents(b)
    } else {
        0
    }
}

fn normalize(s: &str) -> (r: Vec<char>)
    ensures
        r@ == spec_normalize(s@),
{
    let n = s.unicode_len();
    let mut out: Vec<char> = Vec::new();
    let mut i: usize = 0;
    while i < n
        invariant
            n == s@.len(),
            i <= n,
            out@ == spec_normalize(s@.take(i as int)),
        decreases n - i,
    {
        proof {
            assert(s@.take(i as int + 1).drop_last() =~= s@.take(i as int));
        }
        let c = s.get_char(i);
        if c == ' ' {
        } else if c == ',' {
            out.push('.');
        } else {
            out.push(c);
        }
        i = i + 1;
    }
    proof {
        assert(s@.take(n as int) =~= s@);
    }
    out
}

/// Parse a locale-formatted amount text into cents; `None` exactly when
/// the text does not match the amount shape.
#[verifier::rlimit(60)]
pub fn parse_amount(s: &str) -> (r: Option<i64>)
    ensures
        r is Some <==> spec_amount_parses(s@),
        r matches Some(cval) ==> cval == spec_amount_cents(s@) && -AMOUNT_LIMIT <= cval
            <= AMOUNT_LIMIT,
{
    let v = normalize(s);
    let ghost t = v@;
    let n = v.len();
    let mut p: usize = 0;
    let mut neg = false;
    if n > 0 && (v[0] == '-' || v[0] == '+') {
        neg = v[0] == '-';
        p = 1;
    }
    let ghost b = t.skip(p as int);
    let mut j: usize = p;
    let mut val: u64 = 0;
    while j < n && is_dig(v[j])
        invariant
            v@ == t,
            t == spec_normalize(s@),
            n == t.len(),
            p <= 1,
            p <= j <= n,
            b == t.skip(p as int),
            forall|q: int| p <= q < j ==> is_digit(#[trigger] t[q]),
            j - p <= 11 ==> val == digits_val(b.take(j - p)),
            val < 100000000000,
        decreases n - j,
    {
        proof {
            assert(b[j - p] == t[j as int]);
            assert(b.take(j - p + 1).drop_last() =~= b.take(j - p));
            if j - p < 11 {
                assert forall|q: int| 0 <= q < b.take(j - p).len() implies is_digit(
                    #[trigger] b.take(j - p)[q],
                ) by {
                    assert(b.take(j - p)[q] == t[p + q]);
                }
                lemma_digits_val_bound(b.take(j - p));
                lemma_pow10_mono((j - p) as nat, 10);
                assert(pow10(10) == 10000000000) by {
                    reveal_with_fuel(pow10, 11);
                }
            }
        }
        let d = dig(v[j]);
        if j - p < 11 {
            val = val * 10 + d as u64;
        }
        j = j + 1;
    }
    proof {
        assert forall|q: int| 0 <= q < j - p implies is_digit(#[trigger] b[q]) by {
            assert(b[q] == t[p + q]);
        }
        if j < n {
            assert(b[j - p] == t[j as int]);
        }
        lemma_digits_prefix_len_at(b, j - p);
    }
    let c = j - p;
    if c > 11 {
        return None;
    }
    proof {
        assert(b.take(c as int) =~= b.take(digits_prefix_len(b)));
        lemma_digits_val_bound(b.take(c as int));
        lemma_pow10_mono(c as nat, 11);
        assert(pow10(11) == 100000000000) by {
            reveal_with_fuel(pow10, 12);
        }
    }
    if j == n {
        if c == 0 {
            return None;
        }
        let cents = val * 100;
        let signed: i64 = if neg {
            -(cents as i64)
        } else {
            cents as i64
        };
        proof {
            assert(body_shape(b));
            assert(cents == body_cents(b));
            if neg {
                assert(-1 * body_cents(b) == -body_cents(b)) by (nonlinear_arith);
            } else {
                assert(1 * body_cents(b) == body_cents(b)) by (nonlinear_arith);
            }
            assert(signed == spec_amount_cents(s@));
        }
        return Some(signed);
    }
    if v[j] != '.' {
        proof {
            assert(b[c as int] == t[j as int]);
            assert(!body_shape(b));
        }
        return None;
    }
    proof {
        assert(b[c as int] == t[j as int]);
    }
    if c == 0 && j + 1 == n {
        proof {
            assert(!body_shape(b));
        }
        return None;
    }
    let mut q = j + 1;
    while q < n
        invariant
            v@ == t,
            t == spec_normalize(s@),
            n == t.len(),
            p <= 1,
            p <= j < n,
            c == j - p,
            digits_prefix_len(b) == c,
            (p == 1) == (t.len() > 0 && (t[0] == '-' || t[0] == '+')),
            j + 1 <= q <= n,
            b == t.skip(p as int),
            forall|w: int| j + 1 <= w < q ==> is_digit(#[trigger] t[w]),
        decreases n - q,
    {
        if !is_dig(v[q]) {
            proof {
                assert(b[q - p] == t[q as int]);
                assert(c as int + 1 <= q - p < b.len() && !is_digit(b[q - p]));
                assert(!all_digits_range(b, c as int + 1, b.len() as int));
                assert(!body_shape(b));
            }
            return None;
        }
        q = q + 1;
    }
    proof {
        assert forall|w: int| c + 1 <= w < b.len() implies is_digit(#[trigger] b[w]) by {
            assert(b[w] == t[p + w]);
        }
        assert(body_shape(b));
    }
    let mut f: u64 = 0;
    if j + 1 < n {
        f = dig(v[j + 1]) as u64 * 10;
        if j + 2 < n {
            f = f + dig(v[j + 2]) as u64;
        }
    }
    proof {
        if j + 1 < n {
            assert(b[c as int + 1] == t[j + 1]);
        }
        if j + 2 < n {
            assert(b[c as int + 2] == t[j + 2]);
        }
        assert(f == frac_cents(b, c as int + 1));
    }
    let cents = val * 100 + f;
    let signed: i64 = if neg {
        -(cents as i64)
    } else {
        cents as i64
    };
    proof {
        assert(cents == body_cents(b));
        if neg {
            assert(-1 * body_cents(b) == -body_cents(b)) by (nonlinear_arith);
        } else {
            assert(1 * body_cents(b) == body_cents(b)) by (nonlinear_arith);
        }
        assert(signed == spec_amount_cents(s@));
    }
    Some(signed)
}

/// Parse a locale-formatted amount text into cents; a malformed text
/// degrades to zero rather than failing.
pub fn parse_amount_cents(s: &str) -> (r: i64)
    ensures
        r == spec_amount_cents(s@),
        -AMOUNT_LIMIT <= r <= AMOUNT_LIMIT,
{
    match parse_amount(s) {
        Some(cval) => cval,
        None => 0,
    }
}

impl Operation {
    /// The payment this row stands for: label carried over, amount in
    /// cents (a malformed amount degrades to zero), the operation date as
    /// anchor, a single occurrence.  `None` exactly when the operation
    /// date parses in neither accepted format.
    pub fn to_payment(&self) -> (r: Option<Payment>)
        ensures
            r is Some <==> spec_parse(self.date_op@) is Some,
            r matches Some(p) ==> p == spec_row_payment(*self) && p.wf(),
    {
        match crate::date::Date::parse(self.date_op.as_str()) {
            Some(d) => Some(
                Payment {
                    label: self.label.clone(),
                    amount: parse_amount_cents(self.amount.as_str()),
                    date: d,
                    recurence: None,
                },
            ),
            None => None,
        }
    }
}

/// The payment a row stands for, assuming its operation date parses.
pub open spec fn spec_row_payment(row: Operation) -> Payment {
    Payment {
        label: row.label,
        amount: spec_amount_cents(row.amount@) as i64,
        date: spec_parse(row.date_op@).unwrap(),
        recurence: None,
    }
}

/// The payments of the rows whose operation date parses, in row order;
/// rows with an unparseable date are skipped.
pub open spec fn spec_row_payments(rows: Seq<Operation>) -> Seq<Payment>
    decreases rows.len(),
{
    if rows.len() == 0 {
        Seq::empty()
    } else {
        let rest = spec_row_payments(rows.drop_last());
        if spec_parse(rows.last().date_op@) is Some {
            rest.push(spec_row_payment(rows.last()))
        } else {
            rest
        }
    }
}

} // verus!
