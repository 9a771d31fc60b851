//! Payments, their recurrence policies, and groups of occurrences.
//!
//! Amounts are carried in cents (hundredths of the currency unit) as
//! signed integers; income is positive and expense negative by convention.

use vstd::prelude::*;
use crate::date::{Date, spec_add_months};
use crate::text::{contains_sub, is_substring, lower_of, lowercase};

verus! {

/// Largest magnitude, in cents, that a payment amount may carry.  The cap
/// keeps every bucket sum, and every running total over the supported
/// month range, inside `i128`.
pub const AMOUNT_LIMIT: i64 = 10_000_000_000_000;

/// How a payment recurs: every month across the requested horizon, or for
/// a fixed number of months regardless of horizon.
#[derive(Clone, Copy, Debug)]
pub enum Recurence {
    Monthly,
    NumberOfMonths(u32),
}

impl Recurence {
    /// Occurrence count for a requested horizon of `months` months.
    pub open spec fn spec_months(self, months: u32) -> u32 {
        match self {
            Recurence::Monthly => months,
            Recurence::NumberOfMonths(n) => n,
        }
    }

    /// `Monthly` occurs once per month of the horizon; `NumberOfMonths(n)`
    /// occurs exactly `n` times whatever the horizon.
    pub fn months(&self, months: u32) -> (r: u32)
        ensures
            r == self.spec_months(months),
    {
        match self {
            Recurence::Monthly => months,
            Recurence::NumberOfMonths(n) => *n,
        }
    }
}

/// A recurring financial obligation: label, amount in cents, anchor date,
/// and recurrence policy (`None` stands for a single occurrence).
#[derive(Clone, Debug)]
pub struct Payment {
    pub label: String,
    pub amount: i64,
    pub date: Date,
    pub recurence: Option<Recurence>,
}

impl Payment {
    /// A payment whose date is valid and whose amount is within bounds.
    pub open spec fn wf(self) -> bool {
        &&& self.date.wf()
        &&& -AMOUNT_LIMIT <= self.amount <= AMOUNT_LIMIT
    }

    /// The effective recurrence: a missing policy means a single
    /// occurrence.
    pub open spec fn spec_recurence(self) -> Recurence {
        match self.recurence {
            Some(r) => r,
            None => Recurence::NumberOfMonths(1),
        }
    }

    /// How many occurrences this payment expands to over a horizon.
    pub open spec fn spec_count(self, months: u32) -> u32 {
        self.spec_recurence().spec_months(months)
    }

    /// The `i`-th expanded occurrence: same label and amount, date moved
    /// forward by `i` months, recurrence resolved away.
    pub open spec fn spec_occurrence(self, i: int) -> Payment {
        Payment {
            label: self.label,
            amount: self.amount,
            date: spec_add_months(self.date, i),
            recurence: None,
        }
    }

    /// Build a payment from a parseable date text.
    pub fn new(label: &str, amount: i64, date: &str, recurence: Option<Recurence>) -> (r: Payment)
        requires
            crate::date::spec_parse(date@) is Some,
            -AMOUNT_LIMIT <= amount <= AMOUNT_LIMIT,
        ensures
            r.label@ == label@,
            r.amount == amount,
            Some(r.date) == crate::date::spec_parse(date@),
            r.recurence == recurence,
            r.wf(),
    {
        Payment { label: label.to_owned(), amount, date: Date::parse(date).unwrap(), recurence }
    }

    /// The anchor date.
    pub fn date(&self) -> (r: Date)
        ensures
            r == self.date,
    {
        self.date
    }

    /// The amount in cents.
    pub fn amount(&self) -> (r: i64)
        ensures
            r == self.amount,
    {
        self.amount
    }

    /// The label text.
    pub fn label(&self) -> (r: &String)
        ensures
            r@ == self.label@,
    {
        &self.label
    }

    /// Case-insensitive substring match of `label` against this payment's
    /// label.
    pub fn label_match(&self, label: &str) -> (r: bool)
        ensures
            r == is_substring(lower_of(label@), lower_of(self.label@)),
    {
        let own = lowercase(self.label.as_str());
        let pat = lowercase(label);
        contains_sub(own.as_str(), pat.as_str())
    }

    /// The effective recurrence policy.
    pub fn recurence(&self) -> (r: Recurence)
        ensures
            r == self.spec_recurence(),
    {
        match &self.recurence {
            Some(r) => *r,
            None => Recurence::NumberOfMonths(1),
        }
    }

    /// Expand into one occurrence per month, starting at the anchor date,
    /// for as many months as the recurrence resolves to.
    pub fn repeat(&self, months: u32) -> (r: Vec<Payment>)
        requires
            self.wf(),
            self.date.month_index() + self.spec_count(months) <= 120000,
        ensures
            r@.len() == self.spec_count(months),
            forall|i: int| 0 <= i < r@.len() ==> r@[i] == self.spec_occurrence(i),
            forall|i: int| 0 <= i < r@.len() ==> (#[trigger] r@[i]).wf(),
    {
        let count = self.recurence().months(months);
        let mut out: Vec<Payment> = Vec::new();
        let mut i: u32 = 0;
        while i < count
            invariant
                self.wf(),
                count == self.spec_count(months),
                self.date.month_index() + count <= 120000,
                i <= count,
                out@.len() == i,
                forall|j: int| 0 <= j < i ==> out@[j] == self.spec_occurrence(j),
                forall|j: int| 0 <= j < i ==> (#[trigger] out@[j]).wf(),
            decreases count - i,
        {
            out.push(
                Payment {
                    label: self.label.clone(),
                    amount: self.amount,
                    date: self.date.add_months(i),
                    recurence: None,
                },
            );
            i = i + 1;
        }
        out
    }
}

/// Mathematical sum, in cents, of a sequence of payments.
pub open spec fn sum_cents(s: Seq<Payment>) -> int
    decreases s.len(),
{
    if s.len() == 0 {
        0
    } else {
        sum_cents(s.drop_last()) + s.last().amount
    }
}

/// Summing distributes over concatenation.
pub proof fn lemma_sum_distributes(a: Seq<Payment>, b: Seq<Payment>)
    ensures
        sum_cents(a + b) == sum_cents(a) + sum_cents(b),
    decreases b.len(),
{
    if b.len() == 0 {
        assert(a + b =~= a);
    } else {
        assert((a + b).drop_last() =~= a + b.drop_last());
        lemma_sum_distributes(a, b.drop_last());
        assert((a + b).last() == b.last());
    }
}

/// The occurrences of one month bucket, in expansion order.
#[derive(Clone, Debug)]
pub struct PaymentGroup(pub Vec<Payment>);

impl PaymentGroup {
    /// Every payment in the group is well-formed.
    pub open spec fn wf(self) -> bool {
        forall|i: int| 0 <= i < self.0@.len() ==> (#[trigger] self.0@[i]).wf()
    }

    /// Sum of the group's amounts, in cents.
    pub fn sum(&self) -> (r: i128)
        requires
            self.wf(),
        ensures
            r == sum_cents(self.0@),
    {
        let n = self.0.len();
        let mut acc: i128 = 0;
        let mut i: usize = 0;
        while i < n
            invariant
                self.wf(),
                n == self.0@.len(),
                i <= n,
                acc == sum_cents(self.0@.take(i as int)),
                -(i as int) * (AMOUNT_LIMIT as int) <= acc <= (i as int) * (AMOUNT_LIMIT as int),
            decreases n - i,
        {
            let a = self.0[i].amount;
            proof {
                let l = AMOUNT_LIMIT as int;
                assert(self.0@[i as int].wf());
                assert(self.0@.take(i as int + 1).drop_last() =~= self.0@.take(i as int));
                assert((i as int + 1) * l <= 18446744073709551616 * l) by (nonlinear_arith)
                    requires
                        0 <= i as int + 1 <= 18446744073709551616,
                        l >= 0,
                ;
                assert(-(18446744073709551616 * l) <= -((i as int + 1) * l)) by (nonlinear_arith)
                    requires
                        0 <= i as int + 1 <= 18446744073709551616,
                        l >= 0,
                ;
                assert(-((i as int) * l) - l == -((i as int + 1) * l)) by (nonlinear_arith);
                assert((i as int) * l + l == (i as int + 1) * l) by (nonlinear_arith);
            }
            acc = acc + a as i128;
            i = i + 1;
        }
        proof {
            assert(self.0@.take(n as int) =~= self.0@);
        }
        acc
    }

    /// The payments of the group, in order.
    pub fn iter(&self) -> (r: &Vec<Payment>)
        ensures
            r@ == self.0@,
    {
        &self.0
    }
}

} // verus!
