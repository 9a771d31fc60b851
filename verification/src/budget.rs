//! The budget: all payments plus one calendar, with expansion into dated
//! occurrences, monthly bucketing, label filtering, and multi-source
//! merge.

use vstd::prelude::*;
use crate::calendar::Calendar;
use crate::config::{Config, Subscription};
use crate::date::{
    lemma_month_interval_membership, spec_add_months, spec_le, spec_parse, same_month, today, Date,
};
use crate::export::{spec_row_payments, Export};
use crate::payment::{sum_cents, Payment, PaymentGroup, Recurence, AMOUNT_LIMIT};
use crate::text::{is_substring, lower_of};

verus! {

broadcast use vstd::seq_lib::group_to_multiset_ensures, vstd::multiset::group_multiset_axioms;

/// Errors of budget construction.  Date texts that parse in neither
/// accepted format are fatal; so are an empty source list, a merge of
/// sources that yield no payment at all, and a configured amount beyond
/// the supported range (see [`AMOUNT_LIMIT`]).
#[derive(Clone, Copy, Debug, PartialEq, Eq, Structural)]
pub enum BudgetError {
    NoSourceProvided,
    EmptySource,
    FormatError,
    AmountOutOfRange,
}

/// All payments of the loaded sources, plus the calendar anchoring the
/// month buckets.
#[derive(Debug)]
pub struct Budget {
    pub payments: Vec<Payment>,
    pub calendar: Calendar,
}

/// The views of a list of filter strings.
pub open spec fn filter_views(f: Seq<String>) -> Seq<Seq<char>> {
    f.map_values(|s: String| s@)
}

/// An empty filter keeps everything; a non-empty filter keeps a payment
/// whose label contains at least one filter string, case-insensitively.
pub open spec fn label_passes(q: Payment, filter: Seq<Seq<char>>) -> bool {
    filter.len() == 0 || exists|k: int|
        0 <= k < filter.len() && is_substring(lower_of(filter[k]), lower_of(q.label@))
}

/// An occurrence is kept for a bucket when its date falls in the anchor's
/// calendar month and its label passes the filter.
pub open spec fn keeps(q: Payment, anchor: Date, filter: Seq<Seq<char>>) -> bool {
    same_month(q.date, anchor) && label_passes(q, filter)
}

/// The expanded occurrences of one payment over a horizon.
pub open spec fn occurrences_of(p: Payment, months: u32) -> Seq<Payment> {
    Seq::new(p.spec_count(months) as nat, |i: int| p.spec_occurrence(i))
}

/// The occurrences of a payment list over a horizon, in payment order.
pub open spec fn all_occurrences(ps: Seq<Payment>, months: u32) -> Seq<Payment>
    decreases ps.len(),
{
    if ps.len() == 0 {
        Seq::empty()
    } else {
        all_occurrences(ps.drop_last(), months) + occurrences_of(ps.last(), months)
    }
}

/// The subsequence of occurrences kept for the bucket at `anchor`.
pub open spec fn kept_occurrences(s: Seq<Payment>, anchor: Date, filter: Seq<Seq<char>>) -> Seq<
    Payment,
>
    decreases s.len(),
{
    if s.len() == 0 {
        Seq::empty()
    } else {
        let rest = kept_occurrences(s.drop_last(), anchor, filter);
        if keeps(s.last(), anchor, filter) {
            rest.push(s.last())
        } else {
            rest
        }
    }
}

/// The contents of the month bucket at `anchor`: every kept occurrence of
/// every payment, in expansion order.
pub open spec fn month_occurrences(
    ps: Seq<Payment>,
    months: u32,
    anchor: Date,
    filter: Seq<Seq<char>>,
) -> Seq<Payment> {
    kept_occurrences(all_occurrences(ps, months), anchor, filter)
}

/// The sum, in cents, of the month bucket at `anchor`.
pub open spec fn month_sum(
    ps: Seq<Payment>,
    months: u32,
    anchor: Date,
    filter: Seq<Seq<char>>,
) -> int {
    sum_cents(month_occurrences(ps, months, anchor, filter))
}

/// The payment a configured subscription stands for, assuming its date
/// parses: label, amount and date carried verbatim, a missing recurrence
/// meaning monthly.
pub open spec fn spec_config_payment(sub: Subscription) -> Payment {
    Payment {
        label: sub.label,
        amount: sub.amount,
        date: spec_parse(sub.date@).unwrap(),
        recurence: Some(
            match sub.recurence {
                Some(r) => r,
                None => Recurence::Monthly,
            },
        ),
    }
}

/// Every date text of a configuration parses.
pub open spec fn spec_config_dates_ok(config: Config) -> bool {
    &&& forall|i: int|
        0 <= i < config.subscriptions@.len() ==> spec_parse(
            (#[trigger] config.subscriptions@[i]).date@,
        ) is Some
    &&& (config.start_at matches Some(s) ==> spec_parse(s@) is Some)
}

/// Every configured amount lies within the supported range.
pub open spec fn spec_config_amounts_ok(config: Config) -> bool {
    forall|i: int|
        0 <= i < config.subscriptions@.len() ==> -AMOUNT_LIMIT <= (
        #[trigger] config.subscriptions@[i]).amount <= AMOUNT_LIMIT
}

/// A configuration the budget accepts whole: dates parse and amounts are
/// within range.
pub open spec fn spec_config_ok(config: Config) -> bool {
    spec_config_dates_ok(config) && spec_config_amounts_ok(config)
}

/// The payments of several budgets, in order.
pub open spec fn all_source_payments(ss: Seq<Budget>) -> Seq<Payment>
    decreases ss.len(),
{
    if ss.len() == 0 {
        Seq::empty()
    } else {
        all_source_payments(ss.drop_last()) + ss.last().payments@
    }
}

/// Running total of the month sums of the buckets before bucket `i`.
pub open spec fn spec_running_total(
    ps: Seq<Payment>,
    months: u32,
    start: Date,
    filter: Seq<Seq<char>>,
    i: int,
) -> int
    decreases i,
{
    if i <= 0 {
        0
    } else {
        spec_running_total(ps, months, start, filter, i - 1) + month_sum(
            ps,
            months,
            spec_add_months(start, i - 1),
            filter,
        )
    }
}

/// Payments in ascending date order.
pub open spec fn sorted_by_date(s: Seq<Payment>) -> bool {
    forall|i: int, j: int| 0 <= i < j < s.len() ==> spec_le(s[i].date, s[j].date)
}

/// The payments of `s` dated exactly `d`, in their order in `s`.  A sort
/// is stable when it preserves this subsequence for every date.
pub open spec fn with_date(s: Seq<Payment>, d: Date) -> Seq<Payment>
    decreases s.len(),
{
    if s.len() == 0 {
        Seq::empty()
    } else {
        let rest = with_date(s.drop_last(), d);
        if s.last().date == d {
            rest.push(s.last())
        } else {
            rest
        }
    }
}

/// Selecting one date's payments distributes over concatenation.
pub proof fn lemma_with_date_distributes(a: Seq<Payment>, b: Seq<Payment>, d: Date)
    ensures
        with_date(a + b, d) == with_date(a, d) + with_date(b, d),
    decreases b.len(),
{
    if b.len() == 0 {
        assert(a + b =~= a);
        assert(with_date(a, d) + with_date(b, d) =~= with_date(a, d));
    } else {
        assert((a + b).drop_last() =~= a + b.drop_last());
        lemma_with_date_distributes(a, b.drop_last(), d);
        assert((a + b).last() == b.last());
    }
}

proof fn lemma_with_date_empty(s: Seq<Payment>, d: Date)
    requires
        forall|i: int| 0 <= i < s.len() ==> (#[trigger] s[i]).date != d,
    ensures
        with_date(s, d) == Seq::<Payment>::empty(),
    decreases s.len(),
{
    if s.len() > 0 {
        lemma_with_date_empty(s.drop_last(), d);
    }
}

/// Keeping occurrences distributes over concatenation of occurrence
/// lists.
pub proof fn lemma_kept_distributes(
    a: Seq<Payment>,
    b: Seq<Payment>,
    anchor: Date,
    filter: Seq<Seq<char>>,
)
    ensures
        kept_occurrences(a + b, anchor, filter) == kept_occurrences(a, anchor, filter)
            + kept_occurrences(b, anchor, filter),
    decreases b.len(),
{
    if b.len() == 0 {
        assert(a + b =~= a);
        assert(kept_occurrences(a, anchor, filter) + kept_occurrences(b, anchor, filter)
            =~= kept_occurrences(a, anchor, filter));
    } else {
        assert((a + b).drop_last() =~= a + b.drop_last());
        lemma_kept_distributes(a, b.drop_last(), anchor, filter);
        assert((a + b).last() == b.last());
    }
}

/// What one payment contributes, in cents, to the bucket at `anchor`.
pub open spec fn contribution(p: Payment, months: u32, anchor: Date, filter: Seq<Seq<char>>) -> int {
    sum_cents(kept_occurrences(occurrences_of(p, months), anchor, filter))
}

/// The contributions of a payment list, payment by payment.
pub open spec fn contributions(
    ps: Seq<Payment>,
    months: u32,
    anchor: Date,
    filter: Seq<Seq<char>>,
) -> int
    decreases ps.len(),
{
    if ps.len() == 0 {
        0
    } else {
        contributions(ps.drop_last(), months, anchor, filter) + contribution(
            ps.last(),
            months,
            anchor,
            filter,
        )
    }
}

/// A bucket's sum is the sum of the per-payment contributions.
pub proof fn lemma_month_sum_as_contributions(
    ps: Seq<Payment>,
    months: u32,
    anchor: Date,
    filter: Seq<Seq<char>>,
)
    ensures
        month_sum(ps, months, anchor, filter) == contributions(ps, months, anchor, filter),
    decreases ps.len(),
{
    if ps.len() == 0 {
    } else {
        lemma_month_sum_as_contributions(ps.drop_last(), months, anchor, filter);
        lemma_kept_distributes(
            all_occurrences(ps.drop_last(), months),
            occurrences_of(ps.last(), months),
            anchor,
            filter,
        );
        crate::payment::lemma_sum_distributes(
            kept_occurrences(all_occurrences(ps.drop_last(), months), anchor, filter),
            kept_occurrences(occurrences_of(ps.last(), months), anchor, filter),
        );
    }
}

proof fn lemma_contributions_remove(
    ps: Seq<Payment>,
    i: int,
    months: u32,
    anchor: Date,
    filter: Seq<Seq<char>>,
)
    requires
        0 <= i < ps.len(),
    ensures
        contributions(ps.remove(i), months, anchor, filter) == contributions(
            ps,
            months,
            anchor,
            filter,
        ) - contribution(ps[i], months, anchor, filter),
    decreases ps.len(),
{
    if i == ps.len() - 1 {
        assert(ps.remove(i) =~= ps.drop_last());
    } else {
        assert(ps.remove(i).drop_last() =~= ps.drop_last().remove(i));
        assert(ps.remove(i).last() == ps.last());
        lemma_contributions_remove(ps.drop_last(), i, months, anchor, filter);
        assert(ps.drop_last()[i] == ps[i]);
    }
}

proof fn lemma_contributions_permutation(
    ps1: Seq<Payment>,
    ps2: Seq<Payment>,
    months: u32,
    anchor: Date,
    filter: Seq<Seq<char>>,
)
    requires
        ps1.to_multiset() == ps2.to_multiset(),
    ensures
        contributions(ps1, months, anchor, filter) == contributions(ps2, months, anchor, filter),
    decreases ps2.len(),
{
    if ps2.len() == 0 {
        assert(ps1.len() == ps1.to_multiset().len());
    } else {
        let x = ps2.last();
        assert(ps2.to_multiset().count(x) > 0) by {
            assert(ps2.contains(x));
        }
        assert(ps1.contains(x));
        let i = ps1.lemma_contains_to_index(x);
        assert(ps2.drop_last() =~= ps2.remove(ps2.len() - 1));
        assert(ps1.remove(i).to_multiset() =~= ps2.drop_last().to_multiset());
        lemma_contributions_permutation(ps1.remove(i), ps2.drop_last(), months, anchor, filter);
        lemma_contributions_remove(ps1, i, months, anchor, filter);
    }
}

/// Budgets holding the same payments, in whatever order, have the same
/// sum in every month bucket.
pub proof fn lemma_month_sum_permutation(
    ps1: Seq<Payment>,
    ps2: Seq<Payment>,
    months: u32,
    anchor: Date,
    filter: Seq<Seq<char>>,
)
    requires
        ps1.to_multiset() == ps2.to_multiset(),
    ensures
        month_sum(ps1, months, anchor, filter) == month_sum(ps2, months, anchor, filter),
{
    lemma_month_sum_as_contributions(ps1, months, anchor, filter);
    lemma_month_sum_as_contributions(ps2, months, anchor, filter);
    lemma_contributions_permutation(ps1, ps2, months, anchor, filter);
}

/// Merging two payment pools in either order yields the same sum in
/// every month bucket.
pub proof fn lemma_merge_commutative(
    a: Seq<Payment>,
    b: Seq<Payment>,
    months: u32,
    anchor: Date,
    filter: Seq<Seq<char>>,
)
    ensures
        month_sum(a + b, months, anchor, filter) == month_sum(b + a, months, anchor, filter),
{
    vstd::seq_lib::lemma_seq_union_to_multiset_commutative(a, b);
    lemma_month_sum_permutation(a + b, b + a, months, anchor, filter);
}

/// After pooling the same two payment lists in either order — as
/// [`Budget::merge`] ensures of its result — the merged budgets agree
/// pointwise: equal length, the same earliest payment date (hence the
/// same re-anchored calendar), and the same sum in every month bucket.
pub proof fn lemma_merged_reports_agree(
    ma: Seq<Payment>,
    mb: Seq<Payment>,
    pa: Seq<Payment>,
    pb: Seq<Payment>,
    months: u32,
    anchor: Date,
    filter: Seq<Seq<char>>,
)
    requires
        ma.to_multiset() == pa.to_multiset().add(pb.to_multiset()),
        mb.to_multiset() == pb.to_multiset().add(pa.to_multiset()),
        sorted_by_date(ma),
        sorted_by_date(mb),
        ma.len() > 0,
        forall|i: int| 0 <= i < ma.len() ==> (#[trigger] ma[i]).wf(),
        forall|i: int| 0 <= i < mb.len() ==> (#[trigger] mb[i]).wf(),
    ensures
        month_sum(ma, months, anchor, filter) == month_sum(mb, months, anchor, filter),
        mb.len() == ma.len(),
        ma[0].date == mb[0].date,
{
    assert(ma.to_multiset() =~= mb.to_multiset());
    lemma_month_sum_permutation(ma, mb, months, anchor, filter);
    assert(ma.len() == ma.to_multiset().len());
    assert(mb.len() == mb.to_multiset().len());
    assert(ma.contains(ma[0]));
    assert(mb.to_multiset().count(ma[0]) > 0);
    assert(mb.contains(ma[0]));
    let i = mb.lemma_contains_to_index(ma[0]);
    assert(spec_le(mb[0].date, ma[0].date));
    assert(ma.contains(mb[0])) by {
        assert(mb.contains(mb[0]));
        assert(ma.to_multiset().count(mb[0]) > 0);
    }
    let j = ma.lemma_contains_to_index(mb[0]);
    assert(spec_le(ma[0].date, mb[0].date));
    crate::date::lemma_same_month_iff_month_index(ma[0].date, mb[0].date);
}

proof fn lemma_payment_bucket_prefix(
    p: Payment,
    months: u32,
    anchor: Date,
    filter: Seq<Seq<char>>,
    k: int,
)
    requires
        p.wf(),
        anchor.wf(),
        0 <= k <= p.spec_count(months),
        p.date.month_index() + p.spec_count(months) <= 120000,
    ensures
        sum_cents(kept_occurrences(occurrences_of(p, months).take(k), anchor, filter)) == if p.date.month_index()
            <= anchor.month_index() < p.date.month_index() + k && label_passes(p, filter) {
            p.amount as int
        } else {
            0
        },
    decreases k,
{
    let occ = occurrences_of(p, months);
    if k == 0 {
    } else {
        lemma_payment_bucket_prefix(p, months, anchor, filter, k - 1);
        assert(occ.take(k).drop_last() =~= occ.take(k - 1));
        assert(occ.take(k).last() == p.spec_occurrence(k - 1));
        crate::date::lemma_add_months_index(p.date, k - 1);
        crate::date::lemma_same_month_iff_month_index(spec_add_months(p.date, k - 1), anchor);
        let kept = kept_occurrences(occ.take(k), anchor, filter);
        let prev = kept_occurrences(occ.take(k - 1), anchor, filter);
        if keeps(p.spec_occurrence(k - 1), anchor, filter) {
            assert(kept == prev.push(p.spec_occurrence(k - 1)));
            assert(kept.drop_last() =~= prev);
        }
    }
}

/// A payment with `n` resolved occurrences contributes its amount to the
/// bucket of each of the `n` months from its anchor month on, and nothing
/// to any other bucket; a non-empty label filter that its label fails
/// silences it everywhere.
pub proof fn lemma_payment_bucket_contribution(
    p: Payment,
    months: u32,
    anchor: Date,
    filter: Seq<Seq<char>>,
)
    requires
        p.wf(),
        anchor.wf(),
        p.date.month_index() + p.spec_count(months) <= 120000,
    ensures
        contribution(p, months, anchor, filter) == if p.date.month_index() <= anchor.month_index()
            < p.date.month_index() + p.spec_count(months) && label_passes(p, filter) {
            p.amount as int
        } else {
            0
        },
{
    let occ = occurrences_of(p, months);
    lemma_payment_bucket_prefix(p, months, anchor, filter, p.spec_count(months) as int);
    assert(occ.take(p.spec_count(months) as int) =~= occ);
}

/// A monthly payment contributes exactly its amount to the bucket of its
/// anchor month, and nothing to any earlier bucket.
pub proof fn lemma_monthly_payment_bucket(p: Payment, months: u32, anchor: Date)
    requires
        p.wf(),
        anchor.wf(),
        p.spec_recurence() == Recurence::Monthly,
        p.date.month_index() + months <= 120000,
    ensures
        months > 0 && same_month(anchor, p.date) ==> contribution(p, months, anchor, Seq::empty())
            == p.amount,
        anchor.month_index() < p.date.month_index() || anchor.month_index() >= p.date.month_index()
            + months ==> contribution(p, months, anchor, Seq::empty()) == 0,
{
    lemma_payment_bucket_contribution(p, months, anchor, Seq::empty());
    crate::date::lemma_same_month_iff_month_index(anchor, p.date);
}

/// A payment recurring for a fixed count of `n` months contributes its
/// amount to exactly the `n` consecutive buckets starting at its anchor
/// month, and nothing elsewhere, however long the horizon.
pub proof fn lemma_fixed_count_payment_bucket(p: Payment, n: u32, months: u32, anchor: Date)
    requires
        p.wf(),
        anchor.wf(),
        p.spec_recurence() == Recurence::NumberOfMonths(n),
        p.date.month_index() + n <= 120000,
    ensures
        contribution(p, months, anchor, Seq::empty()) == if p.date.month_index()
            <= anchor.month_index() < p.date.month_index() + n {
            p.amount as int
        } else {
            0
        },
{
    lemma_payment_bucket_contribution(p, months, anchor, Seq::empty());
}

proof fn lemma_contributions_bound(
    ps: Seq<Payment>,
    months: u32,
    anchor: Date,
    filter: Seq<Seq<char>>,
)
    requires
        anchor.wf(),
        forall|i: int| 0 <= i < ps.len() ==> (#[trigger] ps[i]).wf(),
        forall|i: int|
            0 <= i < ps.len() ==> (#[trigger] ps[i]).date.month_index() + ps[i].spec_count(months)
                <= 120000,
    ensures
        -(ps.len() * (AMOUNT_LIMIT as int)) <= contributions(ps, months, anchor, filter) <= ps.len()
            * (AMOUNT_LIMIT as int),
    decreases ps.len(),
{
    let l = AMOUNT_LIMIT as int;
    if ps.len() == 0 {
        assert(0 * l == 0) by (nonlinear_arith);
    } else {
        lemma_contributions_bound(ps.drop_last(), months, anchor, filter);
        lemma_payment_bucket_contribution(ps.last(), months, anchor, filter);
        assert((ps.len() - 1) * l + l == ps.len() * l) by (nonlinear_arith);
    }
}

/// A bucket's sum never exceeds the number of payments times the amount
/// cap.
pub proof fn lemma_month_sum_bound(
    ps: Seq<Payment>,
    months: u32,
    anchor: Date,
    filter: Seq<Seq<char>>,
)
    requires
        anchor.wf(),
        forall|i: int| 0 <= i < ps.len() ==> (#[trigger] ps[i]).wf(),
        forall|i: int|
            0 <= i < ps.len() ==> (#[trigger] ps[i]).date.month_index() + ps[i].spec_count(months)
                <= 120000,
    ensures
        -(ps.len() * (AMOUNT_LIMIT as int)) <= month_sum(ps, months, anchor, filter) <= ps.len() * (
        AMOUNT_LIMIT as int),
{
    lemma_month_sum_as_contributions(ps, months, anchor, filter);
    lemma_contributions_bound(ps, months, anchor, filter);
}

fn clone_payment(p: &Payment) -> (r: Payment)
    ensures
        r == *p,
{
    Payment { label: p.label.clone(), amount: p.amount, date: p.date, recurence: p.recurence }
}

fn passes_filter(q: &Payment, filter: &Vec<String>) -> (r: bool)
    ensures
        r == label_passes(*q, filter_views(filter@)),
{
    if filter.len() == 0 {
        return true;
    }
    let n = filter.len();
    let mut k: usize = 0;
    while k < n
        invariant
            n == filter@.len(),
            k <= n,
            forall|t: int|
                0 <= t < k ==> !is_substring(lower_of(filter_views(filter@)[t]), lower_of(
                    q.label@,
                )),
        decreases n - k,
    {
        if q.label_match(filter[k].as_str()) {
            proof {
                assert(filter_views(filter@)[k as int] == filter@[k as int]@);
                assert(is_substring(lower_of(filter_views(filter@)[k as int]), lower_of(q.label@)));
            }
            return true;
        }
        k = k + 1;
    }
    false
}

/// Stable selection sort by ascending date: among equal dates the
/// earliest-listed payment is placed first.
fn sort_by_date(v: Vec<Payment>) -> (r: Vec<Payment>)
    requires
        forall|i: int| 0 <= i < v@.len() ==> (#[trigger] v@[i]).wf(),
    ensures
        r@.len() == v@.len(),
        r@.to_multiset() == v@.to_multiset(),
        sorted_by_date(r@),
        forall|d: Date| #[trigger] with_date(r@, d) == with_date(v@, d),
        forall|i: int| 0 <= i < r@.len() ==> (#[trigger] r@[i]).wf(),
{
    let mut src = v;
    let mut out: Vec<Payment> = Vec::new();
    while src.len() > 0
        invariant
            out@.to_multiset().add(src@.to_multiset()) == v@.to_multiset(),
            out@.len() + src@.len() == v@.len(),
            sorted_by_date(out@),
            forall|d: Date| #[trigger] with_date(out@, d) + with_date(src@, d) == with_date(v@, d),
            forall|i: int| 0 <= i < out@.len() ==> (#[trigger] out@[i]).wf(),
            forall|i: int| 0 <= i < src@.len() ==> (#[trigger] src@[i]).wf(),
            forall|i: int, k: int|
                0 <= i < out@.len() && 0 <= k < src@.len() ==> spec_le(
                    (#[trigger] out@[i]).date,
                    (#[trigger] src@[k]).date,
                ),
        decreases src@.len(),
    {
        let mut m: usize = 0;
        let mut k: usize = 1;
        while k < src.len()
            invariant
                0 < src@.len(),
                m < k,
                k <= src@.len(),
                forall|i: int| 0 <= i < src@.len() ==> (#[trigger] src@[i]).wf(),
                forall|t: int| 0 <= t < k ==> spec_le(src@[m as int].date, (#[trigger] src@[t]).date),
                forall|t: int| 0 <= t < m ==> !spec_le((#[trigger] src@[t]).date, src@[m as int].date),
            decreases src@.len() - k,
        {
            if !src[m].date.le(&src[k].date) {
                m = k;
            }
            k = k + 1;
        }
        let ghost pre = src@;
        let ghost preout = out@;
        let x = src.remove(m);
        proof {
            assert(pre.remove(m as int).to_multiset() =~= pre.to_multiset().remove(x));
            pre.remove_ensures(m as int);
            assert(out@.push(x).to_multiset().add(src@.to_multiset()) =~= v@.to_multiset());
            assert(pre =~= pre.take(m as int) + seq![x] + pre.skip(m as int + 1));
            assert(src@ =~= pre.take(m as int) + pre.skip(m as int + 1));
            assert(seq![x].drop_last() =~= Seq::<Payment>::empty());
            assert forall|d: Date| #[trigger] with_date(preout.push(x), d) + with_date(src@, d)
                == with_date(v@, d) by {
                lemma_with_date_distributes(pre.take(m as int) + seq![x], pre.skip(m as int + 1), d);
                lemma_with_date_distributes(pre.take(m as int), seq![x], d);
                lemma_with_date_distributes(pre.take(m as int), pre.skip(m as int + 1), d);
                assert(preout.push(x).drop_last() =~= preout);
                assert(seq![x].len() == 1 && seq![x].last() == x);
                assert(with_date(Seq::<Payment>::empty(), d) =~= Seq::<Payment>::empty());
                assert(seq![x].drop_last() == Seq::<Payment>::empty());
                if x.date == d {
                    // the entries before the chosen minimum carry strictly
                    // later dates, so none of them is dated `d`
                    assert forall|i: int| 0 <= i < pre.take(m as int).len() implies (
                    #[trigger] pre.take(m as int)[i]).date != d by {
                        assert(pre.take(m as int)[i] == pre[i]);
                        assert(!spec_le(pre[i].date, x.date));
                    }
                    lemma_with_date_empty(pre.take(m as int), d);
                    assert(with_date(seq![x], d) =~= seq![x]);
                    assert(with_date(preout.push(x), d) =~= with_date(preout, d) + seq![x]);
                    assert(with_date(preout, d) + seq![x] + with_date(src@, d) =~= with_date(
                        preout,
                        d,
                    ) + with_date(pre, d));
                } else {
                    assert(with_date(seq![x], d) =~= Seq::<Payment>::empty());
                    assert(with_date(pre, d) =~= with_date(src@, d));
                    assert(with_date(preout.push(x), d) == with_date(preout, d));
                }
            }
        }
        out.push(x);
    }
    proof {
        assert(out@.to_multiset() =~= v@.to_multiset());
        assert forall|d: Date| #[trigger] with_date(out@, d) == with_date(v@, d) by {
            assert(with_date(out@, d) + with_date(src@, d) =~= with_date(out@, d));
        }
    }
    out
}

impl Budget {
    /// Every payment is well-formed and the calendar anchor is a valid
    /// date.
    pub open spec fn wf(self) -> bool {
        &&& forall|i: int| 0 <= i < self.payments@.len() ==> (#[trigger] self.payments@[i]).wf()
        &&& self.calendar.wf()
    }

    /// Every payment's expansion over `months` stays within the supported
    /// month range.
    pub open spec fn spec_expand_ok(self, months: u32) -> bool {
        forall|i: int|
            0 <= i < self.payments@.len() ==> (#[trigger] self.payments@[i]).date.month_index()
                + self.payments@[i].spec_count(months) <= 120000
    }

    /// The calendar's month sequence over `months` stays within the
    /// supported month range.
    pub open spec fn spec_horizon_ok(self, months: u32) -> bool {
        self.calendar.start_at.month_index() + months <= 120000
    }

    /// Build a budget from one structured source.  Every subscription
    /// becomes a payment, its label, amount and date carried verbatim.  A
    /// date text that parses in neither format is fatal; so is an amount
    /// beyond the supported range.  The calendar anchors at the declared
    /// start date, or at today's date when none is declared.
    pub fn from_config(config: Config) -> (r: Result<Budget, BudgetError>)
        ensures
            r is Ok <==> spec_config_ok(config),
            !spec_config_dates_ok(config) ==> r == Err::<Budget, BudgetError>(
                BudgetError::FormatError,
            ),
            spec_config_dates_ok(config) && !spec_config_amounts_ok(config) ==> r == Err::<
                Budget,
                BudgetError,
            >(BudgetError::AmountOutOfRange),
            r matches Ok(b) ==> {
                &&& b.wf()
                &&& b.payments@.len() == config.subscriptions@.len()
                &&& forall|i: int|
                    0 <= i < config.subscriptions@.len() ==> (#[trigger] b.payments@[i])
                        == spec_config_payment(config.subscriptions@[i])
                &&& (config.start_at matches Some(s) ==> Some(b.calendar.start_at) == spec_parse(
                    s@,
                ))
            },
    {
        let n = config.subscriptions.len();
        let mut i: usize = 0;
        while i < n
            invariant
                n == config.subscriptions@.len(),
                i <= n,
                forall|j: int|
                    0 <= j < i ==> spec_parse(
                        (#[trigger] config.subscriptions@[j]).date@,
                    ) is Some,
            decreases n - i,
        {
            if Date::parse(config.subscriptions[i].date.as_str()).is_none() {
                return Err(BudgetError::FormatError);
            }
            i = i + 1;
        }
        let calendar = match &config.start_at {
            Some(s) => {
                match Date::parse(s.as_str()) {
                    Some(d) => Calendar { start_at: d },
                    None => {
                        return Err(BudgetError::FormatError);
                    },
                }
            },
            None => Calendar { start_at: today() },
        };
        let mut i: usize = 0;
        while i < n
            invariant
                n == config.subscriptions@.len(),
                spec_config_dates_ok(config),
                i <= n,
                forall|j: int|
                    0 <= j < i ==> -AMOUNT_LIMIT <= (
                    #[trigger] config.subscriptions@[j]).amount <= AMOUNT_LIMIT,
            decreases n - i,
        {
            let a = config.subscriptions[i].amount;
            if a > AMOUNT_LIMIT || a < -AMOUNT_LIMIT {
                return Err(BudgetError::AmountOutOfRange);
            }
            i = i + 1;
        }
        let mut pays: Vec<Payment> = Vec::new();
        let mut i: usize = 0;
        while i < n
            invariant
                n == config.subscriptions@.len(),
                spec_config_dates_ok(config),
                spec_config_amounts_ok(config),
                i <= n,
                pays@.len() == i,
                forall|j: int|
                    0 <= j < i ==> (#[trigger] pays@[j]) == spec_config_payment(
                        config.subscriptions@[j],
                    ),
                forall|j: int| 0 <= j < i ==> (#[trigger] pays@[j]).wf(),
            decreases n - i,
        {
            let sub = &config.subscriptions[i];
            let d = Date::parse(sub.date.as_str()).unwrap();
            let rec = match &sub.recurence {
                Some(r) => *r,
                None => Recurence::Monthly,
            };
            pays.push(
                Payment {
                    label: sub.label.clone(),
                    amount: sub.amount,
                    date: d,
                    recurence: Some(rec),
                },
            );
            i = i + 1;
        }
        Ok(Budget { payments: pays, calendar })
    }

    /// Build a budget from one bank export.  Rows whose operation date
    /// does not parse are skipped; the rest become single-occurrence
    /// payments, stably sorted by date (rows of equal date keep their row
    /// order), with the calendar anchored at the earliest operation date.
    /// An export yielding no payment at all is fatal.
    pub fn from_export(export: Export) -> (r: Result<Budget, BudgetError>)
        ensures
            r is Ok <==> spec_row_payments(export.0@).len() > 0,
            r is Err ==> r == Err::<Budget, BudgetError>(BudgetError::EmptySource),
            r matches Ok(b) ==> {
                &&& b.wf()
                &&& sorted_by_date(b.payments@)
                &&& b.payments@.to_multiset() == spec_row_payments(export.0@).to_multiset()
                &&& b.payments@.len() == spec_row_payments(export.0@).len()
                &&& forall|d: Date| #[trigger]
                    with_date(b.payments@, d) == with_date(spec_row_payments(export.0@), d)
                &&& b.calendar.start_at == b.payments@[0].date
            },
    {
        let rows = export.0;
        let n = rows.len();
        let mut pays: Vec<Payment> = Vec::new();
        let mut i: usize = 0;
        while i < n
            invariant
                n == rows@.len(),
                i <= n,
                pays@ == spec_row_payments(rows@.take(i as int)),
                forall|j: int| 0 <= j < pays@.len() ==> (#[trigger] pays@[j]).wf(),
            decreases n - i,
        {
            proof {
                assert(rows@.take(i as int + 1).drop_last() =~= rows@.take(i as int));
            }
            match rows[i].to_payment() {
                Some(p) => pays.push(p),
                None => {},
            }
            i = i + 1;
        }
        proof {
            assert(rows@.take(n as int) =~= rows@);
        }
        if pays.len() == 0 {
            return Err(BudgetError::EmptySource);
        }
        let sorted = sort_by_date(pays);
        let first = sorted[0].date;
        Ok(Budget { payments: sorted, calendar: Calendar { start_at: first } })
    }

    /// Combine the budgets of several sources.  No source at all is
    /// fatal; a single source is taken as it is; two or more sources are
    /// merged pairwise, which fails only when none of them yields any
    /// payment.
    pub fn from_sources(sources: Vec<Budget>) -> (r: Result<Budget, BudgetError>)
        requires
            forall|i: int| 0 <= i < sources@.len() ==> (#[trigger] sources@[i]).wf(),
        ensures
            sources@.len() == 0 ==> r == Err::<Budget, BudgetError>(BudgetError::NoSourceProvided),
            sources@.len() == 1 ==> (r matches Ok(b) && b == sources@[0]),
            sources@.len() >= 2 && all_source_payments(sources@).len() == 0 ==> r == Err::<
                Budget,
                BudgetError,
            >(BudgetError::EmptySource),
            sources@.len() >= 2 && all_source_payments(sources@).len() > 0 ==> (r matches Ok(b)
                && {
                &&& b.wf()
                &&& sorted_by_date(b.payments@)
                &&& b.payments@.to_multiset() == all_source_payments(sources@).to_multiset()
                &&& b.payments@.len() == all_source_payments(sources@).len()
                &&& forall|d: Date| #[trigger]
                    with_date(b.payments@, d) == with_date(all_source_payments(sources@), d)
                &&& b.calendar.start_at == b.payments@[0].date.spec_month_start()
            }),
    {
        let ghost orig = sources@;
        let mut sources = sources;
        if sources.len() == 0 {
            return Err(BudgetError::NoSourceProvided);
        }
        let single = sources.len() == 1;
        let mut budget = sources.remove(0);
        proof {
            assert(sources@ =~= orig.skip(1));
            assert(orig.take(1).drop_last() =~= orig.take(0));
            assert(orig.take(1).last() == orig[0]);
            assert(all_source_payments(orig.take(0)).len() == 0);
            assert(all_source_payments(orig.take(1)) == all_source_payments(orig.take(0))
                + orig[0].payments@);
            assert(all_source_payments(orig.take(1)) =~= budget.payments@);
        }
        if single {
            return Ok(budget);
        }
        let ghost mut consumed: int = 1;
        while sources.len() > 0
            invariant
                1 <= consumed <= orig.len(),
                sources@ == orig.skip(consumed),
                orig.len() >= 2,
                forall|i: int| 0 <= i < orig.len() ==> (#[trigger] orig[i]).wf(),
                budget.wf(),
                budget.payments@.to_multiset() == all_source_payments(
                    orig.take(consumed),
                ).to_multiset(),
                budget.payments@.len() == all_source_payments(orig.take(consumed)).len(),
                forall|d: Date| #[trigger]
                    with_date(budget.payments@, d) == with_date(
                        all_source_payments(orig.take(consumed)),
                        d,
                    ),
                consumed >= 2 && budget.payments@.len() > 0 ==> sorted_by_date(budget.payments@)
                    && budget.calendar.start_at == budget.payments@[0].date.spec_month_start(),
            decreases sources@.len(),
        {
            let ghost presrc = sources@;
            let b = sources.remove(0);
            let ghost accpre = budget.payments@;
            let ghost bpays = b.payments@;
            proof {
                assert(presrc[0] == orig[consumed]);
                assert(sources@ =~= presrc.remove(0));
                assert(sources@ =~= orig.skip(consumed + 1));
                assert(orig.take(consumed + 1).drop_last() =~= orig.take(consumed));
                assert(orig.take(consumed + 1).last() == orig[consumed]);
                vstd::seq_lib::lemma_multiset_commutative(
                    all_source_payments(orig.take(consumed)),
                    orig[consumed].payments@,
                );
            }
            if budget.payments.len() > 0 || b.payments.len() > 0 {
                let _ = budget.merge(b);
                proof {
                    assert forall|d: Date| #[trigger]
                        with_date(budget.payments@, d) == with_date(
                            all_source_payments(orig.take(consumed + 1)),
                            d,
                        ) by {
                        lemma_with_date_distributes(accpre, bpays, d);
                        lemma_with_date_distributes(
                            all_source_payments(orig.take(consumed)),
                            orig[consumed].payments@,
                            d,
                        );
                    }
                }
            } else {
                proof {
                    assert(all_source_payments(orig.take(consumed + 1)).to_multiset()
                        =~= all_source_payments(orig.take(consumed)).to_multiset());
                    assert forall|d: Date| #[trigger]
                        with_date(budget.payments@, d) == with_date(
                            all_source_payments(orig.take(consumed + 1)),
                            d,
                        ) by {
                        lemma_with_date_distributes(
                            all_source_payments(orig.take(consumed)),
                            orig[consumed].payments@,
                            d,
                        );
                        assert(with_date(orig[consumed].payments@, d) =~= Seq::<Payment>::empty());
                        assert(with_date(all_source_payments(orig.take(consumed)), d) + Seq::<
                            Payment,
                        >::empty() =~= with_date(all_source_payments(orig.take(consumed)), d));
                    }
                }
            }
            proof {
                consumed = consumed + 1;
            }
        }
        proof {
            assert(consumed == orig.len());
            assert(orig.take(consumed) =~= orig);
        }
        if budget.payments.len() == 0 {
            return Err(BudgetError::EmptySource);
        }
        Ok(budget)
    }

    /// Absorb another budget: payments are pooled and stably re-sorted by
    /// date (payments of equal date keep their pooled order, own payments
    /// first), and the calendar anchor becomes the month start of the
    /// earliest payment.  Pooling no payment at all is fatal and leaves
    /// the budget untouched.
    pub fn merge(&mut self, budget: Budget) -> (r: Result<(), BudgetError>)
        requires
            old(self).wf(),
            budget.wf(),
        ensures
            old(self).payments@.len() + budget.payments@.len() == 0 ==> r == Err::<
                (),
                BudgetError,
            >(BudgetError::EmptySource) && *final(self) == *old(self),
            old(self).payments@.len() + budget.payments@.len() > 0 ==> r is Ok && {
                &&& final(self).wf()
                &&& sorted_by_date(final(self).payments@)
                &&& final(self).payments@.to_multiset() == old(self).payments@.to_multiset().add(
                    budget.payments@.to_multiset(),
                )
                &&& final(self).payments@.len() == old(self).payments@.len()
                    + budget.payments@.len()
                &&& forall|d: Date| #[trigger]
                    with_date(final(self).payments@, d) == with_date(
                        old(self).payments@ + budget.payments@,
                        d,
                    )
                &&& final(self).calendar.start_at
                    == final(self).payments@[0].date.spec_month_start()
            },
    {
        if self.payments.len() == 0 && budget.payments.len() == 0 {
            return Err(BudgetError::EmptySource);
        }
        let mut pays: Vec<Payment> = Vec::new();
        core::mem::swap(&mut self.payments, &mut pays);
        let mut incoming = budget.payments;
        pays.append(&mut incoming);
        proof {
            vstd::seq_lib::lemma_multiset_commutative(old(self).payments@, budget.payments@);
        }
        let sorted = sort_by_date(pays);
        self.payments = sorted;
        let first = self.payments[0].date;
        self.calendar = Calendar { start_at: first.modulo() };
        Ok(())
    }

    /// The occurrences, over a horizon of `months`, that fall in `date`'s
    /// calendar month and pass the label filter.
    pub fn payments_at(&self, date: Date, months: u32, filter: &Vec<String>) -> (r: PaymentGroup)
        requires
            self.wf(),
            date.wf(),
            self.spec_expand_ok(months),
        ensures
            r.0@ == month_occurrences(self.payments@, months, date, filter_views(filter@)),
            r.wf(),
    {
        let ghost fv = filter_views(filter@);
        let ghost ps = self.payments@;
        let (start, end) = date.to_month_interval();
        let mut acc: Vec<Payment> = Vec::new();
        let n = self.payments.len();
        let mut a: usize = 0;
        while a < n
            invariant
                self.wf(),
                date.wf(),
                self.spec_expand_ok(months),
                ps == self.payments@,
                fv == filter_views(filter@),
                n == ps.len(),
                start == date.spec_month_start(),
                end == date.spec_month_end(),
                a <= n,
                acc@ == month_occurrences(ps.take(a as int), months, date, fv),
                forall|i: int| 0 <= i < acc@.len() ==> (#[trigger] acc@[i]).wf(),
            decreases n - a,
        {
            let occ = self.payments[a].repeat(months);
            proof {
                assert(occ@ =~= occurrences_of(ps[a as int], months));
            }
            let m = occ.len();
            let mut b: usize = 0;
            while b < m
                invariant
                    self.wf(),
                    date.wf(),
                    self.spec_expand_ok(months),
                    ps == self.payments@,
                    fv == filter_views(filter@),
                    n == ps.len(),
                    start == date.spec_month_start(),
                    end == date.spec_month_end(),
                    a < n,
                    m == occ@.len(),
                    occ@ == occurrences_of(ps[a as int], months),
                    forall|i: int| 0 <= i < occ@.len() ==> (#[trigger] occ@[i]).wf(),
                    b <= m,
                    acc@ == month_occurrences(ps.take(a as int), months, date, fv)
                        + kept_occurrences(occ@.take(b as int), date, fv),
                    forall|i: int| 0 <= i < acc@.len() ==> (#[trigger] acc@[i]).wf(),
                decreases m - b,
            {
                proof {
                    assert(occ@.take(b as int + 1).drop_last() =~= occ@.take(b as int));
                }
                let q = &occ[b];
                let inmonth = start.le(&q.date) && q.date.le(&end);
                proof {
                    lemma_month_interval_membership(q.date, date);
                }
                if inmonth {
                    if passes_filter(q, filter) {
                        acc.push(clone_payment(q));
                    }
                }
                b = b + 1;
            }
            proof {
                assert(occ@.take(m as int) =~= occ@);
                assert(ps.take(a as int + 1).drop_last() =~= ps.take(a as int));
                assert(ps.take(a as int + 1).last() == ps[a as int]);
                lemma_kept_distributes(
                    all_occurrences(ps.take(a as int), months),
                    occurrences_of(ps[a as int], months),
                    date,
                    fv,
                );
            }
            a = a + 1;
        }
        proof {
            assert(ps.take(n as int) =~= ps);
        }
        PaymentGroup(acc)
    }

    /// One bucket per month of the horizon, in calendar order: the month
    /// anchor paired with the kept occurrences of that month.
    pub fn group_by_month(&self, months: u32, filter: &Vec<String>) -> (r: Vec<
        (Date, PaymentGroup),
    >)
        requires
            self.wf(),
            self.spec_expand_ok(months),
            self.spec_horizon_ok(months),
        ensures
            r@.len() == months,
            forall|i: int|
                0 <= i < months ==> (#[trigger] r@[i]).0 == spec_add_months(
                    self.calendar.start_at,
                    i,
                ),
            forall|i: int|
                0 <= i < months ==> (#[trigger] r@[i]).1.0@ == month_occurrences(
                    self.payments@,
                    months,
                    spec_add_months(self.calendar.start_at, i),
                    filter_views(filter@),
                ),
            forall|i: int| 0 <= i < months ==> (#[trigger] r@[i]).1.wf(),
    {
        let anchors = self.calendar.iter_months(months);
        let mut out: Vec<(Date, PaymentGroup)> = Vec::new();
        let n = anchors.len();
        let mut i: usize = 0;
        while i < n
            invariant
                self.wf(),
                self.spec_expand_ok(months),
                n == months,
                anchors@.len() == months,
                forall|j: int|
                    0 <= j < months ==> anchors@[j] == spec_add_months(self.calendar.start_at, j),
                forall|j: int| 0 <= j < months ==> (#[trigger] anchors@[j]).wf(),
                i <= n,
                out@.len() == i,
                forall|j: int|
                    0 <= j < i ==> (#[trigger] out@[j]).0 == spec_add_months(
                        self.calendar.start_at,
                        j,
                    ),
                forall|j: int|
                    0 <= j < i ==> (#[trigger] out@[j]).1.0@ == month_occurrences(
                        self.payments@,
                        months,
                        spec_add_months(self.calendar.start_at, j),
                        filter_views(filter@),
                    ),
                forall|j: int| 0 <= j < i ==> (#[trigger] out@[j]).1.wf(),
            decreases n - i,
        {
            let d = anchors[i];
            let g = self.payments_at(d, months, filter);
            out.push((d, g));
            i = i + 1;
        }
        out
    }

    /// Whether a horizon of `months` keeps every expansion and the whole
    /// month sequence inside the supported month range.  Callers outside
    /// verified code use this to establish the preconditions of
    /// [`Budget::group_by_month`] and [`Budget::show_rows`].
    pub fn horizon_ok(&self, months: u32) -> (r: bool)
        requires
            self.wf(),
        ensures
            r == (self.spec_expand_ok(months) && self.spec_horizon_ok(months)),
    {
        let s = self.calendar.start_at.year * 12 + (self.calendar.start_at.month - 1);
        if !(s as u64 + months as u64 <= 120000) {
            return false;
        }
        let n = self.payments.len();
        let mut i: usize = 0;
        while i < n
            invariant
                self.wf(),
                n == self.payments@.len(),
                i <= n,
                forall|j: int|
                    0 <= j < i ==> (#[trigger] self.payments@[j]).date.month_index()
                        + self.payments@[j].spec_count(months) <= 120000,
            decreases n - i,
        {
            let p = &self.payments[i];
            let mi = p.date.year * 12 + (p.date.month - 1);
            let count = p.recurence().months(months);
            if !(mi as u64 + count as u64 <= 120000) {
                return false;
            }
            i = i + 1;
        }
        true
    }

    /// The report rows, one per month of the horizon: the month anchor,
    /// the running total of the previous months' sums, and the month's
    /// own sum, all in cents.
    pub fn show_rows(&self, months: u32, filter: &Vec<String>) -> (r: Vec<(Date, i128, i128)>)
        requires
            self.wf(),
            self.spec_expand_ok(months),
            self.spec_horizon_ok(months),
        ensures
            r@.len() == months,
            forall|i: int|
                0 <= i < months ==> (#[trigger] r@[i]).0 == spec_add_months(
                    self.calendar.start_at,
                    i,
                ),
            forall|i: int|
                0 <= i < months ==> (#[trigger] r@[i]).1 == spec_running_total(
                    self.payments@,
                    months,
                    self.calendar.start_at,
                    filter_views(filter@),
                    i,
                ),
            forall|i: int|
                0 <= i < months ==> (#[trigger] r@[i]).2 == month_sum(
                    self.payments@,
                    months,
                    spec_add_months(self.calendar.start_at, i),
                    filter_views(filter@),
                ),
    {
        let ghost ps = self.payments@;
        let ghost fv = filter_views(filter@);
        let ghost start = self.calendar.start_at;
        let ghost l = AMOUNT_LIMIT as int;
        let pn = self.payments.len();
        let ghost pl = pn as int;
        let groups = self.group_by_month(months, filter);
        let mut out: Vec<(Date, i128, i128)> = Vec::new();
        let mut total: i128 = 0;
        let n = groups.len();
        let mut i: usize = 0;
        while i < n
            invariant
                self.wf(),
                self.spec_expand_ok(months),
                self.spec_horizon_ok(months),
                ps == self.payments@,
                fv == filter_views(filter@),
                start == self.calendar.start_at,
                l == AMOUNT_LIMIT as int,
                pl == ps.len() as int,
                pl <= 18446744073709551615,
                months <= 120000,
                n == months,
                groups@.len() == months,
                forall|j: int|
                    0 <= j < months ==> (#[trigger] groups@[j]).0 == spec_add_months(start, j),
                forall|j: int|
                    0 <= j < months ==> (#[trigger] groups@[j]).1.0@ == month_occurrences(
                        ps,
                        months,
                        spec_add_months(start, j),
                        fv,
                    ),
                forall|j: int| 0 <= j < months ==> (#[trigger] groups@[j]).1.wf(),
                i <= n,
                out@.len() == i,
                total == spec_running_total(ps, months, start, fv, i as int),
                -((i as int) * (pl * l)) <= total <= (i as int) * (pl * l),
                forall|j: int|
                    0 <= j < i ==> (#[trigger] out@[j]).0 == spec_add_months(start, j),
                forall|j: int|
                    0 <= j < i ==> (#[trigger] out@[j]).1 == spec_running_total(
                        ps,
                        months,
                        start,
                        fv,
                        j,
                    ),
                forall|j: int|
                    0 <= j < i ==> (#[trigger] out@[j]).2 == month_sum(
                        ps,
                        months,
                        spec_add_months(start, j),
                        fv,
                    ),
            decreases n - i,
        {
            let d = groups[i].0;
            let s = groups[i].1.sum();
            proof {
                crate::date::lemma_add_months_index(start, i as int);
                lemma_month_sum_bound(ps, months, spec_add_months(start, i as int), fv);
                assert(0 <= pl * l) by (nonlinear_arith)
                    requires
                        pl >= 0,
                        l >= 0,
                ;
                assert((i as int) * (pl * l) + pl * l == (i as int + 1) * (pl * l))
                    by (nonlinear_arith);
                assert(-(pl * l) <= s <= pl * l);
                assert((i as int + 1) * (pl * l) <= 120000 * (pl * l)) by (nonlinear_arith)
                    requires
                        0 <= i as int + 1 <= 120000,
                        0 <= pl * l,
                ;
                assert(120000 * (pl * l) <= 120000 * (18446744073709551616 * 10000000000000))
                    by (nonlinear_arith)
                    requires
                        0 <= pl <= 18446744073709551616,
                        l == 10000000000000,
                ;
            }
            out.push((d, total, s));
            total = total + s;
            i = i + 1;
        }
        out
    }
}

} // verus!
