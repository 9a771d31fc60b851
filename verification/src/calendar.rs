//! The ordered sequence of month anchors over a reporting horizon.

use vstd::prelude::*;
use crate::date::{
    lemma_add_months_index, spec_add_months, spec_le, spec_lt, spec_parse, Date,
};

verus! {

/// The single anchor from which the month buckets of a report are laid
/// out.
#[derive(Clone, Copy, Debug)]
pub struct Calendar {
    pub start_at: Date,
}

impl Calendar {
    /// A calendar whose anchor is a valid date.
    pub open spec fn wf(self) -> bool {
        self.start_at.wf()
    }

    /// Build from a date text; the text must be parseable.
    pub fn new(start_at: &str) -> (r: Calendar)
        requires
            spec_parse(start_at@) is Some,
        ensures
            Some(r.start_at) == spec_parse(start_at@),
            r.wf(),
    {
        Calendar { start_at: Date::parse(start_at).unwrap() }
    }

    /// The `months` month anchors from the start date: entry `i` is the
    /// start date plus `i` months.  The sequence is strictly increasing,
    /// stepping exactly one calendar month at a time.
    pub fn iter_months(self, months: u32) -> (r: Vec<Date>)
        requires
            self.wf(),
            self.start_at.month_index() + months <= 120000,
        ensures
            r@.len() == months,
            forall|i: int| 0 <= i < months ==> r@[i] == spec_add_months(self.start_at, i),
            forall|i: int| 0 <= i < months ==> (#[trigger] r@[i]).wf(),
            forall|i: int|
                0 <= i < months ==> (#[trigger] r@[i]).month_index() == self.start_at.month_index()
                    + i,
            forall|i: int, j: int| 0 <= i < j < months ==> spec_lt(r@[i], r@[j]),
    {
        let out = self.start_at.repeat_by_month(months);
        proof {
            assert forall|i: int| 0 <= i < months implies (#[trigger] out@[i]).wf()
                && out@[i].month_index() == self.start_at.month_index() + i by {
                lemma_add_months_index(self.start_at, i);
            }
            assert forall|i: int, j: int| 0 <= i < j < months implies spec_lt(out@[i], out@[j]) by {
                assert(out@[i].month_index() < out@[j].month_index());
                assert(spec_le(out@[i], out@[j]));
            }
        }
        out
    }
}

} // verus!
