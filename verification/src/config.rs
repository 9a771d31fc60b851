//! Declarative configuration records: the shape of a structured source
//! file after its fields have been read into plain values.

use vstd::prelude::*;
use crate::payment::Recurence;

verus! {

/// One configured subscription line: label, amount in cents, date text,
/// and an optional recurrence (missing means monthly).
#[derive(Clone, Debug)]
pub struct Subscription {
    pub label: String,
    pub amount: i64,
    pub date: String,
    pub recurence: Option<Recurence>,
}

impl Subscription {
    /// Build a subscription record with an explicit recurrence.
    pub fn new(label: &str, amount: i64, date: &str, recurence: Recurence) -> (r: Subscription)
        ensures
            r.label@ == label@,
            r.amount == amount,
            r.date@ == date@,
            r.recurence == Some(recurence),
    {
        Subscription {
            label: label.to_owned(),
            amount,
            date: date.to_owned(),
            recurence: Some(recurence),
        }
    }
}

/// A whole structured source: an optional start date text and the
/// subscription lines.
#[derive(Clone, Debug)]
pub struct Config {
    pub start_at: Option<String>,
    pub subscriptions: Vec<Subscription>,
}

} // verus!
