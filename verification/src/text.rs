//! Case-insensitive text matching helpers for payment labels.

use vstd::prelude::*;

verus! {

/// The Unicode lowercase rendering of a character sequence, as produced by
/// `str::to_lowercase`.
pub uninterp spec fn lower_of(s: Seq<char>) -> Seq<char>;

/// Relies on `str::to_lowercase`: the result is a function of the input
/// characters alone (the Unicode lowercase mapping, locale-independent),
/// and an empty input stays empty.
#[verifier::external_body]
pub(crate) fn lowercase(s: &str) -> (r: String)
    ensures
        r@ == lower_of(s@),
        s@.len() == 0 ==> r@.len() == 0,
{
    s.to_lowercase()
}

/// `needle` matches `hay` starting at position `i`.
pub open spec fn is_match_at(needle: Seq<char>, hay: Seq<char>, i: int) -> bool {
    &&& i + needle.len() <= hay.len()
    &&& forall|j: int| 0 <= j < needle.len() ==> hay[i + j] == needle[j]
}

/// `needle` occurs contiguously somewhere inside `hay`.
pub open spec fn is_substring(needle: Seq<char>, hay: Seq<char>) -> bool {
    exists|i: int| 0 <= i && is_match_at(needle, hay, i)
}

fn match_at(hay: &str, needle: &str, i: usize) -> (r: bool)
    requires
        i + needle@.len() <= hay@.len(),
    ensures
        r == is_match_at(needle@, hay@, i as int),
{
    let nn = needle.unicode_len();
    let hn = hay.unicode_len();
    let mut j: usize = 0;
    while j < nn
        invariant
            nn == needle@.len(),
            hn == hay@.len(),
            i + nn <= hn,
            j <= nn,
            forall|t: int| 0 <= t < j ==> hay@[i + t] == needle@[t],
        decreases nn - j,
    {
        if hay.get_char(i + j) != needle.get_char(j) {
            assert(!is_match_at(needle@, hay@, i as int)) by {
                assert(hay@[i + j] != needle@[j as int]);
            }
            return false;
        }
        j = j + 1;
    }
    true
}

/// Naive substring search; `true` exactly when `needle` occurs in `hay`.
pub fn contains_sub(hay: &str, needle: &str) -> (r: bool)
    ensures
        r == is_substring(needle@, hay@),
{
    let hn = hay.unicode_len();
    let nn = needle.unicode_len();
    if nn > hn {
        assert(forall|k: int| 0 <= k ==> !is_match_at(needle@, hay@, k));
        return false;
    }
    let mut i: usize = 0;
    while i <= hn - nn
        invariant
            hn == hay@.len(),
            nn == needle@.len(),
            nn <= hn,
            i <= hn - nn + 1,
            forall|k: int| 0 <= k < i ==> !is_match_at(needle@, hay@, k),
        decreases hn - nn + 1 - i,
    {
        if match_at(hay, needle, i) {
            return true;
        }
        i = i + 1;
    }
    assert forall|k: int| 0 <= k implies !is_match_at(needle@, hay@, k) by {
        if k <= hn - nn {
            assert(!is_match_at(needle@, hay@, k));
        }
    }
    false
}

} // verus!
