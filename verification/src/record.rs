//! Splitting one record line into its key and value fields.
//!
//! A line is split at the last occurrence of the `;` delimiter, found by
//! scanning backward from the end: the value field is short and bounded,
//! so the scan inspects only a few bytes however long the key is, and a
//! well-formed key contains no delimiter, so the last occurrence is the
//! right one.

use vstd::prelude::*;
use vstd::slice::{slice_subrange, slice_to_vec};
use crate::numeral::{
    in_value_range, numeral_tenths, parse_tenths, valid_numeral, SEMI,
};

verus! {

/// Index of the last `;` in a line, or `-1` when there is none.
pub open spec fn last_semi(s: Seq<u8>) -> int
    decreases s.len(),
{
    if s.len() == 0 {
        -1
    } else if s.last() == SEMI {
        s.len() - 1
    } else {
        last_semi(s.drop_last())
    }
}

pub open spec fn has_semi(s: Seq<u8>) -> bool {
    last_semi(s) >= 0
}

/// The key field of a line: everything before the last delimiter.
pub open spec fn line_key(l: Seq<u8>) -> Seq<u8>
    recommends
        has_semi(l),
{
    l.subrange(0, last_semi(l))
}

/// The value field of a line: everything after the last delimiter.
pub open spec fn line_value_text(l: Seq<u8>) -> Seq<u8>
    recommends
        has_semi(l),
{
    l.subrange(last_semi(l) + 1, l.len() as int)
}

/// A well-formed record line: it has a delimiter and its value field is a
/// well-formed decimal.
pub open spec fn line_ok(l: Seq<u8>) -> bool {
    has_semi(l) && valid_numeral(line_value_text(l))
}

/// The value of a well-formed line, in tenths.
pub open spec fn line_value(l: Seq<u8>) -> int
    recommends
        line_ok(l),
{
    numeral_tenths(line_value_text(l))
}

pub proof fn lemma_last_semi_at(s: Seq<u8>, i: int)
    requires
        0 <= i < s.len(),
        s[i] == SEMI,
        forall|j: int| i < j < s.len() ==> s[j] != SEMI,
    ensures
        last_semi(s) == i,
    decreases s.len(),
{
    if i == s.len() - 1 {
    } else {
        assert(forall|j: int|
            i < j < s.len() - 1 ==> #[trigger] s.drop_last()[j] == s[j]);
        lemma_last_semi_at(s.drop_last(), i);
    }
}

pub proof fn lemma_no_semi(s: Seq<u8>)
    requires
        forall|j: int| 0 <= j < s.len() ==> s[j] != SEMI,
    ensures
        last_semi(s) == -1,
    decreases s.len(),
{
    if s.len() > 0 {
        lemma_no_semi(s.drop_last());
    }
}

pub proof fn lemma_last_semi_in_range(s: Seq<u8>)
    ensures
        -1 <= last_semi(s) < s.len(),
        last_semi(s) >= 0 ==> s[last_semi(s)] == SEMI,
    decreases s.len(),
{
    if s.len() > 0 && s.last() != SEMI {
        lemma_last_semi_in_range(s.drop_last());
    }
}

/// A well-formed line is at least four bytes: the delimiter and a value
/// field of at least three bytes.
pub proof fn lemma_line_ok_len(l: Seq<u8>)
    requires
        line_ok(l),
    ensures
        l.len() >= 4,
        last_semi(l) + 4 <= l.len(),
{
    lemma_last_semi_in_range(l);
}

/// Locates the key and value fields of one line, scanning backward for
/// the last delimiter.  Returns `None` exactly when the line holds no
/// delimiter at all.
pub fn split_line(line: &[u8]) -> (r: Option<(&[u8], &[u8])>)
    ensures
        r is Some <==> has_semi(line@),
        r matches Some(kv) ==> kv.0@ == line_key(line@) && kv.1@ == line_value_text(line@),
{
    let n = line.len();
    let mut i = n;
    while i > 0
        invariant
            0 <= i <= n,
            n == line@.len(),
            forall|j: int| i <= j < n ==> line@[j] != SEMI,
        decreases i,
    {
        i = i - 1;
        if line[i] == SEMI {
            proof {
                lemma_last_semi_at(line@, i as int);
            }
            let key = slice_subrange(line, 0, i);
            let value = slice_subrange(line, i + 1, n);
            return Some((key, value));
        }
    }
    proof {
        lemma_no_semi(line@);
    }
    None
}

/// What can go wrong with a single record line.
#[derive(PartialEq, Eq, Structural, Clone, Copy, Debug)]
pub enum LineFault {
    /// The line holds no `;` delimiter.
    MissingDelimiter,
    /// The value field is not a well-formed fixed-precision decimal.
    BadNumeral,
}

/// Parses one record line into an owned key and a value in tenths.
/// Succeeds exactly on well-formed lines; the fault tells whether the
/// delimiter or the numeral was at fault.
pub fn parse_line(line: &[u8]) -> (r: Result<(Vec<u8>, i64), LineFault>)
    ensures
        r is Ok <==> line_ok(line@),
        r matches Ok(kv) ==> kv.0@ == line_key(line@) && kv.1 == line_value(line@)
            && in_value_range(kv.1 as int),
        !has_semi(line@) ==> r == Err::<(Vec<u8>, i64), LineFault>(LineFault::MissingDelimiter),
        has_semi(line@) && !line_ok(line@) ==> r == Err::<(Vec<u8>, i64), LineFault>(
            LineFault::BadNumeral,
        ),
{
    match split_line(line) {
        None => Err(LineFault::MissingDelimiter),
        Some((key, value)) => match parse_tenths(value) {
            None => Err(LineFault::BadNumeral),
            Some(v) => Ok((slice_to_vec(key), v)),
        },
    }
}

} // verus!
