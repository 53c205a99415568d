//! Parsing of ingestion records: newline-delimited lines whose fields
//! are separated by a literal delimiter token, carrying a host license
//! key, a subordinate license key and a compatibility verdict.

use vstd::prelude::*;

use crate::compatibility::CompatibilityStatus;
use crate::text::str_eq;

verus! {

/// The position of the first occurrence of `sep` in `s` at or after
/// `from`, if any.
pub open spec fn find_from(s: Seq<char>, sep: Seq<char>, from: int) -> Option<int>
    recommends
        0 <= from <= s.len(),
    decreases s.len() - from,
{
    if from < 0 || from + sep.len() > s.len() {
        None
    } else if s.subrange(from, from + sep.len()) == sep {
        Some(from)
    } else if from < s.len() {
        find_from(s, sep, from + 1)
    } else {
        None
    }
}

/// The first three delimiter-separated fields of a line: the text
/// before the first separator, between the first and the second, and
/// from the second to the third or to the end.  `None` when the line
/// has fewer than two separators.
pub open spec fn split3(s: Seq<char>, sep: Seq<char>) -> Option<(Seq<char>, Seq<char>, Seq<char>)> {
    match find_from(s, sep, 0) {
        None => None,
        Some(i1) => match find_from(s, sep, i1 + sep.len()) {
            None => None,
            Some(i2) => {
                let end = match find_from(s, sep, i2 + sep.len()) {
                    None => s.len() as int,
                    Some(i3) => i3,
                };
                Some(
                    (
                        s.subrange(0, i1),
                        s.subrange(i1 + sep.len(), i2),
                        s.subrange(i2 + sep.len(), end),
                    ),
                )
            },
        },
    }
}

/// Finds the first occurrence of `sep` in `s` at or after `from`, as
/// [`find_from`] prescribes.
pub fn find_separator(s: &str, sep: &str, from: usize) -> (r: Option<usize>)
    requires
        from <= s@.len(),
    ensures
        match r {
            Some(i) => find_from(s@, sep@, from as int) == Some(i as int) && from <= i && i
                + sep@.len() <= s@.len(),
            None => find_from(s@, sep@, from as int) is None,
        },
{
    let n = s.unicode_len();
    let m = sep.unicode_len();
    if m == 0 {
        proof {
            assert(s@.subrange(from as int, from as int) =~= sep@);
        }
        return Some(from);
    }
    if m > n {
        return None;
    }
    let mut i: usize = from;
    while i <= n - m
        invariant
            n == s@.len(),
            m == sep@.len(),
            0 < m <= n,
            from <= i,
            i <= n,
            find_from(s@, sep@, from as int) == find_from(s@, sep@, i as int),
        decreases n - i,
    {
        let piece = s.substring_char(i, i + m);
        if str_eq(piece, sep) {
            return Some(i);
        }
        i += 1;
    }
    None
}

/// Splits a line into its first three fields, as [`split3`] prescribes.
pub fn split_record(line: &str, sep: &str) -> (r: Option<(String, String, String)>)
    ensures
        match r {
            Some(fields) => split3(line@, sep@) == Some(
                (fields.0@, fields.1@, fields.2@),
            ),
            None => split3(line@, sep@) is None,
        },
{
    let sep_len = sep.unicode_len();
    let line_len = line.unicode_len();
    let i1 = match find_separator(line, sep, 0) {
        Some(i) => i,
        None => {
            return None;
        },
    };
    let i2 = match find_separator(line, sep, i1 + sep_len) {
        Some(i) => i,
        None => {
            return None;
        },
    };
    let end = match find_separator(line, sep, i2 + sep_len) {
        Some(i) => i,
        None => line_len,
    };
    let f1 = line.substring_char(0, i1).to_owned();
    let f2 = line.substring_char(i1 + sep_len, i2).to_owned();
    let f3 = line.substring_char(i2 + sep_len, end).to_owned();
    Some((f1, f2, f3))
}

/// The verdict an ingestion field stands for: "Yes" is compatible, "No"
/// incompatible, anything else unknown.
pub open spec fn verdict_of(s: Seq<char>) -> CompatibilityStatus {
    if s == "Yes"@ {
        CompatibilityStatus::Compatible
    } else if s == "No"@ {
        CompatibilityStatus::Incompatible
    } else {
        CompatibilityStatus::Unknown
    }
}

/// Maps an ingestion verdict field to its status, as [`verdict_of`]
/// prescribes.
pub fn parse_verdict(field: &str) -> (r: CompatibilityStatus)
    ensures
        r == verdict_of(field@),
{
    if str_eq(field, "Yes") {
        CompatibilityStatus::Compatible
    } else if str_eq(field, "No") {
        CompatibilityStatus::Incompatible
    } else {
        CompatibilityStatus::Unknown
    }
}

} // verus!
