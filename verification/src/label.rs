//! The grouping label of an entry: the time prefix is stripped, a
//! parenthesised override segment replaces the full text, and pause
//! synonyms collapse into one canonical pause label.

use vstd::prelude::*;
use vstd::string::StrSliceExecFns;
use crate::strutil::find_first;
use crate::strutil::find_last;
use crate::strutil::str_eq;
use crate::timepoint::label_part;
use crate::timepoint::TimePoint;

verus! {

/// The one label that all pause synonyms collapse into.
pub open spec fn pause_label() -> Seq<char> {
    "pause"@
}

/// The labels that count as a pause.
pub open spec fn is_pause_synonym(s: Seq<char>) -> bool {
    s == "pause"@ || s == "lunch"@ || s == "mittag"@ || s == "break"@
}

/// Whether a raw label holds an override segment: some `(` with a later `)`.
pub open spec fn has_override(s: Seq<char>) -> bool {
    exists|i: int, j: int| 0 <= i < j < s.len() && s[i] == '(' && s[j] == ')'
}

/// The index of the first occurrence of `c` in `s`.
pub open spec fn spec_first(s: Seq<char>, c: char) -> int {
    choose|i: int|
        0 <= i < s.len() && s[i] == c && (forall|j: int| 0 <= j < i ==> s[j] != c)
}

/// The index of the last occurrence of `c` in `s`.
pub open spec fn spec_last(s: Seq<char>, c: char) -> int {
    choose|i: int|
        0 <= i < s.len() && s[i] == c && (forall|j: int| i < j < s.len() ==> s[j] != c)
}

/// The inner text of the override segment: what stands between the first
/// `(` and the last `)`.
pub open spec fn override_inner(s: Seq<char>) -> Seq<char> {
    s.subrange(spec_first(s, '(') + 1, spec_last(s, ')'))
}

/// The effective grouping label of a raw label text.
pub open spec fn effective_of_raw(s: Seq<char>) -> Seq<char> {
    let over = if has_override(s) {
        override_inner(s)
    } else {
        s
    };
    if is_pause_synonym(over) {
        pause_label()
    } else {
        over
    }
}

/// The effective grouping label of a display text.
pub open spec fn effective_label(t: Seq<char>) -> Seq<char> {
    effective_of_raw(label_part(t))
}

/// A first occurrence is unique.
proof fn lemma_first_unique(s: Seq<char>, c: char, i: int)
    requires
        0 <= i < s.len(),
        s[i] == c,
        forall|j: int| 0 <= j < i ==> s[j] != c,
    ensures
        spec_first(s, c) == i,
{
    let k = choose|k: int|
        0 <= k < s.len() && s[k] == c && (forall|j: int| 0 <= j < k ==> s[j] != c);
    assert(0 <= k < s.len() && s[k] == c && (forall|j: int| 0 <= j < k ==> s[j] != c));
}

/// A last occurrence is unique.
proof fn lemma_last_unique(s: Seq<char>, c: char, i: int)
    requires
        0 <= i < s.len(),
        s[i] == c,
        forall|j: int| i < j < s.len() ==> s[j] != c,
    ensures
        spec_last(s, c) == i,
{
    let k = choose|k: int|
        0 <= k < s.len() && s[k] == c && (forall|j: int| k < j < s.len() ==> s[j] != c);
    assert(0 <= k < s.len() && s[k] == c && (forall|j: int| k < j < s.len() ==> s[j] != c));
}

/// If a label text contains a parenthesised segment, only the message
/// inside the parentheses is used for grouping; a pause synonym is mapped
/// to the canonical pause label.  A well-formed time prefix is stripped
/// before either step.
pub fn effective_text(s: String) -> (r: String)
    ensures
        r@ == effective_label(s@),
{
    let raw: String = match TimePoint::parse_prefix(s.as_str()) {
        Some(p) => p.1,
        None => s,
    };
    let over: String = {
        let first = find_first(raw.as_str(), '(');
        let last = find_last(raw.as_str(), ')');
        match first {
            Some(i) => match last {
                Some(j) => {
                    if i < j {
                        proof {
                            lemma_first_unique(raw@, '(', i as int);
                            lemma_last_unique(raw@, ')', j as int);
                            assert(has_override(raw@));
                        }
                        raw.as_str().substring_char(i + 1, j).to_owned()
                    } else {
                        proof {
                            assert(!has_override(raw@)) by {
                                if has_override(raw@) {
                                    let (p, q) = choose|p: int, q: int|
                                        0 <= p < q < raw@.len() && raw@[p] == '(' && raw@[q]
                                            == ')';
                                    assert(i <= p);
                                    assert(q <= j);
                                }
                            }
                        }
                        raw
                    }
                },
                None => {
                    proof {
                        assert(!has_override(raw@)) by {
                            if has_override(raw@) {
                                let (p, q) = choose|p: int, q: int|
                                    0 <= p < q < raw@.len() && raw@[p] == '(' && raw@[q] == ')';
                                assert(crate::strutil::has_char(raw@, ')'));
                            }
                        }
                    }
                    raw
                },
            },
            None => {
                proof {
                    assert(!has_override(raw@)) by {
                        if has_override(raw@) {
                            let (p, q) = choose|p: int, q: int|
                                0 <= p < q < raw@.len() && raw@[p] == '(' && raw@[q] == ')';
                            assert(crate::strutil::has_char(raw@, '('));
                        }
                    }
                }
                raw
            },
        }
    };
    if str_eq(over.as_str(), "pause") || str_eq(over.as_str(), "lunch") || str_eq(
        over.as_str(),
        "mittag",
    ) || str_eq(over.as_str(), "break") {
        "pause".to_owned()
    } else {
        over
    }
}

} // verus!
