//! Grouping and aggregation: the ordered entries, closed by a sentinel at
//! the current time, yield one duration per adjacent pair; the durations
//! are folded into per-label buckets held in a stable lexicographic order.

use vstd::prelude::*;
use vstd::string::StrSliceExecFns;
use vstd::string::StringExecFns;
use crate::strutil::lex_lt;
use crate::strutil::lemma_lex_irrefl;
use crate::strutil::str_eq;
use crate::strutil::str_lex_lt;
use crate::label::effective_label;
use crate::label::effective_text;
use crate::label::pause_label;
use crate::timepoint::now_minutes;
use crate::timepoint::TimePoint;
use crate::timesheet::format_duration;
use crate::timesheet::format_duration_spec;
use crate::timesheet::sorted_by_time;
use crate::timesheet::TimeSheet;

verus! {

/// The lexicographic order is transitive.
pub proof fn lemma_lex_trans(a: Seq<char>, b: Seq<char>, c: Seq<char>)
    requires
        lex_lt(a, b),
        lex_lt(b, c),
    ensures
        lex_lt(a, c),
    decreases a.len() + b.len() + c.len(),
{
    if a.len() > 0 && b.len() > 0 && c.len() > 0 {
        if a[0] == b[0] && b[0] == c[0] {
            lemma_lex_trans(a.drop_first(), b.drop_first(), c.drop_first());
        }
    }
}

/// The lexicographic order is total: two sequences compare or are equal.
pub proof fn lemma_lex_total(a: Seq<char>, b: Seq<char>)
    ensures
        lex_lt(a, b) || lex_lt(b, a) || a == b,
    decreases a.len(),
{
    if a.len() == 0 && b.len() == 0 {
        assert(a =~= b);
    } else if a.len() > 0 && b.len() > 0 {
        if a[0] == b[0] {
            lemma_lex_total(a.drop_first(), b.drop_first());
            if a.drop_first() == b.drop_first() {
                assert(a.drop_first().len() == a.len() - 1);
                assert(b.drop_first().len() == b.len() - 1);
                assert(a.len() == b.len());
                assert forall|i: int| 0 <= i < a.len() implies a[i] == b[i] by {
                    if i >= 1 {
                        assert(a[i] == a.drop_first()[i - 1]);
                        assert(b[i] == b.drop_first()[i - 1]);
                    }
                }
                assert(a =~= b);
            }
        } else {
            if (a[0] as u32) < (b[0] as u32) {
                assert(lex_lt(a, b));
            } else if (b[0] as u32) < (a[0] as u32) {
                assert(lex_lt(b, a));
            } else {
                assert(a[0] as u32 == b[0] as u32);
                vstd::utf8::char_u32_cast(a[0], a[0] as u32);
                vstd::utf8::char_u32_cast(b[0], b[0] as u32);
                assert(a[0] == b[0]);
            }
        }
    }
}

/// The closing time of the pair that starts at entry `k`: the next entry's
/// time, or the sentinel time for the last entry.
pub open spec fn endpoint(s: Seq<TimePoint>, now: int, k: int) -> int {
    if k < s.len() {
        s[k].time as int
    } else {
        now
    }
}

/// The grouping label of the pair that starts at entry `k`.
pub open spec fn pair_label(s: Seq<TimePoint>, k: int) -> Seq<char> {
    effective_label(s[k].text@)
}

/// The duration of the pair that starts at entry `k`.
pub open spec fn pair_duration(s: Seq<TimePoint>, now: int, k: int) -> int {
    endpoint(s, now, k + 1) - s[k].time
}

/// The summed duration of the first `k` pairs whose label is `l`.
pub open spec fn total_for(s: Seq<TimePoint>, now: int, k: int, l: Seq<char>) -> int
    decreases k,
{
    if k <= 0 {
        0
    } else {
        total_for(s, now, k - 1, l) + if pair_label(s, k - 1) == l {
            pair_duration(s, now, k - 1)
        } else {
            0
        }
    }
}

/// Whether label `l` occurs among the first `k` pairs.
pub open spec fn label_seen(s: Seq<TimePoint>, k: int, l: Seq<char>) -> bool {
    exists|m: int| 0 <= m < k && pair_label(s, m) == l
}

/// The sum of the first `k` pair durations.
pub open spec fn sum_durations(s: Seq<TimePoint>, now: int, k: int) -> int
    decreases k,
{
    if k <= 0 {
        0
    } else {
        sum_durations(s, now, k - 1) + pair_duration(s, now, k - 1)
    }
}

/// The sum of all bucket values.
pub open spec fn sum_values(b: Seq<(String, i64)>) -> int
    decreases b.len(),
{
    if b.len() == 0 {
        0
    } else {
        sum_values(b.drop_last()) + b.last().1
    }
}

/// The value of the first bucket carrying label `l`, if any.
pub open spec fn bucket_value(b: Seq<(String, i64)>, l: Seq<char>) -> Option<int>
    decreases b.len(),
{
    if b.len() == 0 {
        None
    } else if b[0].0@ == l {
        Some(b[0].1 as int)
    } else {
        bucket_value(b.drop_first(), l)
    }
}

/// What the grouped buckets are: strictly label-ordered, exactly one
/// bucket per label that occurs, each holding that label's total, their
/// values summing to the whole span of pairs.
pub open spec fn buckets_of(b: Seq<(String, i64)>, s: Seq<TimePoint>, now: int) -> bool {
    let n = s.len() as int;
    &&& (forall|p: int, q: int| 0 <= p < q < b.len() ==> lex_lt(b[p].0@, b[q].0@))
    &&& (forall|l: Seq<char>|
        #[trigger] bucket_value(b, l) == if label_seen(s, n, l) {
            Some(total_for(s, now, n, l))
        } else {
            None::<int>
        })
    &&& (forall|i: int| 0 <= i < b.len() ==> -1440 < #[trigger] b[i].1 < 2880)
    &&& sum_values(b) == sum_durations(s, now, n)
}

/// The day's active total: the whole span, less the pause bucket.
pub open spec fn active_total(s: Seq<TimePoint>, now: int) -> int {
    (now - s[0].time) - total_for(s, now, s.len() as int, pause_label())
}

/// One bucket as the summary renders it.
pub open spec fn render_bucket(p: (String, i64)) -> Seq<char> {
    p.0@ + " "@ + format_duration_spec(p.1 as int)
}

/// The rendered buckets, joined by `" | "`.
pub open spec fn tasks_line(b: Seq<(String, i64)>) -> Seq<char>
    decreases b.len(),
{
    if b.len() == 0 {
        Seq::empty()
    } else if b.len() == 1 {
        render_bucket(b[0])
    } else {
        tasks_line(b.drop_last()) + " | "@ + render_bucket(b.last())
    }
}

/// In a strictly ordered bucket list, lookup finds the indexed value.
proof fn lemma_bucket_index(b: Seq<(String, i64)>, i: int)
    requires
        0 <= i < b.len(),
        forall|p: int, q: int| 0 <= p < q < b.len() ==> lex_lt(b[p].0@, b[q].0@),
    ensures
        bucket_value(b, b[i].0@) == Some(b[i].1 as int),
    decreases b.len(),
{
    if i > 0 {
        assert(lex_lt(b[0].0@, b[i].0@));
        lemma_lex_irrefl(b[0].0@);
        assert(b[0].0@ != b[i].0@);
        lemma_bucket_index(b.drop_first(), i - 1);
    }
}

/// Two strictly ordered bucket lists with the same lookup hold the same
/// buckets in the same order.
proof fn lemma_same_lookup_same_buckets(b1: Seq<(String, i64)>, b2: Seq<(String, i64)>)
    requires
        forall|p: int, q: int| 0 <= p < q < b1.len() ==> lex_lt(b1[p].0@, b1[q].0@),
        forall|p: int, q: int| 0 <= p < q < b2.len() ==> lex_lt(b2[p].0@, b2[q].0@),
        forall|l: Seq<char>| #[trigger] bucket_value(b1, l) == bucket_value(b2, l),
    ensures
        b1.len() == b2.len(),
        forall|i: int| 0 <= i < b1.len() ==> (#[trigger] b1[i]).0@ == b2[i].0@,
        forall|i: int| 0 <= i < b1.len() ==> (#[trigger] b1[i]).1 == b2[i].1,
    decreases b1.len() + b2.len(),
{
    if b1.len() == 0 && b2.len() > 0 {
        lemma_bucket_index(b2, 0);
        assert(bucket_value(b1, b2[0].0@) is None);
    } else if b1.len() > 0 && b2.len() == 0 {
        lemma_bucket_index(b1, 0);
        assert(bucket_value(b2, b1[0].0@) is None);
    } else if b1.len() > 0 && b2.len() > 0 {
        let l1 = b1[0].0@;
        let l2 = b2[0].0@;
        lemma_lex_total(l1, l2);
        if lex_lt(l1, l2) {
            assert forall|i: int| 0 <= i < b2.len() implies b2[i].0@ != l1 by {
                lemma_lex_irrefl(l1);
                if i > 0 {
                    lemma_lex_trans(l1, l2, b2[i].0@);
                }
                if b2[i].0@ == l1 {
                    assert(lex_lt(l1, l1));
                }
            }
            lemma_bucket_absent(b2, l1);
            assert(bucket_value(b1, l1) == Some(b1[0].1 as int));
        } else if lex_lt(l2, l1) {
            assert forall|i: int| 0 <= i < b1.len() implies b1[i].0@ != l2 by {
                lemma_lex_irrefl(l2);
                if i > 0 {
                    lemma_lex_trans(l2, l1, b1[i].0@);
                }
                if b1[i].0@ == l2 {
                    assert(lex_lt(l2, l2));
                }
            }
            lemma_bucket_absent(b1, l2);
            assert(bucket_value(b2, l2) == Some(b2[0].1 as int));
        } else {
            assert(bucket_value(b1, l1) == Some(b1[0].1 as int));
            assert(bucket_value(b2, l1) == Some(b2[0].1 as int));
            let t1 = b1.drop_first();
            let t2 = b2.drop_first();
            assert forall|l: Seq<char>| #[trigger] bucket_value(t1, l) == bucket_value(
                t2,
                l,
            ) by {
                if l == l1 {
                    assert forall|i: int| 0 <= i < t1.len() implies t1[i].0@ != l by {
                        lemma_lex_irrefl(l);
                        assert(t1[i] == b1[i + 1]);
                        assert(lex_lt(b1[0].0@, b1[i + 1].0@));
                    }
                    assert forall|i: int| 0 <= i < t2.len() implies t2[i].0@ != l by {
                        lemma_lex_irrefl(l);
                        assert(t2[i] == b2[i + 1]);
                        assert(lex_lt(b2[0].0@, b2[i + 1].0@));
                    }
                    lemma_bucket_absent(t1, l);
                    lemma_bucket_absent(t2, l);
                } else {
                    assert(bucket_value(b1, l) == bucket_value(t1, l));
                    assert(bucket_value(b2, l) == bucket_value(t2, l));
                }
            }
            assert(forall|p: int, q: int|
                0 <= p < q < t1.len() ==> lex_lt(#[trigger] t1[p].0@, #[trigger] t1[q].0@))
                by {
                assert(forall|p: int, q: int|
                    0 <= p < q < t1.len() ==> t1[p] == b1[p + 1] && t1[q] == b1[q + 1]);
            }
            assert(forall|p: int, q: int|
                0 <= p < q < t2.len() ==> lex_lt(#[trigger] t2[p].0@, #[trigger] t2[q].0@))
                by {
                assert(forall|p: int, q: int|
                    0 <= p < q < t2.len() ==> t2[p] == b2[p + 1] && t2[q] == b2[q + 1]);
            }
            lemma_same_lookup_same_buckets(t1, t2);
            assert forall|i: int|
                0 <= i < b1.len() implies (#[trigger] b1[i]).0@ == b2[i].0@ && b1[i].1
                == b2[i].1 by {
                if i > 0 {
                    assert((t1[i - 1]).0@ == t2[i - 1].0@);
                    assert((t1[i - 1]).1 == t2[i - 1].1);
                    assert(b1[i] == t1[i - 1] && b2[i] == t2[i - 1]);
                }
            }
        }
    }
}

/// The grouped buckets are a function of the entries and the sentinel
/// time: any two lists that satisfy their characterization agree.
pub proof fn lemma_buckets_unique(
    b1: Seq<(String, i64)>,
    b2: Seq<(String, i64)>,
    s: Seq<TimePoint>,
    now: int,
)
    requires
        buckets_of(b1, s, now),
        buckets_of(b2, s, now),
    ensures
        b1.len() == b2.len(),
        forall|i: int| 0 <= i < b1.len() ==> (#[trigger] b1[i]).0@ == b2[i].0@,
        forall|i: int| 0 <= i < b1.len() ==> (#[trigger] b1[i]).1 == b2[i].1,
{
    assert forall|l: Seq<char>| #[trigger] bucket_value(b1, l) == bucket_value(b2, l) by {
        let n = s.len() as int;
        assert(bucket_value(b1, l) == if label_seen(s, n, l) {
            Some(total_for(s, now, n, l))
        } else {
            None::<int>
        });
    }
    lemma_same_lookup_same_buckets(b1, b2);
}

/// A label no bucket carries has no value.
proof fn lemma_bucket_absent(b: Seq<(String, i64)>, l: Seq<char>)
    requires
        forall|i: int| 0 <= i < b.len() ==> b[i].0@ != l,
    ensures
        bucket_value(b, l) is None,
    decreases b.len(),
{
    if b.len() > 0 {
        lemma_bucket_absent(b.drop_first(), l);
    }
}

/// Updating one bucket's value changes exactly that label's lookup.
proof fn lemma_bucket_update(b: Seq<(String, i64)>, i: int, w: i64)
    requires
        0 <= i < b.len(),
        forall|j: int| 0 <= j < i ==> b[j].0@ != b[i].0@,
    ensures
        forall|l: Seq<char>|
            #[trigger] bucket_value(b.update(i, (b[i].0, w)), l) == if l == b[i].0@ {
                Some(w as int)
            } else {
                bucket_value(b, l)
            },
    decreases b.len(),
{
    let b2 = b.update(i, (b[i].0, w));
    if i == 0 {
        assert(b2.drop_first() =~= b.drop_first());
        assert forall|l: Seq<char>|
            #[trigger] bucket_value(b2, l) == (if l == b[i].0@ {
                Some(w as int)
            } else {
                bucket_value(b, l)
            }) by {
            assert(b2[0] == (b[0].0, w));
            if l != b[0].0@ {
                assert(bucket_value(b2, l) == bucket_value(b2.drop_first(), l));
                assert(bucket_value(b, l) == bucket_value(b.drop_first(), l));
            }
        }
    } else {
        lemma_bucket_update(b.drop_first(), i - 1, w);
        assert(b.drop_first()[i - 1] == b[i]);
        assert(b2.drop_first() =~= b.drop_first().update(i - 1, (b.drop_first()[i - 1].0, w)));
        assert(b2[0] == b[0]);
        assert forall|l: Seq<char>|
            #[trigger] bucket_value(b2, l) == (if l == b[i].0@ {
                Some(w as int)
            } else {
                bucket_value(b, l)
            }) by {
            assert(bucket_value(b.drop_first().update(i - 1, (b.drop_first()[i - 1].0, w)), l)
                == (if l == b.drop_first()[i - 1].0@ {
                Some(w as int)
            } else {
                bucket_value(b.drop_first(), l)
            }));
            if l == b[i].0@ {
                assert(l != b[0].0@);
                assert(bucket_value(b2, l) == bucket_value(b2.drop_first(), l));
            } else if l == b[0].0@ {
                assert(bucket_value(b2, l) == Some(b2[0].1 as int));
                assert(bucket_value(b, l) == Some(b[0].1 as int));
            } else {
                assert(bucket_value(b2, l) == bucket_value(b2.drop_first(), l));
                assert(bucket_value(b, l) == bucket_value(b.drop_first(), l));
            }
        }
    }
}

/// Inserting a bucket introduces exactly its label's lookup, when no
/// earlier bucket carries that label.
proof fn lemma_bucket_insert(b: Seq<(String, i64)>, i: int, p: (String, i64))
    requires
        0 <= i <= b.len(),
        forall|j: int| 0 <= j < i ==> b[j].0@ != p.0@,
    ensures
        forall|l: Seq<char>|
            #[trigger] bucket_value(b.insert(i, p), l) == if l == p.0@ {
                Some(p.1 as int)
            } else {
                bucket_value(b, l)
            },
    decreases b.len(),
{
    let b2 = b.insert(i, p);
    if i == 0 {
        assert(b2.drop_first() =~= b);
        assert(b2[0] == p);
        assert forall|l: Seq<char>|
            #[trigger] bucket_value(b2, l) == (if l == p.0@ {
                Some(p.1 as int)
            } else {
                bucket_value(b, l)
            }) by {
            if l != p.0@ {
                assert(bucket_value(b2, l) == bucket_value(b2.drop_first(), l));
            }
        }
    } else {
        lemma_bucket_insert(b.drop_first(), i - 1, p);
        assert(b2.drop_first() =~= b.drop_first().insert(i - 1, p));
        assert(b2[0] == b[0]);
        assert forall|l: Seq<char>|
            #[trigger] bucket_value(b2, l) == (if l == p.0@ {
                Some(p.1 as int)
            } else {
                bucket_value(b, l)
            }) by {
            assert(bucket_value(b.drop_first().insert(i - 1, p), l) == (if l == p.0@ {
                Some(p.1 as int)
            } else {
                bucket_value(b.drop_first(), l)
            }));
            if l == p.0@ {
                assert(l != b[0].0@);
                assert(bucket_value(b2, l) == bucket_value(b2.drop_first(), l));
            } else if l == b[0].0@ {
                assert(bucket_value(b2, l) == Some(b2[0].1 as int));
                assert(bucket_value(b, l) == Some(b[0].1 as int));
            } else {
                assert(bucket_value(b2, l) == bucket_value(b2.drop_first(), l));
                assert(bucket_value(b, l) == bucket_value(b.drop_first(), l));
            }
        }
    }
}

/// Updating one bucket's value moves the sum by the difference.
proof fn lemma_sum_update(b: Seq<(String, i64)>, i: int, w: i64)
    requires
        0 <= i < b.len(),
    ensures
        sum_values(b.update(i, (b[i].0, w))) == sum_values(b) - b[i].1 + w,
    decreases b.len(),
{
    let b2 = b.update(i, (b[i].0, w));
    if i == b.len() - 1 {
        assert(b2.drop_last() =~= b.drop_last());
    } else {
        lemma_sum_update(b.drop_last(), i, w);
        assert(b2.drop_last() =~= b.drop_last().update(i, (b[i].0, w)));
        assert(b2.last() == b.last());
        assert(b.drop_last()[i] == b[i]);
    }
}

/// Inserting a bucket adds its value to the sum.
proof fn lemma_sum_insert(b: Seq<(String, i64)>, i: int, p: (String, i64))
    requires
        0 <= i <= b.len(),
    ensures
        sum_values(b.insert(i, p)) == sum_values(b) + p.1,
    decreases b.len(),
{
    let b2 = b.insert(i, p);
    if i == b.len() {
        assert(b2.drop_last() =~= b);
        assert(b2.last() == p);
    } else {
        lemma_sum_insert(b.drop_last(), i, p);
        assert(b2.drop_last() =~= b.drop_last().insert(i, p));
        assert(b2.last() == b.last());
    }
}

/// The first `k` pair durations telescope to the span from the first
/// entry to the `k`th endpoint.
pub proof fn lemma_telescope(s: Seq<TimePoint>, now: int, k: int)
    requires
        1 <= k <= s.len(),
    ensures
        sum_durations(s, now, k) == endpoint(s, now, k) - s[0].time,
    decreases k,
{
    if k > 1 {
        lemma_telescope(s, now, k - 1);
    } else {
        assert(sum_durations(s, now, 0) == 0);
    }
}

/// A label that never occurs has a zero total.
proof fn lemma_total_unseen(s: Seq<TimePoint>, now: int, k: int, l: Seq<char>)
    requires
        !label_seen(s, k, l),
    ensures
        total_for(s, now, k, l) == 0,
    decreases k,
{
    if k > 0 {
        assert(!label_seen(s, k - 1, l));
        assert(pair_label(s, k - 1) != l);
        lemma_total_unseen(s, now, k - 1, l);
    }
}

/// With nonnegative pair durations, each label's total lies between zero
/// and the sum of all durations.
proof fn lemma_total_bounds(s: Seq<TimePoint>, now: int, k: int, l: Seq<char>)
    requires
        0 <= k,
        forall|m: int| 0 <= m < k ==> pair_duration(s, now, m) >= 0,
    ensures
        0 <= total_for(s, now, k, l) <= sum_durations(s, now, k),
    decreases k,
{
    if k > 0 {
        lemma_total_bounds(s, now, k - 1, l);
    }
}

/// Adds a duration to its label's bucket, inserting a new bucket at its
/// ordered position when the label is new.
fn bump(b: &mut Vec<(String, i64)>, label: String, d: i64)
    requires
        forall|p: int, q: int| 0 <= p < q < old(b)@.len() ==> lex_lt(old(b)@[p].0@, old(b)@[q].0@),
        forall|i: int|
            0 <= i < old(b)@.len() ==> i64::MIN <= #[trigger] old(b)@[i].1 + d <= i64::MAX,
    ensures
        forall|p: int, q: int|
            0 <= p < q < final(b)@.len() ==> lex_lt(final(b)@[p].0@, final(b)@[q].0@),
        forall|l: Seq<char>|
            #[trigger] bucket_value(final(b)@, l) == if l == label@ {
                Some(
                    (match bucket_value(old(b)@, l) {
                        Some(v) => v,
                        None => 0,
                    }) + d,
                )
            } else {
                bucket_value(old(b)@, l)
            },
        sum_values(final(b)@) == sum_values(old(b)@) + d,
{
    let ghost orig = b@;
    let mut i: usize = 0;
    while i < b.len() && str_lex_lt(b[i].0.as_str(), label.as_str())
        invariant
            i <= b@.len(),
            b@ == orig,
            forall|j: int| 0 <= j < i ==> lex_lt(b@[j].0@, label@),
        decreases b@.len() - i,
    {
        i = i + 1;
    }
    proof {
        assert forall|j: int| 0 <= j < i implies orig[j].0@ != label@ by {
            lemma_lex_irrefl(label@);
            if orig[j].0@ == label@ {
                assert(lex_lt(label@, label@));
            }
        }
    }
    if i < b.len() && str_eq(b[i].0.as_str(), label.as_str()) {
        let entry = b.remove(i);
        let w: i64 = entry.1 + d;
        b.insert(i, (entry.0, w));
        proof {
            assert(b@ =~= orig.update(i as int, (orig[i as int].0, w)));
            lemma_bucket_index(orig, i as int);
            lemma_bucket_update(orig, i as int, w);
            lemma_sum_update(orig, i as int, w);
            assert forall|p: int, q: int|
                0 <= p < q < b@.len() implies lex_lt(b@[p].0@, b@[q].0@) by {
                assert(b@[p].0@ == orig[p].0@ && b@[q].0@ == orig[q].0@);
            }
        }
    } else {
        proof {
            if i < orig.len() {
                lemma_lex_total(orig[i as int].0@, label@);
                assert(lex_lt(label@, orig[i as int].0@));
            }
            assert forall|j: int| i <= j < orig.len() implies orig[j].0@ != label@ by {
                lemma_lex_irrefl(label@);
                if j > i {
                    lemma_lex_trans(label@, orig[i as int].0@, orig[j].0@);
                }
                if orig[j].0@ == label@ {
                    assert(lex_lt(label@, label@));
                }
            }
            lemma_bucket_absent(orig, label@);
        }
        b.insert(i, (label, d));
        proof {
            lemma_bucket_insert(orig, i as int, b@[i as int]);
            lemma_sum_insert(orig, i as int, b@[i as int]);
            assert forall|p: int, q: int|
                0 <= p < q < b@.len() implies lex_lt(b@[p].0@, b@[q].0@) by {
                if q < i {
                    assert(b@[p] == orig[p] && b@[q] == orig[q]);
                } else if p < i && q == i {
                    assert(b@[p] == orig[p]);
                } else if p < i && q > i {
                    assert(b@[p] == orig[p] && b@[q] == orig[q - 1]);
                } else if p == i {
                    assert(b@[q] == orig[q - 1]);
                    if q - 1 > i - 1 + 1 {
                        lemma_lex_trans(label@, orig[i as int].0@, orig[q - 1].0@);
                    }
                    assert(lex_lt(label@, orig[q - 1].0@));
                } else {
                    assert(b@[p] == orig[p - 1] && b@[q] == orig[q - 1]);
                }
            }
        }
    }
}

impl TimeSheet {
    /// Folds the entries, closed by a sentinel at `now`, into one duration
    /// bucket per effective label, in a stable lexicographic label order.
    /// The bucket values sum to the span from the first entry to `now`.
    pub fn grouped_times_at(&self, now: u16) -> (r: Vec<(String, i64)>)
        requires
            self.wf(),
            sorted_by_time(self.times@),
            now < 1440,
        ensures
            buckets_of(r@, self.times@, now as int),
            sum_values(r@) == now - self.times@[0].time,
    {
        let ghost s = self.times@;
        let n = self.times.len();
        let mut b: Vec<(String, i64)> = Vec::new();
        let mut k: usize = 0;
        while k < n - 1
            invariant
                self.wf(),
                sorted_by_time(s),
                s == self.times@,
                now < 1440,
                n == s.len(),
                n >= 1,
                k <= n - 1,
                forall|p: int, q: int| 0 <= p < q < b@.len() ==> lex_lt(b@[p].0@, b@[q].0@),
                forall|l: Seq<char>|
                    #[trigger] bucket_value(b@, l) == if label_seen(s, k as int, l) {
                        Some(total_for(s, now as int, k as int, l))
                    } else {
                        None::<int>
                    },
                forall|i: int| 0 <= i < b@.len() ==> 0 <= #[trigger] b@[i].1 <= 1439,
                sum_values(b@) == sum_durations(s, now as int, k as int),
            decreases n - k,
        {
            let label = effective_text(self.times[k].display());
            let d: i64 = self.times[k + 1].time as i64 - self.times[k].time as i64;
            proof {
                assert(d == pair_duration(s, now as int, k as int));
                assert(d >= 0);
                assert(d <= 1439);
            }
            self.add_pair(&mut b, label, d, Ghost(k as int), Ghost(now as int));
            proof {
                assert forall|i: int| 0 <= i < b@.len() implies 0 <= #[trigger] b@[i].1 <= 1439 by {
                    lemma_bucket_index(b@, i);
                    assert(bucket_value(b@, b@[i].0@) == Some(b@[i].1 as int));
                    lemma_total_bounds(s, now as int, k + 1, b@[i].0@);
                    lemma_telescope(s, now as int, k + 1);
                    assert(endpoint(s, now as int, k + 1) <= 1439);
                }
            }
            k = k + 1;
        }
        let label = effective_text(self.times[n - 1].display());
        let d: i64 = now as i64 - self.times[n - 1].time as i64;
        proof {
            assert(d == pair_duration(s, now as int, n - 1));
            assert(-1440 < d < 1440);
        }
        self.add_pair(&mut b, label, d, Ghost(n as int - 1), Ghost(now as int));
        proof {
            lemma_telescope(s, now as int, n as int);
            assert forall|i: int| 0 <= i < b@.len() implies -1440 < #[trigger] b@[i].1 < 2880 by {
                lemma_bucket_index(b@, i);
                assert(bucket_value(b@, b@[i].0@) == Some(b@[i].1 as int));
                lemma_total_bounds(s, now as int, n as int - 1, b@[i].0@);
                if n >= 2 {
                    lemma_telescope(s, now as int, n as int - 1);
                    assert(sum_durations(s, now as int, n as int - 1) <= 1439);
                }
            }
        }
        b
    }

    /// One summary line: `"label H:MM"` for each bucket, joined by `" | "`,
    /// in the stable label order; pause time stays visible here.
    pub fn time_by_tasks_at(&self, now: u16) -> (r: String)
        requires
            self.wf(),
            sorted_by_time(self.times@),
            now < 1440,
        ensures
            exists|b: Seq<(String, i64)>|
                #[trigger] buckets_of(b, self.times@, now as int) && r@ == tasks_line(b),
    {
        let buckets = self.grouped_times_at(now);
        let mut out = String::new();
        let mut i: usize = 0;
        proof {
            assert(buckets@.take(0) =~= Seq::<(String, i64)>::empty());
        }
        while i < buckets.len()
            invariant
                i <= buckets@.len(),
                out@ == tasks_line(buckets@.take(i as int)),
            decreases buckets@.len() - i,
        {
            if i > 0 {
                out.append(" | ");
            }
            out.append(buckets[i].0.as_str());
            out.append(" ");
            let dstr = format_duration(buckets[i].1);
            out.append(dstr.as_str());
            proof {
                assert(buckets@.take(i + 1).drop_last() =~= buckets@.take(i as int));
                assert(buckets@.take(i + 1).last() == buckets@[i as int]);
                assert(out@ =~= tasks_line(buckets@.take(i + 1)));
            }
            i = i + 1;
        }
        proof {
            assert(buckets@.take(buckets@.len() as int) =~= buckets@);
        }
        out
    }

    /// The total of all non-pause buckets, rendered; pause time is left
    /// out of the sum.
    pub fn sum_as_str_at(&self, now: u16) -> (r: String)
        requires
            self.wf(),
            sorted_by_time(self.times@),
            now < 1440,
        ensures
            r@ == format_duration_spec(active_total(self.times@, now as int)),
    {
        let ghost s = self.times@;
        let ghost n = s.len() as int;
        let buckets = self.grouped_times_at(now);
        let mut pv: i64 = 0;
        let mut found: bool = false;
        let mut i: usize = 0;
        while i < buckets.len()
            invariant
                i <= buckets@.len(),
                buckets_of(buckets@, s, now as int),
                n == s.len(),
                !found ==> pv == 0 && (forall|j: int|
                    0 <= j < i ==> #[trigger] buckets@[j].0@ != pause_label()),
                found ==> exists|j: int|
                    0 <= j < i && #[trigger] buckets@[j].0@ == pause_label() && pv
                        == buckets@[j].1,
            decreases buckets@.len() - i,
        {
            if str_eq(buckets[i].0.as_str(), "pause") {
                pv = buckets[i].1;
                found = true;
            }
            i = i + 1;
        }
        proof {
            if found {
                let j = choose|j: int|
                    0 <= j < buckets@.len() && #[trigger] buckets@[j].0@ == pause_label() && pv
                        == buckets@[j].1;
                lemma_bucket_index(buckets@, j);
                assert(bucket_value(buckets@, pause_label()) == Some(pv as int));
            } else {
                lemma_bucket_absent(buckets@, pause_label());
                if label_seen(s, n, pause_label()) {
                    assert(bucket_value(buckets@, pause_label()) is Some);
                }
                lemma_total_unseen(s, now as int, n, pause_label());
            }
            assert(pv == total_for(s, now as int, n, pause_label()));
        }
        let t0: i64 = self.times[0].time as i64;
        let total: i64 = now as i64 - t0 - pv;
        format_duration(total)
    }

    /// As `grouped_times_at`, with the sentinel at the wall-clock minute
    /// of the call.
    pub fn grouped_times(&self) -> (r: Vec<(String, i64)>)
        requires
            self.wf(),
            sorted_by_time(self.times@),
        ensures
            exists|now: int| 0 <= now < 1440 && #[trigger] buckets_of(r@, self.times@, now),
    {
        let now = now_minutes();
        let r = self.grouped_times_at(now);
        proof {
            assert(buckets_of(r@, self.times@, now as int));
        }
        r
    }

    /// As `time_by_tasks_at`, at the wall-clock minute of the call.
    pub fn time_by_tasks(&self) -> (r: String)
        requires
            self.wf(),
            sorted_by_time(self.times@),
        ensures
            exists|now: int, b: Seq<(String, i64)>|
                0 <= now < 1440 && #[trigger] buckets_of(b, self.times@, now) && r@
                    == tasks_line(b),
    {
        let now = now_minutes();
        let r = self.time_by_tasks_at(now);
        proof {
            let b = choose|b: Seq<(String, i64)>|
                #[trigger] buckets_of(b, self.times@, now as int) && r@ == tasks_line(b);
            assert(buckets_of(b, self.times@, now as int) && r@ == tasks_line(b));
        }
        r
    }

    /// As `sum_as_str_at`, at the wall-clock minute of the call.
    pub fn sum_as_str(&self) -> (r: String)
        requires
            self.wf(),
            sorted_by_time(self.times@),
        ensures
            exists|now: int|
                0 <= now < 1440 && r@ == format_duration_spec(
                    #[trigger] active_total(self.times@, now),
                ),
    {
        let now = now_minutes();
        let r = self.sum_as_str_at(now);
        proof {
            assert(r@ == format_duration_spec(active_total(self.times@, now as int)));
        }
        r
    }

    /// One folding step: pair `k`'s duration joins its label's bucket.
    fn add_pair(
        &self,
        b: &mut Vec<(String, i64)>,
        label: String,
        d: i64,
        Ghost(k): Ghost<int>,
        Ghost(now): Ghost<int>,
    )
        requires
            self.wf(),
            0 <= k < self.times@.len(),
            label@ == pair_label(self.times@, k),
            d == pair_duration(self.times@, now, k),
            -1440 < d < 1440,
            forall|p: int, q: int|
                0 <= p < q < old(b)@.len() ==> lex_lt(old(b)@[p].0@, old(b)@[q].0@),
            forall|l: Seq<char>|
                #[trigger] bucket_value(old(b)@, l) == if label_seen(self.times@, k, l) {
                    Some(total_for(self.times@, now, k, l))
                } else {
                    None::<int>
                },
            forall|i: int| 0 <= i < old(b)@.len() ==> 0 <= #[trigger] old(b)@[i].1 <= 1439,
            sum_values(old(b)@) == sum_durations(self.times@, now, k),
        ensures
            forall|p: int, q: int|
                0 <= p < q < final(b)@.len() ==> lex_lt(final(b)@[p].0@, final(b)@[q].0@),
            forall|l: Seq<char>|
                #[trigger] bucket_value(final(b)@, l) == if label_seen(self.times@, k + 1, l) {
                    Some(total_for(self.times@, now, k + 1, l))
                } else {
                    None::<int>
                },
            sum_values(final(b)@) == sum_durations(self.times@, now, k + 1),
    {
        let ghost s = self.times@;
        bump(b, label, d);
        proof {
            assert forall|l: Seq<char>|
                #[trigger] bucket_value(b@, l) == (if label_seen(s, k + 1, l) {
                    Some(total_for(s, now, k + 1, l))
                } else {
                    None::<int>
                }) by {
                if l == pair_label(s, k) {
                    assert(label_seen(s, k + 1, l)) by {
                        assert(0 <= k < k + 1 && pair_label(s, k) == l);
                    }
                    if !label_seen(s, k, l) {
                        lemma_total_unseen(s, now, k, l);
                    }
                } else {
                    assert(label_seen(s, k + 1, l) == label_seen(s, k, l)) by {
                        if label_seen(s, k + 1, l) {
                            let m = choose|m: int| 0 <= m < k + 1 && pair_label(s, m) == l;
                            assert(m < k);
                        }
                    }
                }
            }
        }
    }
}

} // verus!
