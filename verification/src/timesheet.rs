//! The ledger: an ordered sequence of timestamped entries, a selection,
//! and a one-slot register, together with the commit logic that keeps the
//! sequence sorted and the summary queries built on it.

use vstd::prelude::*;
use vstd::string::StrSliceExecFns;
use vstd::string::StringExecFns;
use vstd::arithmetic::div_mod::lemma_fundamental_div_mod;
use vstd::arithmetic::div_mod::lemma_mod_mod;
use vstd::arithmetic::div_mod::lemma_mod_multiples_basic;
use vstd::arithmetic::div_mod::lemma_mod_multiples_vanish;
use crate::strutil::dec_str_signed;
use crate::strutil::push_char;
use crate::strutil::push_dec_i64;
use crate::strutil::push_two_digits;
use crate::strutil::two_digits;
use crate::timepoint::label_part;
use crate::timepoint::parse_prefix_spec;
use crate::timepoint::prefix_seq;
use crate::timepoint::push_prefix;
use crate::timepoint::TimePoint;
use crate::listview::ListView;

verus! {

broadcast use vstd::seq_lib::group_to_multiset_ensures;

/// The ledger of the day.
pub struct TimeSheet {
    pub times: Vec<TimePoint>,
    pub selected: usize,
    pub register: Option<TimePoint>,
}

/// Entries in non-decreasing time order.
pub open spec fn sorted_by_time(s: Seq<TimePoint>) -> bool {
    forall|i: int, j: int| 0 <= i < j < s.len() ==> s[i].time <= s[j].time
}

/// Every entry time lies within the day.
pub open spec fn times_wf(s: Seq<TimePoint>) -> bool {
    forall|i: int| 0 <= i < s.len() ==> s[i].wf()
}

/// What a loaded entry list must look like to be accepted as-is.
pub open spec fn acceptable(s: Seq<TimePoint>) -> bool {
    s.len() >= 1 && times_wf(s) && sorted_by_time(s)
}

/// A fresh sheet's single seed entry, labelled `"start"`.
pub open spec fn fresh_start(s: Seq<TimePoint>) -> bool {
    s.len() == 1 && s[0].wf() && s[0].text@ == prefix_seq(s[0].time as int) + "start"@
}

/// The selected time after a shift: moved by `delta` minutes within the
/// day, then rounded down to the previous multiple of five minutes.
pub open spec fn shifted_time(t: int, delta: int) -> int {
    let w = (t + delta) % 1440;
    w - w % 5
}

/// The hours a duration shows: whole hours, truncated toward zero.
pub open spec fn hours_of(m: int) -> int {
    if m >= 0 {
        m / 60
    } else {
        -((-m) / 60)
    }
}

/// The rendering of a duration in minutes as `"H:MM"`.  A duration below
/// one minute deliberately shows as one minute, never as zero.
pub open spec fn format_duration_spec(m: int) -> Seq<char> {
    dec_str_signed(hours_of(m)) + seq![':'] + two_digits((if m < 1 {
        1
    } else {
        m
    }) % 60)
}

/// A sequence that is non-decreasing between neighbours is sorted.
proof fn lemma_adjacent_implies_sorted(s: Seq<TimePoint>)
    requires
        forall|k: int| 0 <= k < s.len() - 1 ==> #[trigger] s[k].time <= s[k + 1].time,
    ensures
        sorted_by_time(s),
{
    assert forall|i: int, j: int| 0 <= i < j < s.len() implies s[i].time <= s[j].time by {
        lemma_time_chain(s, i, j);
    }
}

/// Chained comparison along neighbours.
proof fn lemma_time_chain(s: Seq<TimePoint>, i: int, j: int)
    requires
        forall|k: int| 0 <= k < s.len() - 1 ==> #[trigger] s[k].time <= s[k + 1].time,
        0 <= i <= j < s.len(),
    ensures
        s[i].time <= s[j].time,
    decreases j - i,
{
    if i < j {
        lemma_time_chain(s, i, j - 1);
        assert(s[j - 1].time <= s[j].time);
    }
}

/// Decides whether the entries are in non-decreasing time order.
pub fn is_sorted(v: &Vec<TimePoint>) -> (r: bool)
    ensures
        r == sorted_by_time(v@),
{
    let mut k: usize = 1;
    while k < v.len()
        invariant
            1 <= k,
            k <= v@.len() || v@.len() == 0,
            forall|m: int| 0 <= m < k - 1 ==> #[trigger] v@[m].time <= v@[m + 1].time,
        decreases v@.len() - k,
    {
        if v[k - 1].time > v[k].time {
            return false;
        }
        k = k + 1;
    }
    proof {
        lemma_adjacent_implies_sorted(v@);
    }
    true
}

/// Decides whether every entry time lies within the day.
fn times_ok(v: &Vec<TimePoint>) -> (r: bool)
    ensures
        r == times_wf(v@),
{
    let mut k: usize = 0;
    while k < v.len()
        invariant
            k <= v@.len(),
            forall|m: int| 0 <= m < k ==> v@[m].wf(),
        decreases v@.len() - k,
    {
        if v[k].time >= 1440 {
            return false;
        }
        k = k + 1;
    }
    true
}

/// The one-entry list a fresh sheet starts from.
fn fresh_vec() -> (v: Vec<TimePoint>)
    ensures
        fresh_start(v@),
        sorted_by_time(v@),
{
    let mut v: Vec<TimePoint> = Vec::new();
    v.push(TimePoint::new("start"));
    v
}

/// Renders a duration in minutes as `"H:MM"`.
pub fn format_duration(minutes: i64) -> (r: String)
    ensures
        r@ == format_duration_spec(minutes as int),
{
    let mut s = String::new();
    let hours: i64 = if minutes >= 0 {
        ((minutes as u64) / 60) as i64
    } else {
        let neg: u64 = (-(minutes as i128)) as u64;
        -((neg / 60) as i64)
    };
    assert(hours == hours_of(minutes as int));
    push_dec_i64(&mut s, hours);
    push_char(&mut s, ':');
    let base: i64 = if minutes < 1 {
        1
    } else {
        minutes
    };
    let mm: u64 = (base as u64) % 60;
    push_two_digits(&mut s, mm);
    proof {
        assert(s@ =~= format_duration_spec(minutes as int));
    }
    s
}

impl TimeSheet {
    /// The sheet's standing shape: at least one entry, a valid selection,
    /// and every time within the day.
    pub open spec fn wf(&self) -> bool {
        &&& self.times@.len() >= 1
        &&& self.selected < self.times@.len()
        &&& times_wf(self.times@)
        &&& (match self.register {
            Some(t) => t.wf(),
            None => true,
        })
    }

    /// Decides the standing shape, so an unverified caller can test it.
    pub fn check_wf(&self) -> (r: bool)
        ensures
            r == self.wf(),
    {
        self.times.len() >= 1 && self.selected < self.times.len() && times_ok(&self.times)
            && (match &self.register {
            Some(t) => t.time < 1440,
            None => true,
        })
    }

    /// Builds a sheet from loaded entries; a missing, empty, ill-timed or
    /// unordered list is replaced by a fresh one-entry sheet.
    pub fn from_loaded(loaded: Option<Vec<TimePoint>>) -> (r: Self)
        ensures
            r.wf(),
            sorted_by_time(r.times@),
            r.selected == 0,
            r.register is None,
            match loaded {
                Some(v) => if acceptable(v@) {
                    r.times@ == v@
                } else {
                    fresh_start(r.times@)
                },
                None => fresh_start(r.times@),
            },
    {
        let times: Vec<TimePoint> = match loaded {
            Some(v) => {
                if v.len() >= 1 && times_ok(&v) && is_sorted(&v) {
                    v
                } else {
                    fresh_vec()
                }
            },
            None => fresh_vec(),
        };
        TimeSheet { times, selected: 0, register: None }
    }

    /// The display lines, one per entry, verbatim.
    pub fn printable(&self) -> (r: Vec<String>)
        ensures
            r@.len() == self.times@.len(),
            forall|i: int| 0 <= i < r@.len() ==> #[trigger] r@[i]@ == self.times@[i].text@,
    {
        let mut out: Vec<String> = Vec::new();
        let mut k: usize = 0;
        while k < self.times.len()
            invariant
                k <= self.times@.len(),
                out@.len() == k,
                forall|i: int| 0 <= i < k ==> #[trigger] out@[i]@ == self.times@[i].text@,
            decreases self.times@.len() - k,
        {
            out.push(self.times[k].display());
            k = k + 1;
        }
        out
    }

    /// The selected entry.
    fn current(&self) -> (r: &TimePoint)
        requires
            self.wf(),
        ensures
            *r == self.times@[self.selected as int],
    {
        &self.times[self.selected]
    }

    /// Moves the selected entry's time by `delta` minutes, wrapping within
    /// the day, then rounds it down to the nearest multiple of five; the
    /// display text is left as it stands until the next commit.
    pub fn shift_current(&mut self, delta: i64)
        requires
            old(self).wf(),
        ensures
            final(self).wf(),
            final(self).selected == old(self).selected,
            final(self).register == old(self).register,
            final(self).times@.len() == old(self).times@.len(),
            forall|i: int|
                0 <= i < old(self).times@.len() && i != old(self).selected
                    ==> final(self).times@[i] == old(self).times@[i],
            final(self).times@[old(self).selected as int].text@
                == old(self).times@[old(self).selected as int].text@,
            final(self).times@[old(self).selected as int].time as int == shifted_time(
                old(self).times@[old(self).selected as int].time as int,
                delta as int,
            ),
            final(self).times@[old(self).selected as int].time % 5 == 0,
            (final(self).times@[old(self).selected as int].time % 60) % 5 == 0,
    {
        let sel = self.selected;
        let t0: u16 = self.times[sel].time;
        let sum: i128 = t0 as i128 + delta as i128;
        let big: i128 = 1440 * 9007199254740992;
        let shifted: i128 = sum + big;
        proof {
            assert(shifted >= 0);
            lemma_mod_multiples_vanish(9007199254740992, sum as int, 1440);
        }
        let w: u16 = ((shifted as u128) % 1440) as u16;
        proof {
            assert(w as int == (t0 + delta) % 1440);
        }
        let w5: u16 = w - w % 5;
        proof {
            lemma_fundamental_div_mod(w as int, 5);
            assert(w5 as int == 5 * ((w as int) / 5));
            lemma_mod_multiples_basic((w as int) / 5, 5);
            lemma_mod_mod(w5 as int, 5, 12);
        }
        let e = &mut self.times[sel];
        e.time = w5;
    }
}

/// The entry as a commit rewrites it: the label part kept, the time taken
/// from the prefix when it parses (the previous time otherwise), and the
/// display text rebuilt from both.
pub open spec fn committed_entry(e: TimePoint, cur: TimePoint) -> bool {
    let lbl = label_part(cur.text@);
    let t = match parse_prefix_spec(cur.text@) {
        Some(p) => p.0,
        None => cur.time as int,
    };
    e.time as int == t && e.text@ == prefix_seq(t) + lbl
}

/// Sorts the entries by time with an insertion sort, keeping the multiset
/// of entries and every time's validity.
fn sort_entries(v: &mut Vec<TimePoint>)
    requires
        times_wf(old(v)@),
    ensures
        sorted_by_time(final(v)@),
        final(v)@.to_multiset() == old(v)@.to_multiset(),
        final(v)@.len() == old(v)@.len(),
        times_wf(final(v)@),
{
    let ghost orig = v@;
    let mut i: usize = 1;
    while i < v.len()
        invariant
            1 <= i,
            v@.len() == orig.len(),
            v@.to_multiset() == orig.to_multiset(),
            times_wf(v@),
            forall|a: int, b: int| 0 <= a < b < i && b < v@.len() ==> v@[a].time <= v@[b].time,
        decreases v@.len() - i,
    {
        let mut j: usize = i;
        while j > 0 && v[j - 1].time > v[j].time
            invariant
                j <= i < v@.len(),
                v@.len() == orig.len(),
                v@.to_multiset() == orig.to_multiset(),
                times_wf(v@),
                forall|a: int, b: int|
                    0 <= a < b <= i && a != j && b != j ==> v@[a].time <= v@[b].time,
                forall|b: int| j < b <= i ==> v@[j as int].time <= v@[b].time,
            decreases j,
        {
            let ghost prev = v@;
            let x = v.remove(j - 1);
            v.insert(j, x);
            proof {
                assert(v@ =~= prev.update(j - 1, prev[j as int]).update(j as int, prev[j - 1]));
                assert(v@ == prev.remove(j - 1).insert(j as int, x));
                assert(prev.contains(prev[j - 1])) by {
                    assert(prev[j - 1] == prev[j - 1]);
                }
                assert(prev.to_multiset().count(prev[j - 1]) > 0);
                assert(prev.remove(j - 1).to_multiset() == prev.to_multiset().remove(
                    prev[j - 1],
                ));
                assert(v@.to_multiset() == prev.remove(j - 1).to_multiset().insert(x));
                assert(v@.to_multiset() =~= prev.to_multiset());
            }
            j = j - 1;
        }
        proof {
            assert forall|a: int, b: int| 0 <= a < b <= i implies v@[a].time <= v@[b].time by {
                if b == j as int {
                    if a < j - 1 {
                        assert(v@[a].time <= v@[j - 1].time);
                    }
                } else if a == j as int {
                    assert(v@[a].time <= v@[b].time);
                }
            }
        }
        i = i + 1;
    }
}

impl ListView<TimePoint> for TimeSheet {
    open spec fn items(&self) -> Seq<TimePoint> {
        self.times@
    }

    open spec fn sel(&self) -> int {
        self.selected as int
    }

    open spec fn reg(&self) -> Option<TimePoint> {
        self.register
    }

    open spec fn item_inv(t: TimePoint) -> bool {
        t.wf()
    }

    open spec fn view_inv(&self) -> bool {
        self.wf()
    }

    fn selection(&self) -> usize {
        self.selected
    }

    fn length(&self) -> usize {
        self.times.len()
    }

    fn set_selection(&mut self, i: usize) {
        self.selected = i;
    }

    fn take_at(&mut self, i: usize) -> TimePoint {
        self.times.remove(i)
    }

    fn put_at(&mut self, i: usize, t: TimePoint) {
        self.times.insert(i, t);
    }

    fn take_register(&mut self) -> Option<TimePoint> {
        self.register.take()
    }

    fn set_register(&mut self, t: TimePoint) {
        self.register = Some(t);
    }

    fn fresh_item(&self) -> TimePoint {
        TimePoint::new("")
    }

    /// The commit: split the selected entry's text into prefix and label.
    /// An empty label deletes the entry (the cut register receives it and
    /// the selection moves one up).  Otherwise the time is re-read from the
    /// prefix where that parses — kept as it was where it does not — the
    /// display text is rebuilt, and the entries are resorted by time.
    fn normal_mode(&mut self)
        ensures
            final(self).wf(),
            sorted_by_time(old(self).times@.remove(old(self).selected as int))
                ==> sorted_by_time(final(self).times@),
            ({
                let sel = old(self).selected as int;
                let cur = old(self).times@[sel];
                let lbl = label_part(cur.text@);
                if lbl.len() == 0 {
                    &&& final(self).register == Some(cur)
                    &&& final(self).selected as int == if sel > 0 {
                        sel - 1
                    } else {
                        0
                    }
                    &&& (old(self).times@.len() > 1 ==> final(self).times@ == old(
                        self,
                    ).times@.remove(sel))
                    &&& (old(self).times@.len() == 1 ==> final(self).times@.len() == 1)
                } else {
                    &&& final(self).selected == old(self).selected
                    &&& final(self).register == old(self).register
                    &&& final(self).times@.len() == old(self).times@.len()
                    &&& sorted_by_time(final(self).times@)
                    &&& exists|e: TimePoint|
                        #[trigger] committed_entry(e, cur) && final(self).times@.to_multiset()
                            == old(self).times@.update(sel, e).to_multiset()
                }
            }),
    {
        let sel = self.selected;
        let parsed = TimePoint::parse_prefix(self.current().text.as_str());
        let pair: (u16, String) = match parsed {
            Some(p) => p,
            None => (self.times[sel].time, self.times[sel].text.clone()),
        };
        let newt: u16 = pair.0;
        let lbl: String = pair.1;
        if lbl.as_str().unicode_len() == 0 {
            self.remove_current();
        } else {
            let mut ntext = String::new();
            push_prefix(&mut ntext, newt);
            ntext.append(lbl.as_str());
            let ghost cur = self.times@[sel as int];
            let e = &mut self.times[sel];
            e.time = newt;
            e.text = ntext;
            let ghost witness = self.times@[sel as int];
            proof {
                assert(committed_entry(witness, cur));
                assert(self.times@ =~= old(self).times@.update(sel as int, witness));
            }
            sort_entries(&mut self.times);
        }
    }

    /// The typed character goes onto the end of the selected entry's text.
    fn append_to_current(&mut self, chr: char)
        ensures
            final(self).wf(),
            final(self).selected == old(self).selected,
            final(self).register == old(self).register,
            final(self).times@.len() == old(self).times@.len(),
            forall|i: int|
                0 <= i < old(self).times@.len() && i != old(self).selected
                    ==> final(self).times@[i] == old(self).times@[i],
            final(self).times@[old(self).selected as int].time
                == old(self).times@[old(self).selected as int].time,
            final(self).times@[old(self).selected as int].text@
                == old(self).times@[old(self).selected as int].text@ + seq![chr],
    {
        let sel = self.selected;
        let e = &mut self.times[sel];
        push_char(&mut e.text, chr);
    }

    /// The last character of the selected entry's text is removed.
    fn backspace(&mut self)
        ensures
            final(self).wf(),
            final(self).selected == old(self).selected,
            final(self).register == old(self).register,
            final(self).times@.len() == old(self).times@.len(),
            forall|i: int|
                0 <= i < old(self).times@.len() && i != old(self).selected
                    ==> final(self).times@[i] == old(self).times@[i],
            final(self).times@[old(self).selected as int].time
                == old(self).times@[old(self).selected as int].time,
            final(self).times@[old(self).selected as int].text@ == ({
                let t = old(self).times@[old(self).selected as int].text@;
                if t.len() == 0 {
                    t
                } else {
                    t.drop_last()
                }
            }),
    {
        let sel = self.selected;
        let e = &mut self.times[sel];
        crate::strutil::pop_char(&mut e.text);
    }
}

} // verus!
