use vstd::prelude::*;

use crate::calculate_peaks::{
    calculate_peaks, confidence_num, lemma_bucket_le_sum, lemma_sum_update, peaks, sum_upto, total, Ratio,
};
use crate::calendar::{calendar_day, day_of_minute, CalendarDay};
use crate::manga::{Chapter, Manga};
use crate::ranking::{key_lt, sort_keys};
use vstd::relations::{sorted_by, total_ordering};
use crate::weekday::{weekday_from, NumberedWeekday};

verus! {

/// The cadence an item's updates follow.
#[derive(Debug, PartialEq, Eq)]
pub enum Schedule {
    /// A specific day of the week.
    Day(NumberedWeekday),
    /// Every so many days.
    Every(u8),
    /// A day of the month, the first being 0.
    Monthly(u8),
    Multiple(Vec<Schedule>),
    Unknown,
}

/// Which histogram a cadence was read from.
#[derive(Debug, Clone, Copy, PartialEq, Eq, Structural)]
pub enum CadenceKind {
    Weekday,
    Gap,
    MonthDay,
}

/// Number of buckets of the histogram of each kind.
pub open spec fn buckets(kind: CadenceKind) -> nat {
    match kind {
        CadenceKind::Weekday => 7,
        _ => 31,
    }
}

/// The label of a single peak at index `i` of the histogram of `kind`.
pub open spec fn single(kind: CadenceKind, i: int) -> Schedule {
    match kind {
        CadenceKind::Weekday => Schedule::Day(weekday_from(i)),
        CadenceKind::Gap => Schedule::Every(i as u8),
        CadenceKind::MonthDay => Schedule::Monthly(i as u8),
    }
}

impl Schedule {
    /// This label shows the cadence `c`: `None` is no cadence, else the kind
    /// of histogram and its peaks.
    pub open spec fn shows(self, c: Option<(CadenceKind, Seq<usize>)>) -> bool {
        match c {
            None => self is Unknown,
            Some((kind, p)) => if p.len() == 1 {
                self == single(kind, p[0] as int)
            } else {
                &&& self is Multiple
                &&& self->Multiple_0@.len() == p.len()
                &&& forall|k: int|
                    0 <= k < p.len() ==> #[trigger] self->Multiple_0@[k] == single(kind, p[k] as int)
            },
        }
    }
}

pub open spec fn same_day_as_previous(days: Seq<CalendarDay>, k: int) -> bool {
    k > 0 && days[k].day_number == days[k - 1].day_number
}

/// The first `n` days with each repeat of the day just before it left out.
pub open spec fn distinct_upto(days: Seq<CalendarDay>, n: int) -> Seq<CalendarDay>
    decreases n,
{
    if n <= 0 {
        Seq::empty()
    } else if same_day_as_previous(days, n - 1) {
        distinct_upto(days, n - 1)
    } else {
        distinct_upto(days, n - 1).push(days[n - 1])
    }
}

pub open spec fn distinct_days(days: Seq<CalendarDay>) -> Seq<CalendarDay> {
    distinct_upto(days, days.len() as int)
}

pub open spec fn zeros(n: nat) -> Seq<usize> {
    Seq::new(n, |i: int| 0usize)
}

pub open spec fn bump(h: Seq<usize>, i: int) -> Seq<usize> {
    h.update(i, (h[i] + 1) as usize)
}

/// Count of the first `n` days on each weekday.
pub open spec fn weekday_hist(d: Seq<CalendarDay>, n: int) -> Seq<usize>
    decreases n,
{
    if n <= 0 {
        zeros(7)
    } else {
        bump(weekday_hist(d, n - 1), d[n - 1].weekday as int)
    }
}

/// Count of the first `n` days on each day of the month.
pub open spec fn month_hist(d: Seq<CalendarDay>, n: int) -> Seq<usize>
    decreases n,
{
    if n <= 0 {
        zeros(31)
    } else {
        bump(month_hist(d, n - 1), d[n - 1].day0 as int)
    }
}

/// Count of the gaps, in days, between the first `n` days, with the day the
/// gaps are measured from. A gap is counted, and the day it ends becomes the
/// new base, only when it lies between 1 and 30 days.
pub open spec fn gap_hist(d: Seq<CalendarDay>, n: int) -> (Seq<usize>, int)
    decreases n,
{
    if n <= 0 {
        (zeros(31), d[0].day_number as int)
    } else {
        let (h, base) = gap_hist(d, n - 1);
        let gap = d[n - 1].day_number - base;
        if 0 < gap <= 30 {
            (bump(h, gap), d[n - 1].day_number as int)
        } else {
            (h, base)
        }
    }
}

/// The confidence of the histogram's peaks strictly exceeds `threshold`.
pub open spec fn confident(h: Seq<usize>, threshold: Ratio) -> bool {
    confidence_num(h) * threshold.value().1 > threshold.value().0 * h.len()
}

pub open spec fn has_cadence(h: Seq<usize>, threshold: Ratio) -> bool {
    peaks(h).len() > 0 && confident(h, threshold)
}

/// Too few distinct days, a span under 30 days, or a last update more than
/// 30 days before `now`.
pub open spec fn too_irregular(d: Seq<CalendarDay>, now: int) -> bool {
    d.len() < 2 || d.last().day_number - d[0].day_number < 30 || now - d.last().day_number > 30
}

/// The cadence of updates on the given days, taken in the order given and
/// checked on day `now`: weekday first, then gap, then day of month.
pub open spec fn sorted_cadence(days: Seq<CalendarDay>, now: int, threshold: Ratio) -> Option<
    (CadenceKind, Seq<usize>),
> {
    let d = distinct_days(days);
    if too_irregular(d, now) {
        None
    } else {
        let wk = weekday_hist(d, d.len() as int);
        let gp = gap_hist(d, d.len() as int).0;
        let mo = month_hist(d, d.len() as int);
        if has_cadence(wk, threshold) {
            Some((CadenceKind::Weekday, peaks(wk)))
        } else if has_cadence(gp, threshold) {
            Some((CadenceKind::Gap, peaks(gp)))
        } else if has_cadence(mo, threshold) {
            Some((CadenceKind::MonthDay, peaks(mo)))
        } else {
            None
        }
    }
}

/// The sort key of a day: its day number, then its weekday and day of month.
pub open spec fn day_key(d: CalendarDay) -> (i128, usize) {
    (d.day_number as i128, (d.weekday * 256 + d.day0) as usize)
}

/// The day a sort key stands for.
pub open spec fn key_day(k: (i128, usize)) -> CalendarDay {
    CalendarDay { day_number: k.0 as i32, weekday: (k.1 / 256) as u8, day0: (k.1 % 256) as u8 }
}

pub open spec fn key_le(x: (i128, usize), y: (i128, usize)) -> bool {
    !key_lt(y, x)
}

/// The given days in ascending order of day number (then of weekday and day
/// of month).
pub open spec fn sorted_days(days: Seq<CalendarDay>) -> Seq<CalendarDay> {
    days.map_values(|d: CalendarDay| day_key(d)).sort_by(
        |x: (i128, usize), y: (i128, usize)| key_le(x, y),
    ).map_values(|k: (i128, usize)| key_day(k))
}

/// The cadence of updates on the given days, in whatever order they come,
/// checked on day `now`: the days are sorted, repeats of a day dropped, and
/// the weekday histogram read first, then the gap one, then the day of month.
pub open spec fn cadence(days: Seq<CalendarDay>, now: int, threshold: Ratio) -> Option<
    (CadenceKind, Seq<usize>),
> {
    sorted_cadence(sorted_days(days), now, threshold)
}

proof fn lemma_key_order()
    ensures
        total_ordering(|x: (i128, usize), y: (i128, usize)| key_le(x, y)),
{
}

proof fn lemma_key_round_trip(d: CalendarDay)
    ensures
        key_day(day_key(d)) == d,
{
    let c = (d.weekday * 256 + d.day0) as usize;
    assert(c / 256 == d.weekday && c % 256 == d.day0) by (nonlinear_arith)
        requires
            c == d.weekday * 256 + d.day0,
            0 <= d.weekday < 256,
            0 <= d.day0 < 256,
    ;
}

/// The sorted days are the given days, each as often as given.
proof fn lemma_sorted_days_members(days: Seq<CalendarDay>)
    ensures
        sorted_days(days).len() == days.len(),
        forall|p: int| 0 <= p < sorted_days(days).len() ==> days.contains(#[trigger] sorted_days(days)[p]),
{
    broadcast use vstd::seq_lib::group_to_multiset_ensures;

    let leq = |x: (i128, usize), y: (i128, usize)| key_le(x, y);
    let keys = days.map_values(|d: CalendarDay| day_key(d));
    lemma_key_order();
    keys.lemma_sort_by_ensures(leq);
    let sorted = keys.sort_by(leq);
    assert(sorted.len() == sorted.to_multiset().len());
    assert(keys.len() == keys.to_multiset().len());
    assert forall|p: int| 0 <= p < sorted_days(days).len() implies days.contains(#[trigger] sorted_days(days)[p]) by {
        assert(sorted.contains(sorted[p]));
        assert(keys.contains(sorted[p]));
        let j = choose|j: int| 0 <= j < keys.len() && keys[j] == sorted[p];
        lemma_key_round_trip(days[j]);
        assert(keys[j] == day_key(days[j]));
        assert(sorted_days(days)[p] == key_day(sorted[p]));
        assert(days[j] == sorted_days(days)[p]);
    }
}

proof fn lemma_map_multiset<A, B>(s1: Seq<A>, s2: Seq<A>, f: spec_fn(A) -> B)
    requires
        s1.to_multiset() == s2.to_multiset(),
    ensures
        s1.map_values(f).to_multiset() == s2.map_values(f).to_multiset(),
    decreases s1.len(),
{
    broadcast use vstd::seq_lib::group_to_multiset_ensures;

    if s1.len() == 0 {
        assert(s2.len() == s2.to_multiset().len());
        assert(s1.map_values(f) =~= Seq::<B>::empty());
        assert(s2.map_values(f) =~= Seq::<B>::empty());
    } else {
        let x = s1.last();
        assert(s1.contains(x));
        assert(s2.to_multiset().count(x) > 0);
        assert(s2.contains(x));
        let i = choose|i: int| 0 <= i < s2.len() && s2[i] == x;
        let r1 = s1.drop_last();
        let r2 = s2.remove(i);
        assert(s1 =~= r1.push(x));
        assert(r1.to_multiset() =~= s1.to_multiset().remove(x));
        assert(r2.to_multiset() =~= s2.to_multiset().remove(x));
        lemma_map_multiset(r1, r2, f);
        assert(s1.map_values(f) =~= r1.map_values(f).push(f(x)));
        assert(s2.map_values(f).remove(i) =~= r2.map_values(f));
        assert(s2.map_values(f).remove(i).to_multiset() =~= s2.map_values(f).to_multiset().remove(f(x)));
        assert(s2.map_values(f).to_multiset().count(f(x)) > 0) by {
            assert(s2.map_values(f)[i] == f(x));
            assert(s2.map_values(f).contains(f(x)));
        }
    }
}

/// The cadence of a set of update days does not depend on the order the days
/// come in.
pub proof fn lemma_cadence_ignores_order(d1: Seq<CalendarDay>, d2: Seq<CalendarDay>, now: int, threshold: Ratio)
    requires
        d1.to_multiset() == d2.to_multiset(),
    ensures
        sorted_days(d1) == sorted_days(d2),
        cadence(d1, now, threshold) == cadence(d2, now, threshold),
{
    let leq = |x: (i128, usize), y: (i128, usize)| key_le(x, y);
    let k1 = d1.map_values(|d: CalendarDay| day_key(d));
    let k2 = d2.map_values(|d: CalendarDay| day_key(d));
    lemma_map_multiset(d1, d2, |d: CalendarDay| day_key(d));
    lemma_key_order();
    k1.lemma_sort_by_ensures(leq);
    k2.lemma_sort_by_ensures(leq);
    vstd::seq_lib::lemma_sorted_unique(k1.sort_by(leq), k2.sort_by(leq), leq);
    assert(k1.sort_by(leq) == k2.sort_by(leq));
}

proof fn lemma_zeros_sum(n: nat, k: int)
    requires
        0 <= k <= n,
    ensures
        sum_upto(zeros(n), k) == 0,
    decreases k,
{
    if k > 0 {
        lemma_zeros_sum(n, k - 1);
    }
}

/// Bumping a bucket of a histogram whose total is below `limit` adds one to
/// the total.
proof fn lemma_bump_total(h: Seq<usize>, i: int, limit: int)
    requires
        0 <= i < h.len(),
        total(h) < limit,
        limit <= usize::MAX,
    ensures
        total(bump(h, i)) == total(h) + 1,
        bump(h, i).len() == h.len(),
{
    lemma_bucket_le_sum(h, i, h.len() as int);
    lemma_sum_update(h, i, (h[i] + 1) as usize, h.len() as int);
}

proof fn lemma_distinct_from_days(days: Seq<CalendarDay>, n: int, w: int)
    requires
        0 <= n <= days.len(),
        forall|k: int| 0 <= k < days.len() ==> (#[trigger] days[k]).weekday == w,
    ensures
        forall|k: int|
            0 <= k < distinct_upto(days, n).len() ==> (#[trigger] distinct_upto(days, n)[k]).weekday
                == w,
        n > 0 ==> distinct_upto(days, n).len() > 0 && distinct_upto(days, n).last().day_number
            == days[n - 1].day_number,
    decreases n,
{
    if n > 0 {
        lemma_distinct_from_days(days, n - 1, w);
        let prev = distinct_upto(days, n - 1);
        if !same_day_as_previous(days, n - 1) {
            let cur = prev.push(days[n - 1]);
            assert forall|k: int| 0 <= k < cur.len() implies (#[trigger] cur[k]).weekday == w by {
                if k < prev.len() {
                    assert(cur[k] == prev[k]);
                }
            }
        }
    }
}

proof fn lemma_one_weekday_hist(d: Seq<CalendarDay>, n: int, w: int)
    requires
        0 <= n <= d.len(),
        d.len() <= usize::MAX,
        0 <= w < 7,
        forall|k: int| 0 <= k < d.len() ==> (#[trigger] d[k]).weekday == w,
    ensures
        weekday_hist(d, n) == zeros(7).update(w, n as usize),
    decreases n,
{
    if n > 0 {
        lemma_one_weekday_hist(d, n - 1, w);
        assert(weekday_hist(d, n) =~= zeros(7).update(w, n as usize));
    } else {
        assert(zeros(7).update(w, 0usize) =~= zeros(7));
    }
}

/// Updates on at least two distinct days, all on weekday `w`, spanning at
/// least 30 days and the latest of them at most 30 days before `now`, have the
/// cadence of that weekday, provided `w / 7` exceeds the confidence threshold
/// (the confidence of a single weekday peak is its number over seven).
pub proof fn lemma_one_weekday_cadence(days: Seq<CalendarDay>, now: int, threshold: Ratio, w: u8)
    requires
        w < 7,
        days.len() <= usize::MAX,
        forall|k: int| 0 <= k < days.len() ==> (#[trigger] days[k]).weekday == w,
        distinct_days(sorted_days(days)).len() >= 2,
        sorted_days(days).last().day_number - sorted_days(days)[0].day_number >= 30,
        now - sorted_days(days).last().day_number <= 30,
        w * threshold.value().1 > threshold.value().0 * 7,
    ensures
        cadence(days, now, threshold) == Some((CadenceKind::Weekday, seq![w as usize])),
        forall|r: Schedule| #[trigger]
            r.shows(cadence(days, now, threshold)) ==> r == Schedule::Day(weekday_from(w as int)),
{
    let s = sorted_days(days);
    lemma_sorted_days_members(days);
    assert forall|k: int| 0 <= k < s.len() implies (#[trigger] s[k]).weekday == w by {
        assert(days.contains(s[k]));
        let j = choose|j: int| 0 <= j < days.len() && days[j] == s[k];
    }
    let d = distinct_days(s);
    lemma_distinct_from_days(s, s.len() as int, w as int);
    lemma_distinct_len(s, s.len() as int);
    lemma_distinct_first(s);
    let m = d.len() as int;
    lemma_one_weekday_hist(d, m, w as int);
    let h = weekday_hist(d, m);
    assert(h =~= zeros(7).update(w as int, m as usize));
    lemma_zeros_sum(7, 7);
    lemma_sum_update(zeros(7), w as int, m as usize, 7);
    assert(total(h) == m);
    assert(m > m / 7 + 1);
    assert forall|k: int| 0 <= k < h.len() && k != w implies !crate::calculate_peaks::raised(h, k) by {}
    crate::calculate_peaks::lemma_single_raised_bucket_is_the_peak(h, w as usize);
    lemma_distinct_last(s, s.len() as int);
}

proof fn lemma_distinct_len(days: Seq<CalendarDay>, n: int)
    requires
        0 <= n <= days.len(),
    ensures
        distinct_upto(days, n).len() <= n,
    decreases n,
{
    if n > 0 {
        lemma_distinct_len(days, n - 1);
    }
}

proof fn lemma_distinct_first(days: Seq<CalendarDay>)
    requires
        days.len() > 0,
    ensures
        distinct_days(days).len() > 0,
        distinct_days(days)[0] == days[0],
{
    lemma_distinct_first_upto(days, days.len() as int);
}

proof fn lemma_distinct_first_upto(days: Seq<CalendarDay>, n: int)
    requires
        1 <= n <= days.len(),
    ensures
        distinct_upto(days, n).len() > 0,
        distinct_upto(days, n)[0] == days[0],
    decreases n,
{
    if n > 1 {
        lemma_distinct_first_upto(days, n - 1);
        let prev = distinct_upto(days, n - 1);
        if !same_day_as_previous(days, n - 1) {
            assert(prev.push(days[n - 1])[0] == prev[0]);
        }
    } else {
        assert(distinct_upto(days, 0) =~= Seq::<CalendarDay>::empty());
        assert(Seq::<CalendarDay>::empty().push(days[0])[0] == days[0]);
    }
}

/// Updates on fewer than two distinct days have no cadence.
pub proof fn lemma_too_few_days_unknown(days: Seq<CalendarDay>, now: int, threshold: Ratio)
    requires
        forall|i: int, j: int| 0 <= i < days.len() && 0 <= j < days.len() ==> days[i].day_number == days[j].day_number,
    ensures
        cadence(days, now, threshold) is None,
{
    let s = sorted_days(days);
    lemma_sorted_days_members(days);
    if s.len() > 0 {
        assert forall|k: int| 0 <= k < s.len() implies (#[trigger] s[k]).day_number == s[0].day_number by {
            assert(days.contains(s[k]));
        let j = choose|j: int| 0 <= j < days.len() && days[j] == s[k];
            assert(days.contains(s[0]));
            let j0 = choose|j: int| 0 <= j < days.len() && days[j] == s[0];
        }
        lemma_one_day_distinct(s, s.len() as int);
    }
}

proof fn lemma_one_day_distinct(days: Seq<CalendarDay>, n: int)
    requires
        0 < n <= days.len(),
        forall|i: int| 0 <= i < days.len() ==> (#[trigger] days[i]).day_number == days[0].day_number,
    ensures
        distinct_upto(days, n).len() == 1,
    decreases n,
{
    if n > 1 {
        lemma_one_day_distinct(days, n - 1);
        assert(same_day_as_previous(days, n - 1));
    } else {
        assert(distinct_upto(days, 0) =~= Seq::<CalendarDay>::empty());
    }
}

/// Updates all made more than 30 days before `now` have no cadence, however
/// regular they were.
pub proof fn lemma_stale_updates_unknown(days: Seq<CalendarDay>, now: int, threshold: Ratio)
    requires
        forall|k: int| 0 <= k < days.len() ==> now - (#[trigger] days[k]).day_number > 30,
    ensures
        cadence(days, now, threshold) is None,
{
    let s = sorted_days(days);
    lemma_sorted_days_members(days);
    if s.len() > 0 {
        lemma_distinct_last(s, s.len() as int);
        assert(days.contains(s[s.len() - 1]));
        let j = choose|j: int| 0 <= j < days.len() && days[j] == s[s.len() - 1];
    }
}

proof fn lemma_distinct_last(days: Seq<CalendarDay>, n: int)
    requires
        0 < n <= days.len(),
    ensures
        distinct_upto(days, n).len() > 0,
        distinct_upto(days, n).last().day_number == days[n - 1].day_number,
    decreases n,
{
    if n > 1 {
        lemma_distinct_last(days, n - 1);
    }
}

/// Builds the weekday, gap and day-of-month histograms of the given days.
fn histograms(d: &Vec<CalendarDay>) -> (r: (Vec<usize>, Vec<usize>, Vec<usize>))
    requires
        d@.len() > 0,
        forall|k: int| 0 <= k < d@.len() ==> (#[trigger] d@[k]).wf(),
    ensures
        r.0@ == weekday_hist(d@, d@.len() as int),
        r.1@ == gap_hist(d@, d@.len() as int).0,
        r.2@ == month_hist(d@, d@.len() as int),
        r.0@.len() == 7,
        r.1@.len() == 31,
        r.2@.len() == 31,
        total(r.0@) <= usize::MAX,
        total(r.1@) <= usize::MAX,
        total(r.2@) <= usize::MAX,
{
    let mut wk: Vec<usize> = Vec::new();
    let mut gp: Vec<usize> = Vec::new();
    let mut mo: Vec<usize> = Vec::new();
    let mut b: usize = 0;
    while b < 31
        invariant
            b <= 31,
            wk@ == zeros(if b < 7 { b as nat } else { 7 }),
            gp@ == zeros(b as nat),
            mo@ == zeros(b as nat),
        decreases 31 - b,
    {
        if b < 7 {
            wk.push(0);
        }
        gp.push(0);
        mo.push(0);
        b = b + 1;
        assert(wk@ =~= zeros(if b < 7 { b as nat } else { 7 }));
        assert(gp@ =~= zeros(b as nat));
        assert(mo@ =~= zeros(b as nat));
    }
    proof {
        lemma_zeros_sum(7, 7);
        lemma_zeros_sum(31, 31);
    }
    let n = d.len();
    let mut base: i32 = d[0].day_number;
    let mut k: usize = 0;
    while k < n
        invariant
            n == d@.len(),
            k <= n,
            forall|j: int| 0 <= j < d@.len() ==> (#[trigger] d@[j]).wf(),
            wk@ == weekday_hist(d@, k as int),
            mo@ == month_hist(d@, k as int),
            (gp@, base as int) == gap_hist(d@, k as int),
            wk@.len() == 7,
            gp@.len() == 31,
            mo@.len() == 31,
            total(wk@) == k,
            total(mo@) == k,
            total(gp@) <= k,
        decreases n - k,
    {
        let day = d[k];
        assert(day.wf());
        proof {
            lemma_bump_total(wk@, day.weekday as int, n as int);
            lemma_bump_total(mo@, day.day0 as int, n as int);
            lemma_bucket_le_sum(wk@, day.weekday as int, 7);
            lemma_bucket_le_sum(mo@, day.day0 as int, 31);
        }
        let w = day.weekday as usize;
        let cw = wk[w];
        wk.set(w, cw + 1);
        let m = day.day0 as usize;
        let cm = mo[m];
        mo.set(m, cm + 1);
        let gap: i64 = day.day_number as i64 - base as i64;
        if 0 < gap && gap <= 30 {
            proof {
                lemma_bump_total(gp@, gap as int, n as int);
                lemma_bucket_le_sum(gp@, gap as int, 31);
            }
            let g = gap as usize;
            let cg = gp[g];
            gp.set(g, cg + 1);
            base = day.day_number;
        }
        k = k + 1;
    }
    (wk, gp, mo)
}

fn single_label(kind: CadenceKind, i: usize) -> (r: Schedule)
    requires
        i < buckets(kind),
    ensures
        r == single(kind, i as int),
{
    match kind {
        CadenceKind::Weekday => Schedule::Day(NumberedWeekday::from_usize(i)),
        CadenceKind::Gap => Schedule::Every(i as u8),
        CadenceKind::MonthDay => Schedule::Monthly(i as u8),
    }
}

/// The label of the given peaks, all read from a histogram of `kind`.
fn peak_label(kind: CadenceKind, p: Vec<usize>) -> (r: Schedule)
    requires
        p@.len() > 0,
        forall|k: int| 0 <= k < p@.len() ==> p@[k] < buckets(kind),
    ensures
        r.shows(Some((kind, p@))),
{
    if p.len() == 1 {
        return single_label(kind, p[0]);
    }
    let mut labels: Vec<Schedule> = Vec::new();
    let mut k: usize = 0;
    while k < p.len()
        invariant
            k <= p@.len(),
            forall|j: int| 0 <= j < p@.len() ==> p@[j] < buckets(kind),
            labels@.len() == k,
            forall|j: int| 0 <= j < k ==> #[trigger] labels@[j] == single(kind, p@[j] as int),
        decreases p@.len() - k,
    {
        labels.push(single_label(kind, p[k]));
        k = k + 1;
    }
    Schedule::Multiple(labels)
}

/// Reads a cadence from one histogram, when its peaks are confident enough.
fn read_histogram(kind: CadenceKind, h: Vec<usize>, threshold: Ratio) -> (r: Option<Schedule>)
    requires
        h@.len() == buckets(kind),
        total(h@) <= usize::MAX,
    ensures
        has_cadence(h@, threshold) <==> r is Some,
        r matches Some(s) ==> s.shows(Some((kind, peaks(h@)))),
{
    let ghost hv = h@;
    let (confidence, p) = calculate_peaks(h);
    if p.len() > 0 && confidence.gt(&threshold) {
        Some(peak_label(kind, p))
    } else {
        None
    }
}

/// The calendar days of the first `n` updates, unless one of them cannot be
/// placed on the calendar.
pub open spec fn update_days(chapters: Seq<Chapter>, n: int) -> Option<Seq<CalendarDay>>
    decreases n,
{
    if n <= 0 {
        Some(Seq::empty())
    } else {
        match (update_days(chapters, n - 1), day_of_minute(chapters[n - 1].date as int)) {
            (Some(s), Some(c)) => Some(s.push(c)),
            _ => None,
        }
    }
}

proof fn lemma_update_days_stays_none(chapters: Seq<Chapter>, i: int, n: int)
    requires
        0 < i <= n,
        update_days(chapters, i) is None,
    ensures
        update_days(chapters, n) is None,
    decreases n - i,
{
    if i < n {
        lemma_update_days_stays_none(chapters, i + 1, n);
    }
}

/// The cadence of an item's updates, checked at minute `now`; none when a
/// time cannot be placed on the calendar.
pub open spec fn manga_cadence(m: Manga, now: int, threshold: Ratio) -> Option<
    (CadenceKind, Seq<usize>),
> {
    match (day_of_minute(now), update_days(m.chapters@, m.chapters@.len() as int)) {
        (Some(today), Some(days)) => cadence(days, today.day_number as int, threshold),
        _ => None,
    }
}

/// Where a label sorts: unknown first, then weekday, gap and day-of-month
/// labels by their number, then labels of several peaks, all alike.
pub open spec fn order_key(s: Schedule) -> (int, int) {
    match s {
        Schedule::Unknown => (0, 0),
        Schedule::Day(d) => (1, d.number() as int),
        Schedule::Every(n) => (2, n as int),
        Schedule::Monthly(n) => (3, n as int),
        Schedule::Multiple(_) => (4, 0),
    }
}

/// The days in ascending order of day number, then of weekday and day of month.
fn sort_days(days: &Vec<CalendarDay>) -> (r: Vec<CalendarDay>)
    requires
        forall|k: int| 0 <= k < days@.len() ==> (#[trigger] days@[k]).wf(),
    ensures
        r@ == sorted_days(days@),
        forall|k: int| 0 <= k < r@.len() ==> (#[trigger] r@[k]).wf(),
{
    let mut keys: Vec<(i128, usize)> = Vec::new();
    let mut i: usize = 0;
    while i < days.len()
        invariant
            i <= days@.len(),
            keys@ == days@.take(i as int).map_values(|d: CalendarDay| day_key(d)),
        decreases days@.len() - i,
    {
        let d = days[i];
        keys.push((d.day_number as i128, d.weekday as usize * 256 + d.day0 as usize));
        assert(keys@.last() == day_key(d));
        i = i + 1;
        assert(keys@ =~= days@.take(i as int).map_values(|d: CalendarDay| day_key(d)));
    }
    assert(days@.take(i as int) =~= days@);
    let ghost unsorted = keys@;
    sort_keys(&mut keys);
    let ghost leq = |x: (i128, usize), y: (i128, usize)| key_le(x, y);
    proof {
        lemma_key_order();
        unsorted.lemma_sort_by_ensures(leq);
        assert(sorted_by(keys@, leq));
        vstd::seq_lib::lemma_sorted_unique(keys@, unsorted.sort_by(leq), leq);
    }
    let mut r: Vec<CalendarDay> = Vec::new();
    let mut j: usize = 0;
    while j < keys.len()
        invariant
            j <= keys@.len(),
            r@ == keys@.take(j as int).map_values(|k: (i128, usize)| key_day(k)),
        decreases keys@.len() - j,
    {
        let k = keys[j];
        r.push(CalendarDay { day_number: k.0 as i32, weekday: (k.1 / 256) as u8, day0: (k.1 % 256) as u8 });
        j = j + 1;
        assert(r@ =~= keys@.take(j as int).map_values(|k: (i128, usize)| key_day(k)));
    }
    assert(keys@.take(j as int) =~= keys@);
    proof {
        lemma_sorted_days_members(days@);
        assert forall|k: int| 0 <= k < r@.len() implies (#[trigger] r@[k]).wf() by {
            assert(days@.contains(r@[k]));
        }
    }
    r
}

impl Schedule {
    fn order_pair(&self) -> (r: (u32, u32))
        ensures
            r.0 == order_key(*self).0,
            r.1 == order_key(*self).1,
    {
        match self {
            Schedule::Unknown => (0, 0),
            Schedule::Day(d) => (1, d.num_days_from_monday()),
            Schedule::Every(n) => (2, *n as u32),
            Schedule::Monthly(n) => (3, *n as u32),
            Schedule::Multiple(_) => (4, 0),
        }
    }

    /// Compares two labels for display: unknown first, then weekday, gap
    /// and day-of-month labels by their number, then labels of several
    /// peaks, which compare equal among themselves.
    pub fn compare(&self, other: &Schedule) -> (r: std::cmp::Ordering)
        ensures
            ({
                let (a, b) = (order_key(*self), order_key(*other));
                r == if a.0 < b.0 || (a.0 == b.0 && a.1 < b.1) {
                    std::cmp::Ordering::Less
                } else if a == b {
                    std::cmp::Ordering::Equal
                } else {
                    std::cmp::Ordering::Greater
                }
            }),
    {
        let a = self.order_pair();
        let b = other.order_pair();
        if a.0 < b.0 || (a.0 == b.0 && a.1 < b.1) {
            std::cmp::Ordering::Less
        } else if a.0 == b.0 && a.1 == b.1 {
            std::cmp::Ordering::Equal
        } else {
            std::cmp::Ordering::Greater
        }
    }

    /// Classifies the cadence of each item's updates, checked at minute `now`
    /// (minutes count from the Unix epoch, in UTC).
    pub fn calculate_schedule(m: &Vec<Manga>, now: i64, threshold: Ratio) -> (r: Vec<Schedule>)
        ensures
            r@.len() == m@.len(),
            forall|i: int| 0 <= i < m@.len() ==> (#[trigger] r@[i]).shows(manga_cadence(m@[i], now as int, threshold)),
    {
        let today = calendar_day(now);
        let mut sched: Vec<Schedule> = Vec::new();
        let mut i: usize = 0;
        while i < m.len()
            invariant
                i <= m@.len(),
                today == day_of_minute(now as int),
                today matches Some(c) ==> c.wf(),
                sched@.len() == i,
                forall|j: int| 0 <= j < i ==> (#[trigger] sched@[j]).shows(manga_cadence(m@[j], now as int, threshold)),
            decreases m@.len() - i,
        {
            let label = match today {
                Some(t) => Schedule::for_manga(&m[i], t.day_number, threshold),
                None => Schedule::Unknown,
            };
            sched.push(label);
            i = i + 1;
        }
        sched
    }

    /// Classifies one item's updates, checked on day `now_day`.
    fn for_manga(m: &Manga, now_day: i32, threshold: Ratio) -> (r: Schedule)
        ensures
            r.shows(
                match update_days(m.chapters@, m.chapters@.len() as int) {
                    Some(days) => cadence(days, now_day as int, threshold),
                    None => None,
                },
            ),
    {
        let mut days: Vec<CalendarDay> = Vec::new();
        let mut k: usize = 0;
        while k < m.chapters.len()
            invariant
                k <= m.chapters@.len(),
                update_days(m.chapters@, k as int) == Some(days@),
                forall|j: int| 0 <= j < days@.len() ==> (#[trigger] days@[j]).wf(),
            decreases m.chapters@.len() - k,
        {
            match calendar_day(m.chapters[k].date) {
                Some(c) => days.push(c),
                None => {
                    proof {
                        lemma_update_days_stays_none(m.chapters@, k as int + 1, m.chapters@.len() as int);
                    }
                    return Schedule::Unknown;
                },
            }
            k = k + 1;
        }
        Schedule::classify(&days, now_day, threshold)
    }

    /// Classifies the cadence of updates made on the given days, in any
    /// order, checked on day `now_day`, where a cadence's confidence must
    /// exceed `threshold`.
    pub fn classify(days: &Vec<CalendarDay>, now_day: i32, threshold: Ratio) -> (r: Schedule)
        requires
            forall|k: int| 0 <= k < days@.len() ==> (#[trigger] days@[k]).wf(),
        ensures
            r.shows(cadence(days@, now_day as int, threshold)),
    {
        let sorted = sort_days(days);
        Schedule::classify_sorted(&sorted, now_day, threshold)
    }

    /// Classifies the cadence of updates made on the given days, taken in the
    /// order given.
    fn classify_sorted(days: &Vec<CalendarDay>, now_day: i32, threshold: Ratio) -> (r: Schedule)
        requires
            forall|k: int| 0 <= k < days@.len() ==> (#[trigger] days@[k]).wf(),
        ensures
            r.shows(sorted_cadence(days@, now_day as int, threshold)),
    {
        let mut d: Vec<CalendarDay> = Vec::new();
        let mut k: usize = 0;
        while k < days.len()
            invariant
                k <= days@.len(),
                d@ == distinct_upto(days@, k as int),
                forall|j: int| 0 <= j < days@.len() ==> (#[trigger] days@[j]).wf(),
                forall|j: int| 0 <= j < d@.len() ==> (#[trigger] d@[j]).wf(),
            decreases days@.len() - k,
        {
            if k == 0 || days[k].day_number != days[k - 1].day_number {
                d.push(days[k]);
            }
            k = k + 1;
        }
        assert(d@ == distinct_days(days@));
        if d.len() < 2 {
            return Schedule::Unknown;
        }
        let first = d[0].day_number as i64;
        let last = d[d.len() - 1].day_number as i64;
        if last - first < 30 || now_day as i64 - last > 30 {
            return Schedule::Unknown;
        }
        let (wk, gp, mo) = histograms(&d);
        if let Some(s) = read_histogram(CadenceKind::Weekday, wk, threshold) {
            return s;
        }
        if let Some(s) = read_histogram(CadenceKind::Gap, gp, threshold) {
            return s;
        }
        if let Some(s) = read_histogram(CadenceKind::MonthDay, mo, threshold) {
            return s;
        }
        Schedule::Unknown
    }
}

} // verus!
