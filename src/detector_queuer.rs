use vstd::prelude::*;

use crate::manga::{Chapter, Comment, Manga};

verus! {

/// Polls each client can make per simulated minute.
pub const SCAN_PER_MINUTE: i64 = 30;

/// Minutes without a poll after which an item is polled ahead of the others.
pub const STALE_MINUTES: i64 = 90;

/// Length in minutes of the trailing window over which growth is counted.
pub const GROWTH_WINDOW: i64 = 1440;

/// Minutes of staleness at which the boost is largest.
pub const BOOST_PEAK: i64 = 1440;

/// Divisor of the boost's parabola: half of `BOOST_PEAK` squared, so that
/// the parabola reaches 2 at `BOOST_PEAK`.
pub const BOOST_DIVISOR: i64 = 1036800;

/// `x` held within the bounds of `i32`.
pub open spec fn clamp32(x: int) -> int {
    if x > i32::MAX {
        i32::MAX as int
    } else if x < i32::MIN {
        i32::MIN as int
    } else {
        x
    }
}

/// `x` held within the bounds of `i64`.
pub open spec fn clamp64(x: int) -> int {
    if x > i64::MAX {
        i64::MAX as int
    } else if x < i64::MIN {
        i64::MIN as int
    } else {
        x
    }
}

/// What a poll, a tick or a whole horizon found: events found, polls made and
/// the summed minutes between each found event and the poll that found it.
/// Counters saturate at their type's maximum.
#[derive(Debug, Clone, Copy, PartialEq, Eq, Structural)]
pub struct ScanResult {
    pub found: i32,
    pub scanned: i32,
    pub time_to_scan: i64,
}

impl ScanResult {
    /// All counters are non-negative.
    pub open spec fn wf(self) -> bool {
        self.found >= 0 && self.scanned >= 0 && self.time_to_scan >= 0
    }

    pub open spec fn spec_zero() -> ScanResult {
        ScanResult { found: 0, scanned: 0, time_to_scan: 0 }
    }

    /// Field-wise saturating sum.
    pub open spec fn combined(self, other: ScanResult) -> ScanResult {
        ScanResult {
            found: clamp32(self.found + other.found) as i32,
            scanned: clamp32(self.scanned + other.scanned) as i32,
            time_to_scan: clamp64(self.time_to_scan + other.time_to_scan) as i64,
        }
    }

    /// The result of a single poll.
    pub fn new(found: i32, time_to_scan: i64) -> (r: ScanResult)
        ensures
            r == (ScanResult { found, scanned: 1, time_to_scan }),
    {
        ScanResult { found, time_to_scan, scanned: 1 }
    }

    /// The result of no poll at all.
    pub fn zero() -> (r: ScanResult)
        ensures
            r == ScanResult::spec_zero(),
    {
        ScanResult { found: 0, scanned: 0, time_to_scan: 0 }
    }

    /// Adds each counter, saturating at the type's bounds.
    pub fn combine(self, other: ScanResult) -> (r: ScanResult)
        ensures
            r == self.combined(other),
    {
        let f: i64 = self.found as i64 + other.found as i64;
        let s: i64 = self.scanned as i64 + other.scanned as i64;
        let t: i128 = self.time_to_scan as i128 + other.time_to_scan as i128;
        ScanResult {
            found: if f > i32::MAX as i64 {
                i32::MAX
            } else if f < i32::MIN as i64 {
                i32::MIN
            } else {
                f as i32
            },
            scanned: if s > i32::MAX as i64 {
                i32::MAX
            } else if s < i32::MIN as i64 {
                i32::MIN
            } else {
                s as i32
            },
            time_to_scan: if t > i64::MAX as i128 {
                i64::MAX
            } else if t < i64::MIN as i128 {
                i64::MIN
            } else {
                t as i64
            },
        }
    }
}

impl std::ops::Add for ScanResult {
    type Output = ScanResult;

    /// Adds each counter, saturating at the type's bounds.
    fn add(self, other: ScanResult) -> (r: ScanResult) {
        self.combine(other)
    }
}

impl vstd::std_specs::ops::AddSpecImpl for ScanResult {
    open spec fn obeys_add_spec() -> bool {
        true
    }

    open spec fn add_req(self, rhs: ScanResult) -> bool {
        true
    }

    open spec fn add_spec(self, rhs: ScanResult) -> ScanResult {
        self.combined(rhs)
    }
}

/// Combining results is associative and commutative, with the zero result as
/// identity, on results whose counters are non-negative; such results stay so.
pub proof fn lemma_scan_results_form_monoid(a: ScanResult, b: ScanResult, c: ScanResult)
    requires
        a.wf(),
        b.wf(),
        c.wf(),
    ensures
        a.combined(b).combined(c) == a.combined(b.combined(c)),
        a.combined(b) == b.combined(a),
        a.combined(ScanResult::spec_zero()) == a,
        ScanResult::spec_zero().combined(a) == a,
        a.combined(b).wf(),
{
}

/// Number of the first `n` times in `cs` that lie in `(lo, hi]`.
pub open spec fn count_in(cs: Seq<i64>, lo: int, hi: int, n: int) -> nat
    decreases n,
{
    if n <= 0 {
        0
    } else if lo < cs[n - 1] <= hi {
        count_in(cs, lo, hi, n - 1) + 1
    } else {
        count_in(cs, lo, hi, n - 1)
    }
}

/// Sum of `hi - c` over the first `n` times `c` in `cs` that lie in `(lo, hi]`.
pub open spec fn latency_in(cs: Seq<i64>, lo: int, hi: int, n: int) -> int
    decreases n,
{
    if n <= 0 {
        0
    } else if lo < cs[n - 1] <= hi {
        latency_in(cs, lo, hi, n - 1) + (hi - cs[n - 1])
    } else {
        latency_in(cs, lo, hi, n - 1)
    }
}

/// Time of the update at index `c`, or 0 where there is none.
pub open spec fn chapter_time(chapters: Seq<i64>, c: int) -> i64 {
    if 0 <= c < chapters.len() {
        chapters[c]
    } else {
        0
    }
}

/// The cursor `c` moved forward over every following update made at or
/// before `t`, stopping at the first later one.
pub open spec fn advanced_cursor(chapters: Seq<i64>, c: int, t: int) -> int
    decreases chapters.len() - c,
{
    if 0 <= c && c + 1 < chapters.len() && chapters[c + 1] <= t {
        advanced_cursor(chapters, c + 1, t)
    } else {
        c
    }
}

/// Number of leading entries of the tier table above `subs`: the item's
/// tier, or 5 where every entry is above it.
pub open spec fn tier_from(ranges: Seq<usize>, subs: usize, i: int) -> int
    decreases 5 - i,
{
    if i >= 5 || i < 0 {
        5
    } else if ranges[i] > subs {
        tier_from(ranges, subs, i + 1)
    } else {
        i
    }
}

pub open spec fn tier(ranges: [usize; 5], subs: usize) -> int {
    tier_from(ranges@, subs, 0)
}

/// Minutes to wait between polls of an item of the given tier.
pub open spec fn nominal_wait(tier: int) -> int {
    if tier == 0 {
        5
    } else if tier == 1 {
        10
    } else if tier == 2 {
        20
    } else if tier == 3 {
        40
    } else {
        60
    }
}

/// The speed-up for `e` minutes of staleness: the downward parabola
/// `e * (2 * BOOST_PEAK - e) / BOOST_DIVISOR`, in whole numbers, which is 0 at
/// 0 and 48 hours and 2 at 24 hours, but never below 1.
pub open spec fn boost(e: int) -> int {
    if 0 < e < 2 * BOOST_PEAK && e * (2 * BOOST_PEAK - e) / (BOOST_DIVISOR as int) >= 1 {
        e * (2 * BOOST_PEAK - e) / (BOOST_DIVISOR as int)
    } else {
        1
    }
}

/// An item with `e` minutes of staleness and a nominal wait of `wait`
/// minutes is due when `e` exceeds the wait divided by the boost, in whole
/// minutes.
pub open spec fn due_after(e: int, wait: int) -> bool {
    e > wait / boost(e)
}

proof fn lemma_count_bounds(cs: Seq<i64>, lo: int, hi: int, n: int)
    requires
        0 <= n <= cs.len(),
    ensures
        count_in(cs, lo, hi, n) <= n,
        latency_in(cs, lo, hi, n) >= 0,
    decreases n,
{
    if n > 0 {
        lemma_count_bounds(cs, lo, hi, n - 1);
    }
}

/// Number of times in `cs` that lie in `(lo, hi]`, and their summed distance
/// to `hi`, saturating at `i64::MAX`.
fn window_stats(cs: &Vec<i64>, lo: i128, hi: i64) -> (r: (usize, i64))
    ensures
        r.0 == count_in(cs@, lo as int, hi as int, cs@.len() as int),
        r.1 == clamp64(latency_in(cs@, lo as int, hi as int, cs@.len() as int)),
{
    let mut count: usize = 0;
    let mut latency: i64 = 0;
    let mut k: usize = 0;
    while k < cs.len()
        invariant
            k <= cs@.len(),
            count == count_in(cs@, lo as int, hi as int, k as int),
            latency == clamp64(latency_in(cs@, lo as int, hi as int, k as int)),
        decreases cs@.len() - k,
    {
        proof {
            lemma_count_bounds(cs@, lo as int, hi as int, k as int);
        }
        let c = cs[k];
        if lo < c as i128 && c <= hi {
            count = count + 1;
            let sum: i128 = latency as i128 + (hi as i128 - c as i128);
            latency = if sum > i64::MAX as i128 {
                i64::MAX
            } else {
                sum as i64
            };
        }
        k = k + 1;
    }
    (count, latency)
}

/// The state the scheduler keeps of one item.
#[derive(Debug)]
pub struct QueuedManga {
    /// Update times, in minutes.
    pub chapters: Vec<i64>,
    pub subs: usize,
    /// Engagement event times, in minutes.
    pub comments: Vec<i64>,
    /// Minute of the last poll.
    pub last_scan: i64,
    /// Engagement events in the trailing window as of the last poll.
    pub current_growth: usize,
    /// Update cursor: it starts on the first update and moves forward over
    /// the updates made by the minute of each tick; it never moves back.
    pub last_chapter: usize,
    /// Time of the update under the cursor, or 0 where the item has none.
    pub last_chapter_time: i64,
}

/// What the scheduler knows of one item, as plain values.
pub struct ItemState {
    pub chapters: Seq<i64>,
    pub subs: usize,
    pub comments: Seq<i64>,
    pub last_scan: i64,
    pub current_growth: usize,
    pub last_chapter: usize,
    pub last_chapter_time: i64,
}

impl View for QueuedManga {
    type V = ItemState;

    open spec fn view(&self) -> ItemState {
        ItemState {
            chapters: self.chapters@,
            subs: self.subs,
            comments: self.comments@,
            last_scan: self.last_scan,
            current_growth: self.current_growth,
            last_chapter: self.last_chapter,
            last_chapter_time: self.last_chapter_time,
        }
    }
}

/// The states of a sequence of items.
pub open spec fn states(items: Seq<QueuedManga>) -> Seq<ItemState> {
    items.map_values(|q: QueuedManga| q@)
}

impl ItemState {
    /// The state after the update cursor has been brought up to minute `t`.
    pub open spec fn advanced(self, t: int) -> ItemState {
        let c = advanced_cursor(self.chapters, self.last_chapter as int, t);
        ItemState {
            last_chapter: c as usize,
            last_chapter_time: chapter_time(self.chapters, c),
            ..self
        }
    }

    /// Engagement events in the trailing window ending at minute `t`.
    pub open spec fn growth_at(self, t: int) -> nat {
        count_in(self.comments, t - GROWTH_WINDOW, t, self.comments.len() as int)
    }

    /// The state after a poll at minute `t`.
    pub open spec fn polled(self, t: int) -> ItemState {
        ItemState { last_scan: t as i64, current_growth: self.growth_at(t) as usize, ..self }
    }

    /// What a poll at minute `t` finds: the events after the last poll and
    /// at or before `t`, and their summed age.
    pub open spec fn poll_result(self, t: int) -> ScanResult {
        let n = self.comments.len() as int;
        ScanResult {
            found: clamp32(count_in(self.comments, self.last_scan as int, t, n) as int) as i32,
            scanned: 1,
            time_to_scan: clamp64(latency_in(self.comments, self.last_scan as int, t, n)) as i64,
        }
    }

    /// No poll for more than `STALE_MINUTES` before minute `t`.
    pub open spec fn lagging(self, t: int) -> bool {
        t - self.last_scan > STALE_MINUTES
    }

    /// Due at minute `t` under the tier table `ranges`.
    pub open spec fn is_due(self, t: int, ranges: [usize; 5]) -> bool {
        due_after(t - self.last_scan, nominal_wait(tier(ranges, self.subs)))
    }
}

impl QueuedManga {
    /// The state of an item at the start of a horizon beginning at `at_time`:
    /// last polled then, with its growth counted over the window ending then
    /// and its update cursor on the first update.
    pub fn new(manga: &Manga, at_time: i64) -> (r: QueuedManga)
        ensures
            r.chapters@ == manga.chapters@.map_values(|c: Chapter| c.date),
            r.comments@ == manga.comments@.map_values(|c: Comment| c.date),
            r.subs == manga.subs,
            r.last_scan == at_time,
            r.current_growth == r@.growth_at(at_time as int),
            r.last_chapter == 0,
            r.last_chapter_time == chapter_time(r.chapters@, 0),
    {
        let mut chapters: Vec<i64> = Vec::new();
        let mut k: usize = 0;
        while k < manga.chapters.len()
            invariant
                k <= manga.chapters@.len(),
                chapters@ == manga.chapters@.take(k as int).map_values(|c: Chapter| c.date),
            decreases manga.chapters@.len() - k,
        {
            chapters.push(manga.chapters[k].date);
            k = k + 1;
            assert(manga.chapters@.take(k as int).drop_last() =~= manga.chapters@.take(k - 1));
            assert(chapters@ =~= manga.chapters@.take(k as int).map_values(|c: Chapter| c.date));
        }
        assert(manga.chapters@.take(k as int) =~= manga.chapters@);
        let mut comments: Vec<i64> = Vec::new();
        let mut j: usize = 0;
        while j < manga.comments.len()
            invariant
                j <= manga.comments@.len(),
                comments@ == manga.comments@.take(j as int).map_values(|c: Comment| c.date),
            decreases manga.comments@.len() - j,
        {
            comments.push(manga.comments[j].date);
            j = j + 1;
            assert(manga.comments@.take(j as int).drop_last() =~= manga.comments@.take(j - 1));
            assert(comments@ =~= manga.comments@.take(j as int).map_values(|c: Comment| c.date));
        }
        assert(manga.comments@.take(j as int) =~= manga.comments@);
        let (growth, _) = window_stats(&comments, at_time as i128 - GROWTH_WINDOW as i128, at_time);
        let last_chapter_time = if chapters.len() > 0 {
            chapters[0]
        } else {
            0
        };
        QueuedManga {
            chapters,
            subs: manga.subs,
            comments,
            last_scan: at_time,
            current_growth: growth,
            last_chapter: 0,
            last_chapter_time,
        }
    }

    /// The starting state of each item, in order.
    pub fn from_mangas(mangas: &[Manga], at_time: i64) -> (r: Vec<QueuedManga>)
        ensures
            r@.len() == mangas@.len(),
            forall|i: int|
                0 <= i < r@.len() ==> {
                    &&& (#[trigger] r@[i]).chapters@ == mangas@[i].chapters@.map_values(
                        |c: Chapter| c.date,
                    )
                    &&& r@[i].comments@ == mangas@[i].comments@.map_values(|c: Comment| c.date)
                    &&& r@[i].subs == mangas@[i].subs
                    &&& r@[i].last_scan == at_time
                    &&& r@[i].current_growth == r@[i]@.growth_at(at_time as int)
                    &&& r@[i].last_chapter == 0
                    &&& r@[i].last_chapter_time == chapter_time(r@[i].chapters@, 0)
                },
    {
        let mut r: Vec<QueuedManga> = Vec::new();
        let mut i: usize = 0;
        while i < mangas.len()
            invariant
                i <= mangas@.len(),
                r@.len() == i,
                forall|j: int|
                    0 <= j < i ==> {
                        &&& (#[trigger] r@[j]).chapters@ == mangas@[j].chapters@.map_values(
                            |c: Chapter| c.date,
                        )
                        &&& r@[j].comments@ == mangas@[j].comments@.map_values(
                            |c: Comment| c.date,
                        )
                        &&& r@[j].subs == mangas@[j].subs
                        &&& r@[j].last_scan == at_time
                        &&& r@[j].current_growth == r@[j]@.growth_at(at_time as int)
                        &&& r@[j].last_chapter == 0
                        &&& r@[j].last_chapter_time == chapter_time(r@[j].chapters@, 0)
                    },
            decreases mangas@.len() - i,
        {
            r.push(QueuedManga::new(&mangas[i], at_time));
            i = i + 1;
        }
        r
    }

    /// Polls the item at minute `at_time`: counts the events after the last
    /// poll and at or before `at_time`, recounts the growth and records the poll.
    pub fn scan(&mut self, at_time: i64) -> (r: ScanResult)
        ensures
            final(self)@ == old(self)@.polled(at_time as int),
            r == old(self)@.poll_result(at_time as int),
    {
        proof {
            lemma_count_bounds(self.comments@, self.last_scan as int, at_time as int, self.comments@.len() as int);
        }
        let (found, time_to_scan) = window_stats(&self.comments, self.last_scan as i128, at_time);
        let (growth, _) = window_stats(&self.comments, at_time as i128 - GROWTH_WINDOW as i128, at_time);
        self.last_scan = at_time;
        self.current_growth = growth;
        let found32: i32 = if found > i32::MAX as usize {
            i32::MAX
        } else {
            found as i32
        };
        ScanResult::new(found32, time_to_scan)
    }

    /// Moves the update cursor forward over every following update made at or
    /// before `at_time`; it never moves backward.
    pub fn update_last_chapter(&mut self, at_time: i64)
        ensures
            final(self)@ == old(self)@.advanced(at_time as int),
            final(self).last_chapter >= old(self).last_chapter,
    {
        let mut last_chapter = self.last_chapter;
        let n = self.chapters.len();
        while n > 0 && last_chapter < n - 1 && self.chapters[last_chapter + 1] <= at_time
            invariant
                n == self.chapters@.len(),
                last_chapter >= old(self).last_chapter,
                self == old(self),
                advanced_cursor(self.chapters@, last_chapter as int, at_time as int)
                    == advanced_cursor(self.chapters@, old(self).last_chapter as int, at_time as int),
            decreases n - last_chapter,
        {
            last_chapter = last_chapter + 1;
        }
        self.last_chapter_time = if last_chapter < n {
            self.chapters[last_chapter]
        } else {
            0
        };
        self.last_chapter = last_chapter;
    }

    /// Whether the item is due for a poll at minute `at_time` under the tier
    /// table `ranges`, whose entries are compared with the subscriber count
    /// from the first: the item's tier is the number of leading entries above it.
    pub fn should_scan(&self, at_time: i64, ranges: [usize; 5]) -> (r: bool)
        requires
            tier(ranges, self.subs) < 5,
        ensures
            r == self@.is_due(at_time as int, ranges),
    {
        let mut index: usize = 0;
        while index < 5 && ranges[index] > self.subs
            invariant
                index <= 5,
                tier_from(ranges@, self.subs, index as int) == tier(ranges, self.subs),
            decreases 5 - index,
        {
            index = index + 1;
        }
        let wait: i128 = match index {
            0 => 5,
            1 => 10,
            2 => 20,
            3 => 40,
            _ => 60,
        };
        let elapsed: i128 = at_time as i128 - self.last_scan as i128;
        let mut boost: i128 = 1;
        if 0 < elapsed && elapsed < 2 * BOOST_PEAK as i128 {
            proof {
                assert(0 <= elapsed * (2 * BOOST_PEAK - elapsed) <= 2 * BOOST_PEAK * (2 * BOOST_PEAK))
                    by (nonlinear_arith)
                    requires
                        0 < elapsed < 2 * BOOST_PEAK,
                ;
            }
            let parabola = elapsed * (2 * BOOST_PEAK as i128 - elapsed) / BOOST_DIVISOR as i128;
            if parabola >= 1 {
                boost = parabola;
            }
        }
        assert(boost == crate::detector_queuer::boost(elapsed as int));
        elapsed > wait / boost
    }
}

proof fn lemma_empty_window(cs: Seq<i64>, lo: int, hi: int, n: int)
    requires
        0 <= n <= cs.len(),
        forall|k: int| 0 <= k < cs.len() ==> !(lo < #[trigger] cs[k] <= hi),
    ensures
        count_in(cs, lo, hi, n) == 0,
        latency_in(cs, lo, hi, n) == 0,
    decreases n,
{
    if n > 0 {
        lemma_empty_window(cs, lo, hi, n - 1);
    }
}

/// A poll at minute `t2` that follows a poll at minute `t1`, with no event
/// after `t1` and at or before `t2`, finds nothing; in particular a second
/// poll at the same minute finds nothing.
pub proof fn lemma_repeated_poll_finds_nothing(q: ItemState, t1: int, t2: int)
    requires
        i64::MIN <= t1 <= i64::MAX,
        forall|k: int| 0 <= k < q.comments.len() ==> !(t1 < #[trigger] q.comments[k] <= t2),
    ensures
        q.polled(t1).poll_result(t2).found == 0,
        q.polled(t1).poll_result(t2).time_to_scan == 0,
{
    lemma_empty_window(q.comments, t1, t2, q.comments.len() as int);
}

pub(crate) proof fn lemma_poll_result_wf(q: ItemState, t: int)
    ensures
        q.poll_result(t).wf(),
{
    lemma_count_bounds(q.comments, q.last_scan as int, t, q.comments.len() as int);
}

/// Every item's state with its update cursor brought up to minute `t`.
pub open spec fn advance_all(items: Seq<ItemState>, t: int) -> Seq<ItemState> {
    Seq::new(items.len(), |i: int| items[i].advanced(t))
}

/// Every item's state after a tick at minute `t` that polls the items whose
/// entry in `picks` is true.
pub open spec fn stepped(items: Seq<ItemState>, t: int, picks: Seq<bool>) -> Seq<ItemState> {
    Seq::new(items.len(), |i: int| if picks[i] { items[i].polled(t) } else { items[i] })
}

/// The results of the polls at minute `t` of the picked items among the first
/// `n`, combined in item order.
pub open spec fn picked_total(items: Seq<ItemState>, t: int, picks: Seq<bool>, n: int) -> ScanResult
    decreases n,
{
    if n <= 0 {
        ScanResult::spec_zero()
    } else if picks[n - 1] {
        picked_total(items, t, picks, n - 1).combined(items[n - 1].poll_result(t))
    } else {
        picked_total(items, t, picks, n - 1)
    }
}

/// Number of lagging items among the first `n`.
pub open spec fn count_lagging(items: Seq<ItemState>, t: int, n: int) -> nat
    decreases n,
{
    if n <= 0 {
        0
    } else if items[n - 1].lagging(t) {
        count_lagging(items, t, n - 1) + 1
    } else {
        count_lagging(items, t, n - 1)
    }
}

/// Number of items among the first `n` that are due without lagging.
pub open spec fn count_fresh_due(items: Seq<ItemState>, t: int, ranges: [usize; 5], n: int) -> nat
    decreases n,
{
    if n <= 0 {
        0
    } else if !items[n - 1].lagging(t) && items[n - 1].is_due(t, ranges) {
        count_fresh_due(items, t, ranges, n - 1) + 1
    } else {
        count_fresh_due(items, t, ranges, n - 1)
    }
}

/// The tiered policy's picks at minute `t` with `budget` polls: lagging items
/// first, in item order, while the budget lasts; then, with what is left of
/// the budget once every lagging item has been charged to it, the due items,
/// in item order.
pub open spec fn adaptive_picks(items: Seq<ItemState>, t: int, ranges: [usize; 5], budget: int) -> Seq<bool> {
    Seq::new(
        items.len(),
        |i: int|
            if items[i].lagging(t) {
                count_lagging(items, t, i) < budget
            } else {
                items[i].is_due(t, ranges) && count_fresh_due(items, t, ranges, i) < budget
                    - count_lagging(items, t, items.len() as int)
            },
    )
}

/// Brings every item's update cursor up to minute `t`.
pub(crate) fn advance_items(items: &mut Vec<QueuedManga>, t: i64)
    ensures
        final(items)@.len() == old(items)@.len(),
        states(final(items)@) == advance_all(states(old(items)@), t as int),
        forall|i: int| 0 <= i < old(items)@.len() ==> #[trigger] final(items)@[i].last_chapter >= old(items)@[i].last_chapter,
{
    let ghost start = items@;
    let mut i: usize = 0;
    while i < items.len()
        invariant
            i <= items@.len(),
            items@.len() == start.len(),
            forall|j: int| 0 <= j < i ==> #[trigger] items@[j]@ == start[j]@.advanced(t as int),
            forall|j: int| i <= j < items@.len() ==> #[trigger] items@[j] == start[j],
            forall|j: int| 0 <= j < i ==> #[trigger] items@[j].last_chapter >= start[j].last_chapter,
        decreases start.len() - i,
    {
        items[i].update_last_chapter(t);
        i = i + 1;
    }
    assert(states(items@) =~= advance_all(states(start), t as int));
}

/// Polls at minute `t` the items whose entry in `picks` is true.
pub(crate) fn apply_picks(items: &mut Vec<QueuedManga>, t: i64, picks: &Vec<bool>) -> (r: ScanResult)
    requires
        picks@.len() == old(items)@.len(),
    ensures
        final(items)@.len() == old(items)@.len(),
        forall|i: int| 0 <= i < old(items)@.len() ==> #[trigger] final(items)@[i].last_chapter == old(items)@[i].last_chapter,
        states(final(items)@) == stepped(states(old(items)@), t as int, picks@),
        r == picked_total(states(old(items)@), t as int, picks@, old(items)@.len() as int),
{
    let ghost start = items@;
    let mut result = ScanResult::zero();
    let mut i: usize = 0;
    while i < items.len()
        invariant
            i <= items@.len(),
            items@.len() == start.len(),
            picks@.len() == start.len(),
            forall|j: int| 0 <= j < i ==> #[trigger] items@[j]@ == stepped(states(start), t as int, picks@)[j],
            forall|j: int| i <= j < items@.len() ==> #[trigger] items@[j] == start[j],
            forall|j: int| 0 <= j < items@.len() ==> #[trigger] items@[j].last_chapter == start[j].last_chapter,
            result == picked_total(states(start), t as int, picks@, i as int),
        decreases start.len() - i,
    {
        if picks[i] {
            let found = items[i].scan(t);
            result = result + found;
        }
        i = i + 1;
    }
    assert(states(items@) =~= stepped(states(start), t as int, picks@));
    result
}

impl QueuedManga {
    /// Not polled for more than `STALE_MINUTES` before `at_time`.
    pub fn is_lagging(&self, at_time: i64) -> (r: bool)
        ensures
            r == self@.lagging(at_time as int),
    {
        at_time as i128 - self.last_scan as i128 > STALE_MINUTES as i128
    }

    pub fn last_known_update_index(&self) -> (r: usize)
        ensures
            r == self.last_chapter,
    {
        self.last_chapter
    }

    pub fn last_known_update_time(&self) -> (r: i64)
        ensures
            r == self.last_chapter_time,
    {
        self.last_chapter_time
    }
}

/// The weights of the ranking score, in millionths.
#[derive(Debug, Clone, Copy, PartialEq, Eq, Structural)]
pub struct Model {
    pub subcount_weight: i32,
    pub last_scan_weight: i32,
    pub current_growth_weight: i32,
    pub last_chap_weight: i32,
}

impl Model {
    /// A model with every weight zero.
    pub fn new() -> (r: Model)
        ensures
            r == (Model {
                subcount_weight: 0,
                last_scan_weight: 0,
                current_growth_weight: 0,
                last_chap_weight: 0,
            }),
    {
        Model { subcount_weight: 0, last_scan_weight: 0, current_growth_weight: 0, last_chap_weight: 0 }
    }

    pub fn from_weights(
        subcount_weight: i32,
        last_scan_weight: i32,
        current_growth_weight: i32,
        last_chap_weight: i32,
    ) -> (r: Model)
        ensures
            r == (Model { subcount_weight, last_scan_weight, current_growth_weight, last_chap_weight }),
    {
        Model { subcount_weight, last_scan_weight, current_growth_weight, last_chap_weight }
    }

    /// One simulated minute under the tiered policy: brings every update
    /// cursor up to `at_time`, then polls the lagging items and the due items
    /// that `clients * SCAN_PER_MINUTE` polls allow.
    pub fn simulate_minute(
        &self,
        manga: &mut Vec<QueuedManga>,
        at_time: i64,
        ranges: [usize; 5],
        clients: i32,
    ) -> (r: ScanResult)
        requires
            forall|i: int| 0 <= i < old(manga)@.len() ==> tier(ranges, (#[trigger] old(manga)@[i]).subs) < 5,
        ensures
            ({
                let a = advance_all(states(old(manga)@), at_time as int);
                let p = adaptive_picks(a, at_time as int, ranges, clients * SCAN_PER_MINUTE);
                &&& states(final(manga)@) == stepped(a, at_time as int, p)
                &&& r == picked_total(a, at_time as int, p, a.len() as int)
            }),
            forall|i: int| 0 <= i < old(manga)@.len() ==> #[trigger] final(manga)@[i].last_chapter >= old(manga)@[i].last_chapter,
    {
        let ghost start = manga@;
        advance_items(manga, at_time);
        let ghost a = states(manga@);
        let budget: i64 = clients as i64 * SCAN_PER_MINUTE;
        let n = manga.len();
        let mut lag_total: usize = 0;
        let mut k: usize = 0;
        while k < n
            invariant
                n == manga@.len(),
                k <= n,
                lag_total == count_lagging(states(manga@), at_time as int, k as int),
                lag_total <= k,
            decreases n - k,
        {
            if manga[k].is_lagging(at_time) {
                lag_total = lag_total + 1;
            }
            k = k + 1;
        }
        let mut picks: Vec<bool> = Vec::new();
        let mut lag_seen: usize = 0;
        let mut due_seen: usize = 0;
        let mut i: usize = 0;
        while i < n
            invariant
                n == manga@.len(),
                states(manga@) == a,
                start.len() == n,
                a == advance_all(states(start), at_time as int),
                forall|j: int| 0 <= j < start.len() ==> tier(ranges, (#[trigger] start[j]).subs) < 5,
                i <= n,
                lag_total == count_lagging(a, at_time as int, n as int),
                lag_seen == count_lagging(a, at_time as int, i as int),
                due_seen == count_fresh_due(a, at_time as int, ranges, i as int),
                lag_seen <= i,
                due_seen <= i,
                picks@.len() == i,
                forall|j: int| 0 <= j < i ==> #[trigger] picks@[j] == adaptive_picks(a, at_time as int, ranges, budget as int)[j],
            decreases n - i,
        {
            let pick: bool;
            if manga[i].is_lagging(at_time) {
                pick = (lag_seen as i128) < budget as i128;
                lag_seen = lag_seen + 1;
            } else {
                assert(states(manga@)[i as int] == manga@[i as int]@);
                assert(states(start)[i as int] == start[i as int]@);
                assert(manga@[i as int].subs == start[i as int].subs);
                let due = manga[i].should_scan(at_time, ranges);
                pick = due && (due_seen as i128) < budget as i128 - lag_total as i128;
                if due {
                    due_seen = due_seen + 1;
                }
            }
            picks.push(pick);
            i = i + 1;
        }
        assert(picks@ =~= adaptive_picks(a, at_time as int, ranges, budget as int));
        apply_picks(manga, at_time, &picks)
    }
}

} // verus!
