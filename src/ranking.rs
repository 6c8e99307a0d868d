use vstd::prelude::*;

use crate::detector_queuer::{
    advance_all, advance_items, apply_picks, picked_total, states, stepped, ItemState, Model, QueuedManga,
    ScanResult, SCAN_PER_MINUTE,
};

verus! {

broadcast use vstd::seq_lib::group_to_multiset_ensures;

/// `a / b` rounded toward zero, as integer division does.
pub open spec fn trunc_div(a: int, b: int) -> int {
    if a >= 0 {
        a / b
    } else {
        -((-a) / b)
    }
}

/// Largest subscriber count among the first `n` items, or 0.
pub open spec fn max_subs(items: Seq<ItemState>, n: int) -> usize
    decreases n,
{
    if n <= 0 {
        0
    } else if items[n - 1].subs > max_subs(items, n - 1) {
        items[n - 1].subs
    } else {
        max_subs(items, n - 1)
    }
}

/// What the subscriber term is divided by: the largest subscriber count when
/// counts are normalised and some item has subscribers, else 1.
pub open spec fn subs_divisor(items: Seq<ItemState>, normalize_subs: bool) -> int {
    if normalize_subs && max_subs(items, items.len() as int) > 0 {
        max_subs(items, items.len() as int) as int
    } else {
        1
    }
}

impl Model {
    /// The ranking score of an item, in millionths, with the subscriber term
    /// divided by `divisor`.
    pub open spec fn score(self, q: ItemState, divisor: int) -> int {
        trunc_div(self.subcount_weight * q.subs, divisor) + self.last_scan_weight * q.last_scan
            + self.current_growth_weight * q.current_growth + self.last_chap_weight
            * q.last_chapter_time
    }
}

/// The sort key of each item: its score negated, then its index, so that
/// ascending keys rank higher scores first and break ties by item order.
pub open spec fn rank_keys(items: Seq<ItemState>, m: Model, divisor: int) -> Seq<(i128, usize)> {
    Seq::new(items.len(), |i: int| ((-m.score(items[i], divisor)) as i128, i as usize))
}

/// Lexicographic order on keys.
pub open spec fn key_lt(x: (i128, usize), y: (i128, usize)) -> bool {
    x.0 < y.0 || (x.0 == y.0 && x.1 < y.1)
}

/// Number of true entries among the first `n`.
pub open spec fn count_true(p: Seq<bool>, n: int) -> nat
    decreases n,
{
    if n <= 0 {
        0
    } else if p[n - 1] {
        count_true(p, n - 1) + 1
    } else {
        count_true(p, n - 1)
    }
}

/// How many items a budget of polls reaches among `n`.
pub open spec fn reach(budget: int, n: int) -> int {
    if budget <= 0 {
        0
    } else if budget >= n {
        n
    } else {
        budget
    }
}

/// `p` picks `m` items, every one of them with a smaller key than every item
/// left out.
pub open spec fn is_top(keys: Seq<(i128, usize)>, p: Seq<bool>, m: int) -> bool {
    &&& p.len() == keys.len()
    &&& count_true(p, p.len() as int) == m
    &&& forall|i: int, j: int|
        0 <= i < p.len() && 0 <= j < p.len() && #[trigger] p[i] && !#[trigger] p[j] ==> key_lt(keys[i], keys[j])
}

/// The ranked policy's picks: the `budget` items of smallest key, or all of
/// them when the budget is larger.
pub open spec fn ranked_picks(keys: Seq<(i128, usize)>, budget: int) -> Seq<bool> {
    choose|p: Seq<bool>| is_top(keys, p, reach(budget, keys.len() as int))
}

proof fn lemma_count_subset(left: Seq<bool>, right: Seq<bool>, n: int, i: int)
    requires
        0 <= n <= left.len(),
        left.len() == right.len(),
        forall|k: int| 0 <= k < n && #[trigger] right[k] ==> left[k],
        0 <= i < n,
        left[i] && !right[i],
    ensures
        count_true(right, n) < count_true(left, n),
    decreases n,
{
    if i < n - 1 {
        lemma_count_subset(left, right, n - 1, i);
    } else {
        lemma_count_subset_le(left, right, n - 1);
    }
}

proof fn lemma_count_subset_le(left: Seq<bool>, right: Seq<bool>, n: int)
    requires
        0 <= n <= left.len(),
        left.len() == right.len(),
        forall|k: int| 0 <= k < n && #[trigger] right[k] ==> left[k],
    ensures
        count_true(right, n) <= count_true(left, n),
    decreases n,
{
    if n > 0 {
        lemma_count_subset_le(left, right, n - 1);
    }
}

proof fn lemma_count_set(p: Seq<bool>, i: int, n: int)
    requires
        0 <= i < p.len(),
        0 <= n <= p.len(),
        !p[i],
    ensures
        count_true(p.update(i, true), n) == count_true(p, n) + (if i < n { 1int } else { 0int }),
    decreases n,
{
    if n > 0 {
        lemma_count_set(p, i, n - 1);
    }
}

/// Two picks of the same size that both take only smaller keys than they
/// leave are the same.
pub proof fn lemma_top_unique(keys: Seq<(i128, usize)>, left: Seq<bool>, right: Seq<bool>, m: int)
    requires
        is_top(keys, left, m),
        is_top(keys, right, m),
    ensures
        left == right,
{
    assert forall|i: int| 0 <= i < left.len() implies left[i] == right[i] by {
        if left[i] != right[i] {
            let (a, b) = if left[i] {
                (left, right)
            } else {
                (right, left)
            };
            if forall|k: int| 0 <= k < a.len() && #[trigger] b[k] ==> a[k] {
                lemma_count_subset(a, b, a.len() as int, i);
            } else {
                let j = choose|k: int| 0 <= k < a.len() && #[trigger] b[k] && !a[k];
                assert(key_lt(keys[i], keys[j]));
                assert(key_lt(keys[j], keys[i]));
            }
        }
    }
    assert(left =~= right);
}

/// Relies on std's `slice::sort_unstable`: afterwards the keys are in
/// ascending order, tuples comparing lexicographically, and are the same keys
/// as before.
#[verifier::external_body]
pub(crate) fn sort_keys(keys: &mut Vec<(i128, usize)>)
    ensures
        final(keys)@.to_multiset() == old(keys)@.to_multiset(),
        forall|p: int, q: int|
            0 <= p < q < final(keys)@.len() ==> !key_lt(#[trigger] final(keys)@[q], #[trigger] final(keys)@[p]),
{
    keys.sort_unstable();
}

/// Keys whose second component is their own index.
pub open spec fn indexed(keys: Seq<(i128, usize)>) -> bool {
    forall|i: int| 0 <= i < keys.len() ==> (#[trigger] keys[i]).1 == i
}

proof fn lemma_sorted_keys(keys: Seq<(i128, usize)>, sorted: Seq<(i128, usize)>)
    requires
        indexed(keys),
        sorted.to_multiset() == keys.to_multiset(),
    ensures
        sorted.len() == keys.len(),
        forall|p: int|
            0 <= p < sorted.len() ==> (#[trigger] sorted[p]).1 < keys.len() && sorted[p] == keys[sorted[p].1 as int],
        forall|j: int| 0 <= j < keys.len() ==> sorted.contains(#[trigger] keys[j]),
        sorted.no_duplicates(),
{
    assert(sorted.len() == sorted.to_multiset().len());
    assert(keys.len() == keys.to_multiset().len());
    assert forall|p: int| 0 <= p < sorted.len() implies (#[trigger] sorted[p]).1 < keys.len() && sorted[p]
        == keys[sorted[p].1 as int] by {
        assert(sorted.contains(sorted[p]));
        assert(sorted.to_multiset().count(sorted[p]) > 0);
        assert(keys.contains(sorted[p]));
        let k = choose|k: int| 0 <= k < keys.len() && keys[k] == sorted[p];
        assert(keys[k].1 == k);
    }
    assert forall|j: int| 0 <= j < keys.len() implies sorted.contains(#[trigger] keys[j]) by {
        assert(keys.contains(keys[j]));
        assert(keys.to_multiset().count(keys[j]) > 0);
    }
    assert(keys.no_duplicates()) by {
        assert forall|i: int, j: int| 0 <= i < keys.len() && 0 <= j < keys.len() && i != j implies keys[i]
            != keys[j] by {
            assert(keys[i].1 == i);
            assert(keys[j].1 == j);
        }
    }
    keys.lemma_multiset_has_no_duplicates();
    sorted.lemma_multiset_has_no_duplicates_conv();
}

impl Model {
    /// The ranking score of an item, in millionths, with the subscriber term
    /// divided by `divisor`.
    pub fn score_of(&self, q: &QueuedManga, divisor: usize) -> (r: i128)
        requires
            divisor >= 1,
        ensures
            r == self.score(q@, divisor as int),
            -0x10_0000_0000_0000_0000_0000_0000 <= r <= 0x10_0000_0000_0000_0000_0000_0000,
    {
        proof {
            assert(-0x8000_0000 * 0x1_0000_0000_0000_0000 <= self.subcount_weight * q.subs <= 0x8000_0000 * 0x1_0000_0000_0000_0000)
                by (nonlinear_arith)
                requires
                    -0x8000_0000 <= self.subcount_weight <= 0x8000_0000,
                    0 <= q.subs <= 0x1_0000_0000_0000_0000,
            ;
        }
        let subs_term: i128 = self.subcount_weight as i128 * q.subs as i128;
        let d = divisor as i128;
        let subs_part: i128 = if subs_term >= 0 {
            subs_term / d
        } else {
            -((-subs_term) / d)
        };
        proof {
            assert(-0x8000_0000 * 0x1_0000_0000_0000_0000 <= subs_term <= 0x8000_0000 * 0x1_0000_0000_0000_0000)
                by (nonlinear_arith)
                requires
                    subs_term == self.subcount_weight * q.subs,
                    -0x8000_0000 <= self.subcount_weight <= 0x8000_0000,
                    0 <= q.subs <= 0x1_0000_0000_0000_0000,
            ;
            assert(-0x8000_0000 * 0x1_0000_0000_0000_0000 <= subs_part <= 0x8000_0000 * 0x1_0000_0000_0000_0000)
                by (nonlinear_arith)
                requires
                    subs_term >= 0 ==> subs_part == (subs_term as int) / (d as int),
                    subs_term < 0 ==> subs_part == -((-(subs_term as int)) / (d as int)),
                    -0x8000_0000 * 0x1_0000_0000_0000_0000 <= subs_term <= 0x8000_0000 * 0x1_0000_0000_0000_0000,
                    d >= 1,
            ;
            assert(-0x8000_0000 * 0x1_0000_0000_0000_0000 <= self.last_scan_weight * q.last_scan <= 0x8000_0000 * 0x1_0000_0000_0000_0000)
                by (nonlinear_arith)
                requires
                    -0x8000_0000 <= self.last_scan_weight <= 0x8000_0000,
                    -0x8000_0000_0000_0000 <= q.last_scan <= 0x8000_0000_0000_0000,
            ;
            assert(-0x8000_0000 * 0x1_0000_0000_0000_0000 <= self.current_growth_weight * q.current_growth <= 0x8000_0000 * 0x1_0000_0000_0000_0000)
                by (nonlinear_arith)
                requires
                    -0x8000_0000 <= self.current_growth_weight <= 0x8000_0000,
                    0 <= q.current_growth <= 0x1_0000_0000_0000_0000,
            ;
            assert(-0x8000_0000 * 0x1_0000_0000_0000_0000 <= self.last_chap_weight * q.last_chapter_time <= 0x8000_0000 * 0x1_0000_0000_0000_0000)
                by (nonlinear_arith)
                requires
                    -0x8000_0000 <= self.last_chap_weight <= 0x8000_0000,
                    -0x8000_0000_0000_0000 <= q.last_chapter_time <= 0x8000_0000_0000_0000,
            ;
        }
        subs_part + self.last_scan_weight as i128 * q.last_scan as i128
            + self.current_growth_weight as i128 * q.current_growth as i128
            + self.last_chap_weight as i128 * q.last_chapter_time as i128
    }
}

/// The items of smallest key that `budget` polls reach, as one flag per item.
fn top_picks(keys: Vec<(i128, usize)>, budget: i64) -> (r: Vec<bool>)
    requires
        indexed(keys@),
    ensures
        is_top(keys@, r@, reach(budget as int, keys@.len() as int)),
{
    let ghost original = keys@;
    let n = keys.len();
    let mut sorted = keys;
    sort_keys(&mut sorted);
    proof {
        lemma_sorted_keys(original, sorted@);
    }
    let m: usize = if budget <= 0 {
        0
    } else if budget as i128 >= n as i128 {
        n
    } else {
        budget as usize
    };
    let mut picks: Vec<bool> = Vec::new();
    let mut k: usize = 0;
    while k < n
        invariant
            k <= n,
            picks@.len() == k,
            forall|j: int| 0 <= j < k ==> !(#[trigger] picks@[j]),
        decreases n - k,
    {
        picks.push(false);
        k = k + 1;
    }
    proof {
        assert(count_true(picks@, n as int) == 0) by {
            lemma_no_true(picks@, n as int);
        }
    }
    let mut q: usize = 0;
    while q < m
        invariant
            m <= n,
            n == original.len(),
            sorted@.len() == n,
            picks@.len() == n,
            q <= m,
            count_true(picks@, n as int) == q,
            forall|p: int|
                0 <= p < sorted@.len() ==> (#[trigger] sorted@[p]).1 < n && sorted@[p] == original[sorted@[p].1 as int],
            sorted@.no_duplicates(),
            forall|p: int| 0 <= p < q ==> picks@[(#[trigger] sorted@[p]).1 as int],
            forall|j: int| 0 <= j < n && #[trigger] picks@[j] ==> exists|p: int| 0 <= p < q && sorted@[p].1 == j,
        decreases m - q,
    {
        let idx = sorted[q].1;
        proof {
            if picks@[idx as int] {
                let p = choose|p: int| 0 <= p < q && sorted@[p].1 == idx;
                assert(sorted@[p] == sorted@[q as int]);
            }
            lemma_count_set(picks@, idx as int, n as int);
        }
        picks.set(idx, true);
        q = q + 1;
    }
    proof {
        assert forall|i: int, j: int|
            0 <= i < n && 0 <= j < n && #[trigger] picks@[i] && !#[trigger] picks@[j] implies key_lt(
            original[i],
            original[j],
        ) by {
            let p = choose|p: int| 0 <= p < m && sorted@[p].1 == i;
            assert(sorted@.contains(original[j]));
            let qj = choose|qj: int| 0 <= qj < n && sorted@[qj] == original[j];
            assert(original[j].1 == j);
            assert(qj >= m);
            assert(!key_lt(sorted@[qj], sorted@[p]));
            assert(original[i].1 == i);
        }
    }
    picks
}

proof fn lemma_no_true(p: Seq<bool>, n: int)
    requires
        0 <= n <= p.len(),
        forall|j: int| 0 <= j < p.len() ==> !(#[trigger] p[j]),
    ensures
        count_true(p, n) == 0,
    decreases n,
{
    if n > 0 {
        lemma_no_true(p, n - 1);
    }
}

/// The largest subscriber count among the items, or 0.
fn largest_subs(items: &Vec<QueuedManga>) -> (r: usize)
    ensures
        r == max_subs(states(items@), items@.len() as int),
{
    let mut best: usize = 0;
    let mut i: usize = 0;
    while i < items.len()
        invariant
            i <= items@.len(),
            best == max_subs(states(items@), i as int),
        decreases items@.len() - i,
    {
        if items[i].subs > best {
            best = items[i].subs;
        }
        i = i + 1;
    }
    best
}

impl Model {
    /// One simulated minute under the ranked policy: brings every update
    /// cursor up to `at_time`, ranks the items by score, highest first and
    /// ties in item order, and polls as many from the top as
    /// `clients * SCAN_PER_MINUTE` polls allow. With `normalize_subs` the
    /// subscriber counts are divided by the largest of them.
    pub fn simulate_minute_ranked(
        &self,
        manga: &mut Vec<QueuedManga>,
        at_time: i64,
        clients: i32,
        normalize_subs: bool,
    ) -> (r: ScanResult)
        ensures
            ({
                let a = advance_all(states(old(manga)@), at_time as int);
                let keys = rank_keys(a, *self, subs_divisor(a, normalize_subs));
                let p = ranked_picks(keys, clients * SCAN_PER_MINUTE);
                &&& is_top(keys, p, reach(clients * SCAN_PER_MINUTE, a.len() as int))
                &&& states(final(manga)@) == stepped(a, at_time as int, p)
                &&& r == picked_total(a, at_time as int, p, a.len() as int)
            }),
            forall|i: int| 0 <= i < old(manga)@.len() ==> #[trigger] final(manga)@[i].last_chapter >= old(manga)@[i].last_chapter,
    {
        advance_items(manga, at_time);
        let ghost a = states(manga@);
        let largest = largest_subs(manga);
        let divisor: usize = if normalize_subs && largest > 0 {
            largest
        } else {
            1
        };
        let ghost keys_spec = rank_keys(a, *self, divisor as int);
        let mut keys: Vec<(i128, usize)> = Vec::new();
        let mut i: usize = 0;
        while i < manga.len()
            invariant
                states(manga@) == a,
                divisor >= 1,
                keys_spec == rank_keys(a, *self, divisor as int),
                i <= a.len(),
                keys@ == keys_spec.take(i as int),
            decreases a.len() - i,
        {
            let sc = self.score_of(&manga[i], divisor);
            keys.push((-sc, i));
            i = i + 1;
            assert(keys@ =~= keys_spec.take(i as int));
        }
        assert(keys@ =~= keys_spec);
        let budget: i64 = clients as i64 * SCAN_PER_MINUTE;
        let picks = top_picks(keys, budget);
        proof {
            let p = ranked_picks(keys_spec, budget as int);
            assert(is_top(keys_spec, p, reach(budget as int, keys_spec.len() as int)));
            lemma_top_unique(keys_spec, picks@, p, reach(budget as int, keys_spec.len() as int));
        }
        apply_picks(manga, at_time, &picks)
    }
}

} // verus!
