use vstd::prelude::*;

use crate::detector_queuer::{
    adaptive_picks, advance_all, lemma_scan_results_form_monoid, picked_total, states, stepped,
    tier, ItemState, Model, QueuedManga, ScanResult, SCAN_PER_MINUTE,
};
use crate::ranking::{rank_keys, ranked_picks, subs_divisor};

verus! {

/// How a tick chooses the items it polls.
#[derive(Debug, Clone, Copy, PartialEq, Eq)]
pub enum Policy {
    /// Lagging items first, then items due by their subscriber tier; `ranges`
    /// is the tier table.
    Adaptive { ranges: [usize; 5] },
    /// The items of highest score; with `normalize_subs` the subscriber counts
    /// are divided by the largest of them.
    Ranked { normalize_subs: bool },
}

/// The policy can judge every item: under the tiered policy each item's
/// subscriber count falls in a tier.
pub open spec fn policy_fits(policy: Policy, items: Seq<ItemState>) -> bool {
    match policy {
        Policy::Adaptive { ranges } => forall|i: int|
            0 <= i < items.len() ==> tier(ranges, (#[trigger] items[i]).subs) < 5,
        Policy::Ranked { .. } => true,
    }
}

/// The items a tick at minute `t` polls, once the update cursors are brought
/// up to `t`.
pub open spec fn tick_picks(a: Seq<ItemState>, t: int, m: Model, policy: Policy, clients: int) -> Seq<
    bool,
> {
    match policy {
        Policy::Adaptive { ranges } => adaptive_picks(a, t, ranges, clients * SCAN_PER_MINUTE),
        Policy::Ranked { normalize_subs } => ranked_picks(
            rank_keys(a, m, subs_divisor(a, normalize_subs)),
            clients * SCAN_PER_MINUTE,
        ),
    }
}

/// The item states after a tick at minute `t`, and what the tick found.
pub open spec fn tick(items: Seq<ItemState>, t: int, m: Model, policy: Policy, clients: int) -> (
    Seq<ItemState>,
    ScanResult,
) {
    let a = advance_all(items, t);
    let p = tick_picks(a, t, m, policy, clients);
    (stepped(a, t, p), picked_total(a, t, p, a.len() as int))
}

/// The item states after a tick at every minute from `t` up to, not
/// including, `end`, and everything the ticks found, combined.
pub open spec fn horizon(
    items: Seq<ItemState>,
    t: int,
    end: int,
    m: Model,
    policy: Policy,
    clients: int,
) -> (Seq<ItemState>, ScanResult)
    decreases end - t,
{
    if t >= end {
        (items, ScanResult::spec_zero())
    } else {
        let (next, found) = tick(items, t, m, policy, clients);
        let (last, rest) = horizon(next, t + 1, end, m, policy, clients);
        (last, found.combined(rest))
    }
}

proof fn lemma_picked_total_wf(a: Seq<ItemState>, t: int, p: Seq<bool>, n: int)
    ensures
        picked_total(a, t, p, n).wf(),
    decreases n,
{
    if n > 0 {
        lemma_picked_total_wf(a, t, p, n - 1);
        if p[n - 1] {
            crate::detector_queuer::lemma_poll_result_wf(a[n - 1], t);
        }
    }
}

proof fn lemma_tick_keeps_items(items: Seq<ItemState>, t: int, m: Model, policy: Policy, clients: int)
    ensures
        tick(items, t, m, policy, clients).0.len() == items.len(),
        forall|i: int|
            0 <= i < items.len() ==> (#[trigger] tick(items, t, m, policy, clients).0[i]).subs
                == items[i].subs,
        tick(items, t, m, policy, clients).1.wf(),
{
    let a = advance_all(items, t);
    lemma_picked_total_wf(a, t, tick_picks(a, t, m, policy, clients), a.len() as int);
}

proof fn lemma_horizon_wf(items: Seq<ItemState>, t: int, end: int, m: Model, policy: Policy, clients: int)
    ensures
        horizon(items, t, end, m, policy, clients).1.wf(),
    decreases end - t,
{
    if t < end {
        let (next, found) = tick(items, t, m, policy, clients);
        lemma_tick_keeps_items(items, t, m, policy, clients);
        lemma_horizon_wf(next, t + 1, end, m, policy, clients);
        lemma_scan_results_form_monoid(found, horizon(next, t + 1, end, m, policy, clients).1, found);
    }
}

/// A horizon run in two parts, the second from the states the first left,
/// ends in the same states and finds the same as the horizon run whole.
pub proof fn lemma_horizon_splits(
    items: Seq<ItemState>,
    start: int,
    mid: int,
    end: int,
    m: Model,
    policy: Policy,
    clients: int,
)
    requires
        start <= mid <= end,
    ensures
        ({
            let first = horizon(items, start, mid, m, policy, clients);
            let second = horizon(first.0, mid, end, m, policy, clients);
            let whole = horizon(items, start, end, m, policy, clients);
            &&& whole.0 == second.0
            &&& whole.1 == first.1.combined(second.1)
        }),
    decreases mid - start,
{
    let first = horizon(items, start, mid, m, policy, clients);
    let second = horizon(first.0, mid, end, m, policy, clients);
    lemma_horizon_wf(first.0, mid, end, m, policy, clients);
    if start == mid {
        lemma_scan_results_form_monoid(second.1, second.1, second.1);
    } else {
        let (next, found) = tick(items, start, m, policy, clients);
        lemma_tick_keeps_items(items, start, m, policy, clients);
        lemma_horizon_splits(next, start + 1, mid, end, m, policy, clients);
        lemma_horizon_wf(next, start + 1, mid, m, policy, clients);
        lemma_scan_results_form_monoid(found, horizon(next, start + 1, mid, m, policy, clients).1, second.1);
    }
}

impl Model {
    /// One simulated minute at `at_time` under `policy`, with
    /// `clients * SCAN_PER_MINUTE` polls to spend.
    pub fn step(&self, manga: &mut Vec<QueuedManga>, at_time: i64, policy: Policy, clients: i32) -> (r: ScanResult)
        requires
            policy_fits(policy, states(old(manga)@)),
        ensures
            (states(final(manga)@), r) == tick(states(old(manga)@), at_time as int, *self, policy, clients as int),
            final(manga)@.len() == old(manga)@.len(),
            forall|i: int| 0 <= i < old(manga)@.len() ==> #[trigger] final(manga)@[i].last_chapter >= old(manga)@[i].last_chapter,
    {
        proof {
            lemma_tick_keeps_items(states(manga@), at_time as int, *self, policy, clients as int);
        }
        match policy {
            Policy::Adaptive { ranges } => {
                proof {
                    assert forall|i: int| 0 <= i < manga@.len() implies tier(ranges, (#[trigger] manga@[i]).subs) < 5 by {
                        assert(states(manga@)[i] == manga@[i]@);
                    }
                }
                self.simulate_minute(manga, at_time, ranges, clients)
            },
            Policy::Ranked { normalize_subs } => {
                self.simulate_minute_ranked(manga, at_time, clients, normalize_subs)
            },
        }
    }

    /// Ticks at every minute from `start` up to, not including, `end`, and
    /// combines what the ticks found. Update cursors only move forward.
    pub fn simulate(
        &self,
        manga: &mut Vec<QueuedManga>,
        start: i64,
        end: i64,
        policy: Policy,
        clients: i32,
    ) -> (r: ScanResult)
        requires
            policy_fits(policy, states(old(manga)@)),
        ensures
            (states(final(manga)@), r) == horizon(states(old(manga)@), start as int, end as int, *self, policy, clients as int),
            final(manga)@.len() == old(manga)@.len(),
            forall|i: int|
                0 <= i < old(manga)@.len() ==> (#[trigger] states(final(manga)@)[i]).last_chapter
                    >= states(old(manga)@)[i].last_chapter,
    {
        let ghost first = states(manga@);
        let ghost whole = horizon(first, start as int, end as int, *self, policy, clients as int);
        let mut acc = ScanResult::zero();
        let mut t: i64 = start;
        while t < end
            invariant
                start <= t || end <= start,
                whole == horizon(first, start as int, end as int, *self, policy, clients as int),
                t < end ==> start <= t,
                horizon(states(manga@), t as int, end as int, *self, policy, clients as int).0 == whole.0,
                acc.combined(horizon(states(manga@), t as int, end as int, *self, policy, clients as int).1) == whole.1,
                acc.wf(),
                policy_fits(policy, states(manga@)),
                manga@.len() == first.len(),
                forall|i: int| 0 <= i < first.len() ==> (#[trigger] states(manga@)[i]).last_chapter >= first[i].last_chapter,
            decreases end - t,
        {
            let ghost cur = states(manga@);
            let ghost old_manga = manga@;
            proof {
                lemma_tick_keeps_items(cur, t as int, *self, policy, clients as int);
                let (next, found) = tick(cur, t as int, *self, policy, clients as int);
                lemma_horizon_wf(next, t + 1, end as int, *self, policy, clients as int);
                lemma_scan_results_form_monoid(acc, found, horizon(next, t + 1, end as int, *self, policy, clients as int).1);
            }
            let found = self.step(manga, t, policy, clients);
            proof {
                assert forall|i: int| 0 <= i < first.len() implies (#[trigger] states(manga@)[i]).last_chapter >= first[i].last_chapter by {
                    assert(states(manga@)[i] == manga@[i]@);
                    assert(states(old_manga)[i] == old_manga[i]@);
                }
                lemma_scan_results_form_monoid(acc, found, found);
            }
            acc = acc + found;
            t = t + 1;
        }
        proof {
            lemma_scan_results_form_monoid(acc, acc, acc);
        }
        acc
    }
}

} // verus!
