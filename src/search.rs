use vstd::prelude::*;

use crate::calculate_peaks::Ratio;
use crate::detector_queuer::{states, ItemState, Model, QueuedManga, ScanResult};
use crate::simulation::{horizon, policy_fits, Policy};

verus! {

/// Multiplier of the linear congruential generator.
pub const LCG_MUL: u64 = 6364136223846793005;

/// Increment of the linear congruential generator.
pub const LCG_INC: u64 = 1442695040888963407;

/// A weight drawn from `[0, 1)` is a whole number of millionths below this.
pub const WEIGHT_SCALE: u64 = 1000000;

/// The generator state that follows `s`.
pub open spec fn lcg_next(s: u64) -> u64 {
    ((s * LCG_MUL + LCG_INC) % 0x1_0000_0000_0000_0000) as u64
}

/// The weight, in millionths, read from a generator state: its high bits
/// reduced to `[0, WEIGHT_SCALE)`.
pub open spec fn weight_of(s: u64) -> i32 {
    ((s / 0x2_0000_0000) % WEIGHT_SCALE) as i32
}

/// A seedable source of uniform weights.
#[derive(Debug, Clone, Copy, PartialEq, Eq, Structural)]
pub struct Rng {
    pub state: u64,
}

/// The model of four weights drawn one after another from state `s`, and
/// the state after the draws.
pub open spec fn drawn_model(s: u64) -> (Model, u64) {
    let s1 = lcg_next(s);
    let s2 = lcg_next(s1);
    let s3 = lcg_next(s2);
    let s4 = lcg_next(s3);
    (
        Model {
            subcount_weight: weight_of(s1),
            last_scan_weight: weight_of(s2),
            current_growth_weight: weight_of(s3),
            last_chap_weight: weight_of(s4),
        },
        s4,
    )
}

impl Rng {
    pub fn new(seed: u64) -> (r: Rng)
        ensures
            r.state == seed,
    {
        Rng { state: seed }
    }

    /// Draws a weight uniformly from `[0, 1)`, in millionths.
    pub fn next_weight(&mut self) -> (r: i32)
        ensures
            final(self).state == lcg_next(old(self).state),
            r == weight_of(final(self).state),
            0 <= r < WEIGHT_SCALE,
    {
        proof {
            assert(self.state * LCG_MUL + LCG_INC < 0x1_0000_0000_0000_0000_0000_0000_0000_0000) by (nonlinear_arith)
                requires
                    self.state < 0x1_0000_0000_0000_0000,
            ;
        }
        let next: u128 = (self.state as u128 * LCG_MUL as u128 + LCG_INC as u128) % 0x1_0000_0000_0000_0000;
        self.state = next as u64;
        ((self.state / 0x2_0000_0000) % WEIGHT_SCALE) as i32
    }

    /// A model of four fresh weights, drawn in field order.
    pub fn random_model(&mut self) -> (r: Model)
        ensures
            (r, final(self).state) == drawn_model(old(self).state),
    {
        let subcount_weight = self.next_weight();
        let last_scan_weight = self.next_weight();
        let current_growth_weight = self.next_weight();
        let last_chap_weight = self.next_weight();
        Model::from_weights(subcount_weight, last_scan_weight, current_growth_weight, last_chap_weight)
    }
}

/// What a trial's score measures.
#[derive(Debug, Clone, Copy, PartialEq, Eq, Structural)]
pub enum Objective {
    /// Events found per poll made.
    PerPoll,
    /// Events found out of the events known to exist.
    PerEvent { total_events: usize },
}

/// A counter read as a count, negative values as zero.
pub open spec fn as_count(x: int) -> usize {
    if x < 0 {
        0
    } else {
        x as usize
    }
}

/// The score of a horizon's result: found events over polls, or over known
/// events; a zero denominator scores zero.
pub open spec fn trial_score(r: ScanResult, objective: Objective) -> Ratio {
    match objective {
        Objective::PerPoll => Ratio { num: as_count(r.found as int), den: as_count(r.scanned as int) },
        Objective::PerEvent { total_events } => Ratio { num: as_count(r.found as int), den: total_events },
    }
}

pub fn score_trial(r: ScanResult, objective: Objective) -> (s: Ratio)
    ensures
        s == trial_score(r, objective),
{
    let found: usize = if r.found < 0 {
        0
    } else {
        r.found as usize
    };
    match objective {
        Objective::PerPoll => {
            let scanned: usize = if r.scanned < 0 {
                0
            } else {
                r.scanned as usize
            };
            Ratio::new(found, scanned)
        },
        Objective::PerEvent { total_events } => Ratio::new(found, total_events),
    }
}

/// The horizon a trial is run over and how it is scored.
#[derive(Debug, Clone, Copy, PartialEq, Eq)]
pub struct SearchConfig {
    pub start: i64,
    pub end: i64,
    pub policy: Policy,
    pub clients: i32,
    pub objective: Objective,
}

/// The score of one trial of model `m` from the item states `items`.
pub open spec fn trial_of(items: Seq<ItemState>, m: Model, c: SearchConfig) -> Ratio {
    trial_score(
        horizon(items, c.start as int, c.end as int, m, c.policy, c.clients as int).1,
        c.objective,
    )
}

/// The `k` trials of a lane from the item states `items`: the first with model
/// `m`, each following one with a model drawn from the generator, whose state
/// starts at `s`.
pub open spec fn lane_trials(items: Seq<ItemState>, m: Model, s: u64, k: nat, c: SearchConfig) -> Seq<
    (Ratio, Model),
>
    decreases k,
{
    if k == 0 {
        Seq::empty()
    } else {
        let (next, s2) = drawn_model(s);
        seq![(trial_of(items, m, c), m)] + lane_trials(items, next, s2, (k - 1) as nat, c)
    }
}

/// The generator state after `k` trials from state `s`.
pub open spec fn lane_state(s: u64, k: nat) -> u64
    decreases k,
{
    if k == 0 {
        s
    } else {
        lane_state(drawn_model(s).1, (k - 1) as nat)
    }
}

fn copy_times(v: &Vec<i64>) -> (r: Vec<i64>)
    ensures
        r@ == v@,
{
    let mut r: Vec<i64> = Vec::new();
    let mut i: usize = 0;
    while i < v.len()
        invariant
            i <= v@.len(),
            r@ == v@.take(i as int),
        decreases v@.len() - i,
    {
        r.push(v[i]);
        i = i + 1;
        assert(r@ =~= v@.take(i as int));
    }
    assert(v@.take(i as int) =~= v@);
    r
}

impl QueuedManga {
    /// An independent copy of the item's state.
    pub fn duplicate(&self) -> (r: QueuedManga)
        ensures
            r@ == self@,
    {
        QueuedManga {
            chapters: copy_times(&self.chapters),
            subs: self.subs,
            comments: copy_times(&self.comments),
            last_scan: self.last_scan,
            current_growth: self.current_growth,
            last_chapter: self.last_chapter,
            last_chapter_time: self.last_chapter_time,
        }
    }
}

/// An independent copy of every item's state.
pub fn copy_items(items: &Vec<QueuedManga>) -> (r: Vec<QueuedManga>)
    ensures
        states(r@) == states(items@),
        r@.len() == items@.len(),
{
    let mut r: Vec<QueuedManga> = Vec::new();
    let mut i: usize = 0;
    while i < items.len()
        invariant
            i <= items@.len(),
            r@.len() == i,
            forall|j: int| 0 <= j < i ==> (#[trigger] r@[j])@ == items@[j]@,
        decreases items@.len() - i,
    {
        r.push(items[i].duplicate());
        i = i + 1;
    }
    assert(states(r@) =~= states(items@));
    r
}

/// Runs `trials` trials, each over a fresh copy of `items`: the first with
/// `seed`, each following one with four weights drawn from `rng`. Every trial
/// is recorded, in order, with its score and model.
pub fn run_lane(
    items: &Vec<QueuedManga>,
    seed: Model,
    trials: usize,
    rng: &mut Rng,
    config: SearchConfig,
) -> (r: Vec<(Ratio, Model)>)
    requires
        policy_fits(config.policy, states(items@)),
    ensures
        r@ == lane_trials(states(items@), seed, old(rng).state, trials as nat, config),
        final(rng).state == lane_state(old(rng).state, trials as nat),
        trials > 0 ==> r@[0] == (trial_of(states(items@), seed, config), seed),
{
    let ghost base = states(items@);
    let ghost s0 = rng.state;
    let mut results: Vec<(Ratio, Model)> = Vec::new();
    let mut model = seed;
    let mut k: usize = 0;
    while k < trials
        invariant
            k <= trials,
            base == states(items@),
            policy_fits(config.policy, base),
            results@ + lane_trials(base, model, rng.state, (trials - k) as nat, config) == lane_trials(
                base,
                seed,
                s0,
                trials as nat,
                config,
            ),
            lane_state(rng.state, (trials - k) as nat) == lane_state(s0, trials as nat),
        decreases trials - k,
    {
        let mut copy = copy_items(items);
        let found = model.simulate(&mut copy, config.start, config.end, config.policy, config.clients);
        let score = score_trial(found, config.objective);
        let ghost before = rng.state;
        let ghost prev = model;
        let ghost done = results@;
        let ghost rest = lane_trials(base, model, before, (trials - k) as nat, config);
        results.push((score, model));
        model = rng.random_model();
        proof {
            let tail = lane_trials(base, model, rng.state, (trials - k - 1) as nat, config);
            assert(rest == seq![(score, prev)] + tail);
            assert(results@ + tail =~= done + (seq![(score, prev)] + tail));
        }
        k = k + 1;
    }
    assert(results@ + Seq::<(Ratio, Model)>::empty() =~= results@);
    results
}

/// Index of the first trial that no trial among the first `n` beats.
pub open spec fn best_upto(trials: Seq<(Ratio, Model)>, n: int) -> int
    decreases n,
{
    if n <= 1 {
        0
    } else {
        let b = best_upto(trials, n - 1);
        if trials[n - 1].0.spec_gt(trials[b].0) {
            n - 1
        } else {
            b
        }
    }
}

proof fn lemma_ratio_order(x: Ratio, y: Ratio, z: Ratio)
    requires
        !x.spec_gt(y),
        z.spec_gt(y),
    ensures
        !x.spec_gt(z),
{
    let (a, b) = x.value();
    let (c, d) = y.value();
    let (e, f) = z.value();
    assert(b > 0 && d > 0 && f > 0);
    assert(a * d <= c * b);
    assert(e * d > c * f);
    assert(a * f <= e * b) by (nonlinear_arith)
        requires
            a * d <= c * b,
            e * d > c * f,
            b > 0,
            d > 0,
            f > 0,
    {
        assert(a * d * f <= c * b * f);
        assert(e * d * b > c * f * b);
        assert(c * b * f == c * f * b);
        assert(a * f * d < e * b * d);
    }
}

proof fn lemma_best_upto(trials: Seq<(Ratio, Model)>, n: int)
    requires
        1 <= n <= trials.len(),
    ensures
        0 <= best_upto(trials, n) < n,
        forall|j: int| 0 <= j < n ==> !(#[trigger] trials[j]).0.spec_gt(trials[best_upto(trials, n)].0),
    decreases n,
{
    if n > 1 {
        lemma_best_upto(trials, n - 1);
        let b = best_upto(trials, n - 1);
        if trials[n - 1].0.spec_gt(trials[b].0) {
            assert forall|j: int| 0 <= j < n implies !(#[trigger] trials[j]).0.spec_gt(trials[n - 1].0) by {
                if j < n - 1 {
                    lemma_ratio_order(trials[j].0, trials[b].0, trials[n - 1].0);
                }
            }
        }
    }
}

/// The best trial: the first whose score no other trial's beats.
pub fn best_trial(trials: &Vec<(Ratio, Model)>) -> (r: Option<(Ratio, Model)>)
    ensures
        r is None <==> trials@.len() == 0,
        r matches Some(x) ==> x == trials@[best_upto(trials@, trials@.len() as int)],
        r matches Some(x) ==> forall|j: int| 0 <= j < trials@.len() ==> !(#[trigger] trials@[j]).0.spec_gt(x.0),
{
    if trials.len() == 0 {
        return None;
    }
    let mut b: usize = 0;
    let mut i: usize = 1;
    while i < trials.len()
        invariant
            1 <= i <= trials@.len(),
            b < i,
            b == best_upto(trials@, i as int),
        decreases trials@.len() - i,
    {
        if trials[i].0.gt(&trials[b].0) {
            b = i;
        }
        i = i + 1;
    }
    proof {
        lemma_best_upto(trials@, trials@.len() as int);
    }
    Some(trials[b])
}

/// The lanes' trials one lane after another, over the first `n` lanes.
pub open spec fn joined(lanes: Seq<Seq<(Ratio, Model)>>, n: int) -> Seq<(Ratio, Model)>
    decreases n,
{
    if n <= 0 {
        Seq::empty()
    } else {
        joined(lanes, n - 1) + lanes[n - 1]
    }
}

pub open spec fn lane_views(lanes: Seq<Vec<(Ratio, Model)>>) -> Seq<Seq<(Ratio, Model)>> {
    lanes.map_values(|l: Vec<(Ratio, Model)>| l@)
}

/// Joins the lanes' trials, one lane after another, and picks the best: the
/// first whose score no other trial's beats.
pub fn best_of_lanes(lanes: &Vec<Vec<(Ratio, Model)>>) -> (r: Option<(Ratio, Model)>)
    ensures
        ({
            let all = joined(lane_views(lanes@), lanes@.len() as int);
            &&& r is None <==> all.len() == 0
            &&& r matches Some(x) ==> x == all[best_upto(all, all.len() as int)]
            &&& r matches Some(x) ==> forall|j: int| 0 <= j < all.len() ==> !(#[trigger] all[j]).0.spec_gt(x.0)
        }),
{
    let mut all: Vec<(Ratio, Model)> = Vec::new();
    let mut i: usize = 0;
    while i < lanes.len()
        invariant
            i <= lanes@.len(),
            all@ == joined(lane_views(lanes@), i as int),
        decreases lanes@.len() - i,
    {
        let mut j: usize = 0;
        let ghost before = all@;
        while j < lanes[i].len()
            invariant
                i < lanes@.len(),
                j <= lanes@[i as int]@.len(),
                all@ == before + lanes@[i as int]@.take(j as int),
            decreases lanes@[i as int]@.len() - j,
        {
            all.push(lanes[i][j]);
            j = j + 1;
            assert(all@ =~= before + lanes@[i as int]@.take(j as int));
        }
        assert(lanes@[i as int]@.take(j as int) =~= lanes@[i as int]@);
        assert(lane_views(lanes@)[i as int] == lanes@[i as int]@);
        i = i + 1;
    }
    best_trial(&all)
}

} // verus!
