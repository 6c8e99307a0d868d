use manga_scan::calculate_peaks::Ratio;
use manga_scan::detector_queuer::{Model, QueuedManga, ScanResult};
use manga_scan::manga::{Chapter, ChapterNo, Comment, Manga};
use manga_scan::search::{
    best_of_lanes, best_trial, copy_items, run_lane, score_trial, Objective, Rng, SearchConfig,
};
use manga_scan::simulation::Policy;

fn manga(subs: usize, chapters: Vec<i64>, comments: Vec<i64>) -> Manga {
    Manga {
        name: format!("item {}", subs),
        chapters: chapters
            .into_iter()
            .enumerate()
            .map(|(i, date)| Chapter { chap_no: ChapterNo(i as u32 + 1, 0), date })
            .collect(),
        subs,
        comments: comments
            .into_iter()
            .enumerate()
            .map(|(i, date)| Comment { id: i as u32, date })
            .collect(),
    }
}

const RANGES: [usize; 5] = [1000, 100, 10, 1, 0];

#[test]
fn scan_results_form_a_monoid() {
    let a = ScanResult { found: 3, scanned: 2, time_to_scan: 40 };
    let b = ScanResult { found: 1, scanned: 5, time_to_scan: 7 };
    let c = ScanResult { found: 0, scanned: 1, time_to_scan: 0 };
    assert_eq!(a.combine(b).combine(c), a.combine(b.combine(c)));
    assert_eq!(a.combine(b), ScanResult { found: 4, scanned: 7, time_to_scan: 47 });
    assert_eq!(a + b, a.combine(b));
    assert_eq!(a.combine(ScanResult::zero()), a);
    assert_eq!(ScanResult::zero().combine(a), a);
    assert_eq!(ScanResult::new(2, 9), ScanResult { found: 2, scanned: 1, time_to_scan: 9 });
}

#[test]
fn scan_results_saturate() {
    let big = ScanResult { found: i32::MAX, scanned: 1, time_to_scan: i64::MAX - 1 };
    let r = big.combine(ScanResult::new(5, 5));
    assert_eq!(r, ScanResult { found: i32::MAX, scanned: 2, time_to_scan: i64::MAX });
}

#[test]
fn new_state_starts_at_the_horizon() {
    let m = manga(42, vec![100, 200], vec![-2000, -1000, -10, 0, 5]);
    let q = QueuedManga::new(&m, 0);
    assert_eq!(q.chapters, vec![100, 200]);
    assert_eq!(q.comments, vec![-2000, -1000, -10, 0, 5]);
    assert_eq!(q.subs, 42);
    assert_eq!(q.last_scan, 0);
    // events in (-1440, 0]
    assert_eq!(q.current_growth, 3);
    assert_eq!(q.last_known_update_index(), 0);
    assert_eq!(q.last_known_update_time(), 100);
    let all = QueuedManga::from_mangas(&[m.clone(), manga(1, vec![], vec![])], 7);
    assert_eq!(all.len(), 2);
    assert_eq!(all[1].last_scan, 7);
    assert_eq!(all[1].last_known_update_time(), 0);
}

#[test]
fn scan_counts_events_since_the_last_poll() {
    let mut q = QueuedManga::new(&manga(5, vec![], vec![10, 20, 30, 40]), 10);
    let r = q.scan(30);
    // events in (10, 30]: 20 and 30
    assert_eq!(r, ScanResult { found: 2, scanned: 1, time_to_scan: 10 });
    assert_eq!(q.last_scan, 30);
    assert_eq!(q.current_growth, 3);
}

#[test]
fn second_poll_at_the_same_minute_finds_nothing() {
    let mut q = QueuedManga::new(&manga(5, vec![], vec![10, 20, 30]), 0);
    assert_eq!(q.scan(25).found, 2);
    let again = q.scan(25);
    assert_eq!(again.found, 0);
    assert_eq!(again.time_to_scan, 0);
}

#[test]
fn update_cursor_never_moves_back() {
    let mut q = QueuedManga::new(&manga(5, vec![10, 20, 30], vec![]), 0);
    q.update_last_chapter(25);
    assert_eq!(q.last_known_update_index(), 1);
    assert_eq!(q.last_known_update_time(), 20);
    q.update_last_chapter(15);
    assert_eq!(q.last_known_update_index(), 1);
    q.update_last_chapter(30);
    assert_eq!(q.last_known_update_index(), 2);
    q.update_last_chapter(1000);
    assert_eq!(q.last_known_update_index(), 2);
    assert_eq!(q.last_known_update_time(), 30);
}

#[test]
fn tiers_set_the_wait_and_staleness_boosts_it() {
    // 5 subscribers: three entries above, so tier 3 and a 40 minute wait
    let q = QueuedManga::new(&manga(5, vec![], vec![]), 0);
    assert!(!q.should_scan(40, RANGES));
    assert!(q.should_scan(41, RANGES));
    // 5000 subscribers: tier 0, a 5 minute wait
    let big = QueuedManga::new(&manga(5000, vec![], vec![]), 0);
    assert!(!big.should_scan(5, RANGES));
    assert!(big.should_scan(6, RANGES));
    assert!(!big.should_scan(0, RANGES));
    // 100 subscribers under another table: tier 2, a 20 minute wait
    let mid = QueuedManga::new(&manga(100, vec![], vec![]), 0);
    assert!(!mid.should_scan(20, [1000, 500, 100, 10, 0]));
    assert!(mid.should_scan(21, [1000, 500, 100, 10, 0]));
}

#[test]
fn tiered_minute_polls_laggards_first_within_budget() {
    let items: Vec<Manga> = (0..40).map(|i| manga(5000, vec![], vec![50 + i])).collect();
    let mut queue = QueuedManga::from_mangas(&items, 0);
    // every item is lagging at minute 100; one client polls 30 of them
    let r = Model::new().simulate_minute(&mut queue, 100, RANGES, 1);
    assert_eq!(r.scanned, 30);
    assert_eq!(r.found, 30);
    for (i, q) in queue.iter().enumerate() {
        assert_eq!(q.last_scan, if i < 30 { 100 } else { 0 });
    }
    // no clients, no polls
    let r = Model::new().simulate_minute(&mut queue, 101, RANGES, 0);
    assert_eq!(r, ScanResult::zero());
}

#[test]
fn ranked_minute_polls_the_highest_scores() {
    let items: Vec<Manga> = (1..=31).map(|s| manga(s, vec![], vec![50])).collect();
    let mut queue = QueuedManga::from_mangas(&items, 0);
    let model = Model::from_weights(1_000_000, 0, 0, 0);
    let r = model.simulate_minute_ranked(&mut queue, 60, 1, false);
    assert_eq!(r.scanned, 30);
    assert_eq!(r.found, 30);
    assert_eq!(queue[0].last_scan, 0);
    assert!(queue[1..].iter().all(|q| q.last_scan == 60));
    assert_eq!(model.score_of(&queue[3], 1), 4_000_000 as i128);
    assert_eq!(model.score_of(&queue[3], 31), 4_000_000 / 31);
}

#[test]
fn ranked_ties_go_to_the_earlier_item() {
    let items: Vec<Manga> = (0..31).map(|_| manga(7, vec![], vec![])).collect();
    let mut queue = QueuedManga::from_mangas(&items, 0);
    Model::new().simulate_minute_ranked(&mut queue, 1, 1, true);
    assert!(queue[..30].iter().all(|q| q.last_scan == 1));
    assert_eq!(queue[30].last_scan, 0);
}

#[test]
fn one_item_over_a_horizon() {
    let item = manga(100, vec![], vec![10, 2000]);
    let policies = [
        // polled every minute: each event found the minute it happens
        (Policy::Ranked { normalize_subs: false }, 3000, 0),
        // polled at minutes 6, 12, ..., 2994: found at 12 and 2004
        (Policy::Adaptive { ranges: [0, 0, 0, 0, 0] }, 499, 2 + 4),
    ];
    for (policy, polls, latency) in policies {
        let mut queue = QueuedManga::from_mangas(&[item.clone()], 0);
        let r = Model::new().simulate(&mut queue, 0, 3000, policy, 1);
        assert_eq!(r.found, 2);
        assert_eq!(r.scanned, polls);
        assert_eq!(r.time_to_scan, latency);
    }
}

#[test]
fn horizon_is_the_sum_of_its_minutes() {
    let items: Vec<Manga> = (0..3).map(|i| manga(10 * i + 1, vec![5, 50], vec![3, 17, 90 + i as i64])).collect();
    let mut whole = QueuedManga::from_mangas(&items, 0);
    let mut stepwise = QueuedManga::from_mangas(&items, 0);
    let policy = Policy::Adaptive { ranges: RANGES };
    let r = Model::new().simulate(&mut whole, 0, 200, policy, 1);
    let mut acc = ScanResult::zero();
    for t in 0..200 {
        acc = acc.combine(Model::new().step(&mut stepwise, t, policy, 1));
    }
    assert_eq!(r, acc);
    assert_eq!(r.found, 9);
    assert!(whole.iter().all(|q| q.last_known_update_index() == 1));
}

#[test]
fn generator_is_deterministic() {
    let mut rng = Rng::new(42);
    assert_eq!(rng.next_weight(), 265334);
    let mut other = Rng::new(42);
    let m = other.random_model();
    assert_eq!(m, Model::from_weights(265334, 179026, 563538, 769503));
    assert_eq!(other.state, 11628791489956661374);
}

fn config(policy: Policy) -> SearchConfig {
    SearchConfig { start: 0, end: 300, policy, clients: 1, objective: Objective::PerPoll }
}

#[test]
fn a_single_trial_records_the_seed() {
    let items: Vec<Manga> = (1..=3).map(|s| manga(s, vec![], vec![10 * s as i64, 250])).collect();
    let queue = QueuedManga::from_mangas(&items, 0);
    let seed = Model::from_weights(10, -3, 7, 0);
    let cfg = config(Policy::Ranked { normalize_subs: true });
    let mut rng = Rng::new(7);
    let trials = run_lane(&queue, seed, 1, &mut rng, cfg);
    let mut copy = copy_items(&queue);
    let direct = seed.simulate(&mut copy, 0, 300, cfg.policy, 1);
    assert_eq!(trials, vec![(score_trial(direct, Objective::PerPoll), seed)]);
    assert_eq!(direct.found, 6);
    // the lane works on copies
    assert!(queue.iter().all(|q| q.last_scan == 0));
}

#[test]
fn later_trials_use_drawn_weights() {
    let items: Vec<Manga> = (1..=3).map(|s| manga(s, vec![], vec![10 * s as i64])).collect();
    let queue = QueuedManga::from_mangas(&items, 0);
    let mut rng = Rng::new(42);
    let trials = run_lane(&queue, Model::new(), 3, &mut rng, config(Policy::Ranked { normalize_subs: false }));
    assert_eq!(trials.len(), 3);
    assert_eq!(trials[0].1, Model::new());
    assert_eq!(trials[1].1, Model::from_weights(265334, 179026, 563538, 769503));
    assert_ne!(trials[2].1, trials[1].1);
}

#[test]
fn trial_scores() {
    let r = ScanResult { found: 3, scanned: 12, time_to_scan: 0 };
    assert_eq!(score_trial(r, Objective::PerPoll), Ratio::new(3, 12));
    assert_eq!(score_trial(r, Objective::PerEvent { total_events: 4 }), Ratio::new(3, 4));
    assert_eq!(score_trial(ScanResult::zero(), Objective::PerPoll), Ratio::new(0, 0));
}

#[test]
fn the_best_trial_wins_across_lanes() {
    let m = |w: i32| Model::from_weights(w, 0, 0, 0);
    let lane_a = vec![(Ratio::new(1, 4), m(1)), (Ratio::new(1, 2), m(2))];
    let lane_b = vec![(Ratio::new(2, 4), m(3)), (Ratio::new(2, 3), m(4)), (Ratio::new(0, 0), m(5))];
    assert_eq!(best_trial(&lane_a), Some((Ratio::new(1, 2), m(2))));
    assert_eq!(best_trial(&Vec::new()), None);
    assert_eq!(best_of_lanes(&vec![lane_a.clone(), lane_b]), Some((Ratio::new(2, 3), m(4))));
    // equal scores: the first one stays
    assert_eq!(best_of_lanes(&vec![lane_a, vec![(Ratio::new(2, 4), m(9))]]), Some((Ratio::new(1, 2), m(2))));
    assert_eq!(best_of_lanes(&vec![Vec::new()]), None);
}

#[test]
fn a_horizon_run_in_two_parts_matches_one_run() {
    let items: Vec<Manga> = (0..5).map(|i| manga(3 * i + 1, vec![20, 140], vec![15, 60 + i as i64, 150])).collect();
    let policy = Policy::Ranked { normalize_subs: true };
    let model = Model::from_weights(500_000, -1_000, 250_000, 10);
    let mut whole = QueuedManga::from_mangas(&items, 0);
    let mut parts = QueuedManga::from_mangas(&items, 0);
    let r = model.simulate(&mut whole, 0, 200, policy, 0);
    let first = model.simulate(&mut parts, 0, 90, policy, 0);
    let second = model.simulate(&mut parts, 90, 200, policy, 0);
    assert_eq!(r, first + second);
    assert_eq!(r, ScanResult::zero());
    let r = model.simulate(&mut whole, 200, 400, policy, 1);
    let first = model.simulate(&mut parts, 200, 333, policy, 1);
    let second = model.simulate(&mut parts, 333, 400, policy, 1);
    assert_eq!(r, first + second);
    assert_eq!(r.found, 15);
    for (a, b) in whole.iter().zip(parts.iter()) {
        assert_eq!(a.last_scan, b.last_scan);
        assert_eq!(a.current_growth, b.current_growth);
        assert_eq!(a.last_known_update_index(), b.last_known_update_index());
    }
}
