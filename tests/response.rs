use petgraph::graph::NodeIndex;
use rand::rngs::StdRng;
use rand::{Rng, SeedableRng};
use shepherd::feed::{Feed, Response};
use shepherd::graph::Simulation;
use shepherd::ids::{ItemId, SheepId, TagId};
use shepherd::sheep::{process_feed, rate, PathMeasure};

#[test]
fn rate_at_distance_zero_is_positive() {
    assert_eq!(rate(0, &vec![]), Response::Positive);
    assert_eq!(rate(0, &vec![9, 9]), Response::Positive);
}

#[test]
fn rate_by_digits() {
    assert_eq!(rate(3, &vec![0, 4, 3]), Response::Positive);
    assert_eq!(rate(3, &vec![0, 0, 0]), Response::Positive);
    assert_eq!(rate(3, &vec![1, 5, 3]), Response::Neutral);
    assert_eq!(rate(3, &vec![8, 8, 8]), Response::Neutral);
    assert_eq!(rate(3, &vec![1, 9, 3]), Response::Negative);
    assert_eq!(rate(3, &vec![0, 0, 9]), Response::Negative);
    assert_eq!(rate(2, &vec![1, 1, 9]), Response::Positive);
}

#[test]
fn thresholds_shrink_with_distance() {
    let mut last_pos = 2.0f64;
    for d in 0..40i32 {
        let pos = 0.5f64.powi(d);
        let neu = 0.9f64.powi(d);
        assert!(pos <= last_pos);
        assert!(pos <= neu);
        last_pos = pos;
    }
}

#[test]
fn response_rates_match_the_law() {
    for d in [1u32, 2, 3, 5] {
        let mut rng = StdRng::seed_from_u64(d as u64);
        let n = 40_000;
        let (mut pos, mut neu, mut neg) = (0, 0, 0);
        for _ in 0..n {
            let digits: Vec<u8> = (0..d).map(|_| rng.gen_range(0..=9u8)).collect();
            match rate(d, &digits) {
                Response::Positive => pos += 1,
                Response::Neutral => neu += 1,
                Response::Negative => neg += 1,
            }
        }
        let p_pos = 0.5f64.powi(d as i32);
        let p_neu = 0.9f64.powi(d as i32);
        let tol = 0.02;
        assert!((pos as f64 / n as f64 - p_pos).abs() < tol);
        assert!((neu as f64 / n as f64 - (p_neu - p_pos)).abs() < tol);
        assert!((neg as f64 / n as f64 - (1.0 - p_neu)).abs() < tol);
    }
}

#[test]
fn process_feed_rates_follow_the_law() {
    let mut g = Simulation::new();
    let s: Vec<SheepId> = g.create_nodes(1);
    let t: Vec<TagId> = g.create_nodes(1);
    let i: Vec<ItemId> = g.create_nodes(1);
    g.0.add_edge(NodeIndex::new(s[0].0), NodeIndex::new(t[0].0), 1);
    g.0.add_edge(NodeIndex::new(t[0].0), NodeIndex::new(i[0].0), 1);
    let mut rng = StdRng::seed_from_u64(11);
    let feed = Feed(vec![i[0]; 20_000]);
    let r = process_feed(&mut rng, &g, s[0], feed);
    assert_eq!(r.0.len(), 20_000);
    let pos = r.0.iter().filter(|e| e.1 == Response::Positive).count() as f64 / 20_000.0;
    let neg = r.0.iter().filter(|e| e.1 == Response::Negative).count() as f64 / 20_000.0;
    assert!((pos - 0.25).abs() < 0.02);
    assert!((neg - 0.19).abs() < 0.02);
    assert!(r.0.iter().all(|e| e.2 == Some(2)));
}

#[test]
fn path_measures_add_by_field() {
    let m = PathMeasure::new(4) + PathMeasure::new(3);
    assert_eq!(m, PathMeasure(7, 2));
    assert_eq!(PathMeasure::default(), PathMeasure(0, 0));
    assert!(PathMeasure(3, 9) < PathMeasure(4, 1));
    assert!(PathMeasure(3, 1) < PathMeasure(3, 2));
}
