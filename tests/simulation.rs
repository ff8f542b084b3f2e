use rand::rngs::StdRng;
use rand::SeedableRng;
use shepherd::feed::Feed;
use shepherd::ids::{ItemId, SheepId};
use shepherd::shepherd::SimulationEvent;
use shepherd::simulation::{Settings, Simulation, SimulationError, Step};
use std::collections::HashSet;

fn empty_settings() -> Settings {
    Settings {
        n_tags_bounds: (0, 0),
        n_items_bounds: (0, 0),
        n_item_tags_bounds: (0, 0),
        n_sheep_tags_bounds: (0, 0),
        initial_n_tags_bounds: (0, 0),
        initial_n_items_bounds: (0, 0),
        initial_n_sheep_bounds: (0, 0),
        average_tags_per_group: 1,
        orphaned_tag_threshold: 0,
    }
}

fn small_settings() -> Settings {
    Settings {
        n_tags_bounds: (1, 3),
        n_items_bounds: (2, 4),
        n_item_tags_bounds: (1, 3),
        n_sheep_tags_bounds: (2, 4),
        initial_n_tags_bounds: (8, 12),
        initial_n_items_bounds: (5, 8),
        initial_n_sheep_bounds: (3, 5),
        average_tags_per_group: 3,
        orphaned_tag_threshold: 4,
    }
}

/// Runs one exchange, answering each feed request with `answer`; returns
/// the events sent, in order
fn run_exchange(
    sim: &mut Simulation,
    rng: &mut StdRng,
    shepherd: usize,
    with_feeds: bool,
    answer: &dyn Fn(SheepId) -> Vec<ItemId>,
) -> Vec<SimulationEvent> {
    let mut ex = sim.begin_exchange(shepherd, with_feeds).unwrap();
    let mut sent = Vec::new();
    loop {
        match sim.next_step(&mut ex) {
            Step::Send(e) => sent.push(e),
            Step::AwaitFeed(sheep) => {
                let e = sim.feed_received(rng, &mut ex, Feed(answer(sheep))).unwrap();
                sent.push(e);
            }
            Step::Done => break,
        }
    }
    sent
}

fn check_order(sent: &[SimulationEvent], sheep: &[SheepId], with_feeds: bool) {
    assert!(matches!(sent[0], SimulationEvent::BeginEpoch { .. }));
    for (k, s) in sheep.iter().enumerate() {
        match &sent[k + 1] {
            SimulationEvent::SheepIntroduction { sheep, .. } => assert_eq!(sheep, s),
            _ => panic!("an introduction was expected"),
        }
    }
    if with_feeds {
        assert_eq!(sent.len(), 1 + 3 * sheep.len());
        for (k, s) in sheep.iter().enumerate() {
            match &sent[1 + sheep.len() + 2 * k] {
                SimulationEvent::FeedRequest { sheep } => assert_eq!(sheep, s),
                _ => panic!("a feed request was expected"),
            }
            match &sent[2 + sheep.len() + 2 * k] {
                SimulationEvent::Responses { sheep, .. } => assert_eq!(sheep, s),
                _ => panic!("responses were expected"),
            }
        }
    } else {
        assert_eq!(sent.len(), 1 + sheep.len());
    }
}

#[test]
fn empty_population_initialization() {
    let mut rng = StdRng::seed_from_u64(1);
    let mut sim = Simulation::new(&mut rng, 1, empty_settings()).unwrap();
    assert_eq!(sim.graph().nodes_len(), 0);
    assert_eq!(sim.current_epoch().0, 0);
    let sent = run_exchange(&mut sim, &mut rng, 0, false, &|_| vec![]);
    assert_eq!(sent.len(), 1);
    match &sent[0] {
        SimulationEvent::BeginEpoch { id, data } => {
            assert_eq!(id.0, 0);
            assert!(data.tags.is_empty());
            assert!(data.items.is_empty());
        }
        _ => panic!("the epoch must begin first"),
    }
}

#[test]
fn seeding_epoch_introduces_everything() {
    let mut rng = StdRng::seed_from_u64(2);
    let mut sim = Simulation::new(&mut rng, 2, small_settings()).unwrap();
    let n_tags = sim.tags().len();
    let n_sheep = sim.sheep().len();
    let n_items = sim.items().len();
    assert!((8..=12).contains(&n_tags));
    assert!((3..=5).contains(&n_sheep));
    assert!((5..=8).contains(&n_items));
    assert_eq!(sim.graph().nodes_len(), n_tags + n_sheep + n_items);
    assert_eq!(sim.epoch().tags, *sim.tags());
    assert_eq!(sim.epoch().items, *sim.items());
    let sheep = sim.sheep().clone();
    for k in 0..2 {
        let sent = run_exchange(&mut sim, &mut rng, k, false, &|_| vec![]);
        check_order(&sent, &sheep, false);
        for e in &sent[1..] {
            if let SimulationEvent::SheepIntroduction { sheep, associated_tags } = e {
                assert!(associated_tags.len() >= 2 && associated_tags.len() <= 4);
                assert_eq!(*associated_tags, sim.graph().associated_tags(*sheep));
            }
        }
    }
}

fn check_partition(sim: &Simulation) {
    let mut placed: Vec<usize> = sim
        .tag_groups()
        .iter()
        .flatten()
        .chain(sim.tag_orphans().iter())
        .map(|t| t.0)
        .collect();
    placed.sort();
    let mut tags: Vec<usize> = sim.tags().iter().map(|t| t.0).collect();
    tags.sort();
    assert_eq!(placed, tags);
}

#[test]
fn every_tag_is_placed_once() {
    for seed in 0..5 {
        let mut rng = StdRng::seed_from_u64(seed);
        let mut sim = Simulation::new(&mut rng, 0, small_settings()).unwrap();
        check_partition(&sim);
        for _ in 0..15 {
            sim.simulate_epoch(&mut rng).unwrap();
            check_partition(&sim);
        }
    }
}

#[test]
fn epoch_records_the_nodes_it_created() {
    let mut rng = StdRng::seed_from_u64(4);
    let mut sim = Simulation::new(&mut rng, 1, small_settings()).unwrap();
    for epoch in 1..6 {
        let before_nodes = sim.graph().nodes_len();
        let before_tags = sim.tags().len();
        let before_items = sim.items().len();
        sim.simulate_epoch(&mut rng).unwrap();
        assert_eq!(sim.current_epoch().0, epoch);
        let rec = sim.epoch();
        assert!((1..=3).contains(&rec.tags.len()));
        assert!((2..=4).contains(&rec.items.len()));
        let expected_tags: Vec<usize> = (before_nodes..before_nodes + rec.tags.len()).collect();
        assert_eq!(rec.tags.iter().map(|t| t.0).collect::<Vec<_>>(), expected_tags);
        let start = before_nodes + rec.tags.len();
        let expected_items: Vec<usize> = (start..start + rec.items.len()).collect();
        assert_eq!(rec.items.iter().map(|t| t.0).collect::<Vec<_>>(), expected_items);
        assert_eq!(sim.tags()[before_tags..], rec.tags[..]);
        assert_eq!(sim.items()[before_items..], rec.items[..]);
        let sent = run_exchange(&mut sim, &mut rng, 0, false, &|_| vec![]);
        match &sent[0] {
            SimulationEvent::BeginEpoch { id, data } => {
                assert_eq!(id.0, epoch);
                assert_eq!(data, sim.epoch());
            }
            _ => panic!("the epoch must begin first"),
        }
    }
}

#[test]
fn orphans_are_drained_at_threshold() {
    let mut settings = empty_settings();
    settings.n_tags_bounds = (5, 5);
    settings.orphaned_tag_threshold = 5;
    settings.average_tags_per_group = 1;
    for seed in 0..5 {
        let mut rng = StdRng::seed_from_u64(seed);
        let mut sim = Simulation::new(&mut rng, 0, settings_copy(&settings)).unwrap();
        assert!(sim.tag_groups().is_empty());
        sim.simulate_epoch(&mut rng).unwrap();
        assert!(!sim.tag_groups().is_empty());
        let grouped: usize = sim.tag_groups().iter().map(|g| g.len()).sum();
        assert_eq!(grouped + sim.tag_orphans().len(), 5);
        check_partition(&sim);
    }
}

fn settings_copy(s: &Settings) -> Settings {
    Settings {
        n_tags_bounds: s.n_tags_bounds,
        n_items_bounds: s.n_items_bounds,
        n_item_tags_bounds: s.n_item_tags_bounds,
        n_sheep_tags_bounds: s.n_sheep_tags_bounds,
        initial_n_tags_bounds: s.initial_n_tags_bounds,
        initial_n_items_bounds: s.initial_n_items_bounds,
        initial_n_sheep_bounds: s.initial_n_sheep_bounds,
        average_tags_per_group: s.average_tags_per_group,
        orphaned_tag_threshold: s.orphaned_tag_threshold,
    }
}

#[test]
fn echo_shepherd_end_to_end() {
    let mut rng = StdRng::seed_from_u64(6);
    let mut sim = Simulation::new(&mut rng, 1, small_settings()).unwrap();
    let first = sim.items()[0];
    let sheep = sim.sheep().clone();
    run_exchange(&mut sim, &mut rng, 0, false, &|_| vec![]);
    for _ in 0..4 {
        sim.simulate_epoch(&mut rng).unwrap();
        let sent = run_exchange(&mut sim, &mut rng, 0, true, &|_| vec![first]);
        check_order(&sent, &sheep, true);
        for e in &sent {
            if let SimulationEvent::Responses { responses, .. } = e {
                assert_eq!(responses.0.len(), 1);
                assert_eq!(responses.0[0].0, first);
            }
        }
    }
    for s in 0..sheep.len() {
        let seen: HashSet<usize> = sim.seen(0, s).unwrap().iter().map(|i| i.0).collect();
        assert_eq!(seen, HashSet::from([first.0]));
    }
}

#[test]
fn seen_is_union_of_feeds() {
    let mut rng = StdRng::seed_from_u64(8);
    let mut sim = Simulation::new(&mut rng, 2, small_settings()).unwrap();
    let items = sim.items().clone();
    let n = sim.sheep().len();
    sim.simulate_epoch(&mut rng).unwrap();
    run_exchange(&mut sim, &mut rng, 0, true, &|_| vec![items[0], items[1], items[0]]);
    sim.simulate_epoch(&mut rng).unwrap();
    run_exchange(&mut sim, &mut rng, 0, true, &|_| vec![items[2], items[1]]);
    run_exchange(&mut sim, &mut rng, 1, true, &|_| vec![]);
    for s in 0..n {
        let seen: Vec<usize> = sim.seen(0, s).unwrap().iter().map(|i| i.0).collect();
        assert_eq!(seen.len(), 3);
        let set: HashSet<usize> = seen.into_iter().collect();
        assert_eq!(set, HashSet::from([items[0].0, items[1].0, items[2].0]));
        assert!(sim.seen(1, s).unwrap().is_empty());
    }
    assert!(sim.seen(2, 0).is_none());
    assert!(sim.seen(0, n).is_none());
}

#[test]
fn unknown_shepherd_is_refused() {
    let mut rng = StdRng::seed_from_u64(10);
    let sim = Simulation::new(&mut rng, 1, small_settings()).unwrap();
    assert!(matches!(sim.begin_exchange(1, true), Err(SimulationError::UnknownParticipant)));
    assert!(sim.begin_exchange(0, true).is_ok());
}

#[test]
fn oversized_settings_are_refused() {
    let mut rng = StdRng::seed_from_u64(12);
    let mut settings = empty_settings();
    settings.initial_n_tags_bounds = (0, usize::MAX);
    assert!(matches!(Simulation::new(&mut rng, 1, settings), Err(SimulationError::Capacity)));
    let mut settings = empty_settings();
    settings.n_tags_bounds = (0, usize::MAX);
    let mut sim = Simulation::new(&mut rng, 1, settings).unwrap();
    assert!(matches!(sim.simulate_epoch(&mut rng), Err(SimulationError::Capacity)));
    assert_eq!(sim.current_epoch().0, 0);
}

#[test]
fn default_settings() {
    let s = Settings::default();
    assert_eq!(s.n_tags_bounds, (0, 1));
    assert_eq!(s.n_items_bounds, (0, 50));
    assert_eq!(s.n_item_tags_bounds, (5, 7));
    assert_eq!(s.n_sheep_tags_bounds, (5, 25));
    assert_eq!(s.initial_n_tags_bounds, (20, 30));
    assert_eq!(s.initial_n_items_bounds, (40, 60));
    assert_eq!(s.initial_n_sheep_bounds, (20, 40));
    assert_eq!(s.average_tags_per_group, 5);
    assert_eq!(s.orphaned_tag_threshold, 50);
}

#[test]
fn default_run_keeps_its_invariants() {
    let mut rng = StdRng::seed_from_u64(13);
    let mut sim = Simulation::new(&mut rng, 1, Settings::default()).unwrap();
    for _ in 0..3 {
        sim.simulate_epoch(&mut rng).unwrap();
        let items = sim.items().clone();
        let sent = run_exchange(&mut sim, &mut rng, 0, true, &|s| vec![items[s.0 % items.len()]]);
        let sheep = sim.sheep().clone();
        check_order(&sent, &sheep, true);
        check_partition(&sim);
    }
    let parts = sim.stop();
    assert_eq!(parts.final_epoch.0, 3);
    assert_eq!(parts.shepherd_ids.len(), 1);
    assert_eq!(parts.shepherd_ids[0].0, 0);
}
