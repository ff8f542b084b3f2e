use petgraph::graph::NodeIndex;
use petgraph::visit::EdgeRef;
use rand::rngs::StdRng;
use rand::SeedableRng;
use shepherd::feed::{Feed, Response};
use shepherd::graph::Simulation;
use shepherd::ids::{GraphId, Item, ItemId, Sheep, SheepId, Tag, TagId};
use shepherd::sheep::{process_feed, rate, PathMeasure};
use std::collections::HashSet;

fn edges(g: &Simulation) -> Vec<(usize, usize, u32)> {
    g.0.edge_references()
        .map(|e| (e.source().index(), e.target().index(), *e.weight()))
        .collect()
}

fn path_graph() -> (Simulation, SheepId, TagId, ItemId) {
    let mut g = Simulation::new();
    let s: Vec<SheepId> = g.create_nodes(1);
    let t: Vec<TagId> = g.create_nodes(1);
    let i: Vec<ItemId> = g.create_nodes(1);
    g.0.add_edge(NodeIndex::new(s[0].0), NodeIndex::new(t[0].0), 3);
    g.0.add_edge(NodeIndex::new(t[0].0), NodeIndex::new(i[0].0), 4);
    (g, s[0], t[0], i[0])
}

#[test]
fn create_nodes_adds_exactly_n() {
    let mut g = Simulation::new();
    let tags: Vec<TagId> = g.create_nodes(4);
    assert_eq!(g.nodes_len(), 4);
    let sheep: Vec<SheepId> = g.create_nodes(3);
    assert_eq!(g.nodes_len(), 7);
    assert_eq!(tags.iter().map(|t| t.0).collect::<Vec<_>>(), vec![0, 1, 2, 3]);
    assert_eq!(sheep.iter().map(|s| s.0).collect::<Vec<_>>(), vec![4, 5, 6]);
    let none: Vec<GraphId<Item>> = g.create_nodes(0);
    assert!(none.is_empty());
    assert_eq!(g.nodes_len(), 7);
}

#[test]
fn associated_tags_are_the_incident_nodes() {
    let (g, s, t, i) = path_graph();
    let of_sheep: Vec<usize> = g.associated_tags(s).iter().map(|x| x.0).collect();
    assert_eq!(of_sheep, vec![t.0]);
    let of_item: Vec<usize> = g.associated_tags(i).iter().map(|x| x.0).collect();
    assert_eq!(of_item, vec![t.0]);
}

#[test]
fn singleton_path_distance() {
    let (g, s, _t, i) = path_graph();
    assert_eq!(g.shortest_path(s.0, i.0), Some(PathMeasure(7, 2)));
    assert_eq!(g.shortest_path(i.0, s.0), None);
    assert_eq!(g.shortest_path(s.0, s.0), Some(PathMeasure(0, 0)));
}

#[test]
fn singleton_path_positive_on_lowest_digits() {
    let (g, s, _t, i) = path_graph();
    let d = g.shortest_path(s.0, i.0).unwrap().0;
    assert_eq!(rate(d, &vec![0; d as usize]), Response::Positive);
    assert_eq!(rate(d, &vec![9; d as usize]), Response::Negative);
    let mut rng = StdRng::seed_from_u64(3);
    let r = process_feed(&mut rng, &g, s, Feed(vec![i]));
    assert_eq!(r.0.len(), 1);
    assert_eq!(r.0[0].0, i);
    assert_eq!(r.0[0].2, Some(2));
}

#[test]
fn unreachable_item_is_negative() {
    let mut g = Simulation::new();
    let s: Vec<SheepId> = g.create_nodes(1);
    let i: Vec<ItemId> = g.create_nodes(1);
    for seed in 0..20 {
        let mut rng = StdRng::seed_from_u64(seed);
        let r = process_feed(&mut rng, &g, s[0], Feed(vec![i[0], i[0]]));
        assert_eq!(r.0.len(), 2);
        for entry in &r.0 {
            assert_eq!(entry.1, Response::Negative);
            assert_eq!(entry.2, None);
        }
    }
}

#[test]
fn shortest_path_takes_lightest_route() {
    let mut g = Simulation::new();
    let n: Vec<TagId> = g.create_nodes(4);
    let e = |a: usize, b: usize| (NodeIndex::new(n[a].0), NodeIndex::new(n[b].0));
    let (a, b) = e(0, 1);
    g.0.add_edge(a, b, 10);
    let (a, b) = e(0, 2);
    g.0.add_edge(a, b, 2);
    let (a, b) = e(2, 3);
    g.0.add_edge(a, b, 3);
    let (a, b) = e(3, 1);
    g.0.add_edge(a, b, 4);
    assert_eq!(g.shortest_path(n[0].0, n[1].0), Some(PathMeasure(9, 3)));
    let (a, b) = e(2, 1);
    g.0.add_edge(a, b, 7);
    assert_eq!(g.shortest_path(n[0].0, n[1].0), Some(PathMeasure(9, 2)));
}

fn grouped(seed: u64) -> (Vec<Vec<usize>>, Vec<usize>, Vec<(usize, usize, u32)>) {
    let mut g = Simulation::new();
    let tags: Vec<TagId> = g.create_nodes(20);
    let mut rng = StdRng::seed_from_u64(seed);
    let mut groups = Vec::new();
    let mut orphans = Vec::new();
    assert!(g.add_new_tag_groups(&mut rng, &mut groups, &mut orphans, 4, &tags).is_ok());
    let groups = groups.iter().map(|gr: &Vec<TagId>| gr.iter().map(|t| t.0).collect()).collect();
    let orphans = orphans.iter().map(|t| t.0).collect();
    (groups, orphans, edges(&g))
}

#[test]
fn tag_group_formation_is_deterministic() {
    let (g1, o1, e1) = grouped(42);
    let (g2, o2, e2) = grouped(42);
    assert_eq!(g1, g2);
    assert_eq!(o1, o2);
    let mut e1 = e1;
    let mut e2 = e2;
    e1.sort();
    e2.sort();
    assert_eq!(e1, e2);
}

#[test]
fn new_groups_partition_the_tags() {
    for seed in 0..10 {
        let (groups, orphans, es) = grouped(seed);
        assert!(groups.len() <= 4);
        let mut all: Vec<usize> = groups.iter().flatten().copied().chain(orphans.iter().copied()).collect();
        all.sort();
        assert_eq!(all, (0..20).collect::<Vec<_>>());
        let group_of = |t: usize| groups.iter().position(|g| g.contains(&t));
        for (a, b, w) in es {
            assert!((1..=10).contains(&w));
            let (ga, gb) = (group_of(a).unwrap(), group_of(b).unwrap());
            if ga == gb {
                assert!((5..=10).contains(&w));
            } else {
                assert!((1..=5).contains(&w));
            }
        }
        for g in &groups {
            for a in g {
                for b in g {
                    if a != b {
                        assert!(edges_between(seed, *a, *b));
                    }
                }
            }
        }
    }
}

fn edges_between(seed: u64, a: usize, b: usize) -> bool {
    let (_, _, es) = grouped(seed);
    es.iter().any(|e| e.0 == a && e.1 == b)
}

#[test]
fn no_tags_forms_nothing() {
    let mut g = Simulation::new();
    let mut rng = StdRng::seed_from_u64(1);
    let mut groups = Vec::new();
    let mut orphans = Vec::new();
    assert!(g.add_new_tag_groups(&mut rng, &mut groups, &mut orphans, 3, &vec![]).is_ok());
    assert!(groups.is_empty());
    assert!(orphans.is_empty());
    assert!(g.add_to_tag_groups(&mut rng, &mut groups, &mut orphans, &vec![]).is_ok());
    assert!(groups.is_empty());
    assert!(orphans.is_empty());
}

#[test]
fn zero_groups_leaves_every_tag_orphaned() {
    let mut g = Simulation::new();
    let tags: Vec<TagId> = g.create_nodes(6);
    let mut rng = StdRng::seed_from_u64(9);
    let mut groups = Vec::new();
    let mut orphans = Vec::new();
    assert!(g.add_new_tag_groups(&mut rng, &mut groups, &mut orphans, 0, &tags).is_ok());
    assert!(groups.is_empty());
    let mut o: Vec<usize> = orphans.iter().map(|t: &TagId| t.0).collect();
    o.sort();
    assert_eq!(o, vec![0, 1, 2, 3, 4, 5]);
    assert_eq!(g.edge_count(), 0);
}

#[test]
fn added_tags_join_groups_or_orphans() {
    for seed in 0..10 {
        let mut g = Simulation::new();
        let first: Vec<TagId> = g.create_nodes(6);
        let mut groups: Vec<Vec<TagId>> = vec![first[0..3].to_vec(), first[3..6].to_vec()];
        let mut orphans = Vec::new();
        let newcomers: Vec<TagId> = g.create_nodes(60);
        let mut rng = StdRng::seed_from_u64(seed);
        assert!(g.add_to_tag_groups(&mut rng, &mut groups, &mut orphans, &newcomers).is_ok());
        assert_eq!(groups.len(), 2);
        assert_eq!(&groups[0][0..3], &first[0..3]);
        assert_eq!(&groups[1][0..3], &first[3..6]);
        let mut all: Vec<usize> = groups.iter().flatten().chain(orphans.iter()).map(|t| t.0).collect();
        all.sort();
        assert_eq!(all, (0..66).collect::<Vec<_>>());
        let ids: Vec<HashSet<usize>> = groups.iter().map(|gr| gr.iter().map(|t| t.0).collect()).collect();
        for (a, b, w) in edges(&g) {
            let same = ids.iter().any(|gr| gr.contains(&a) && gr.contains(&b));
            if same {
                assert!((5..=10).contains(&w));
            } else {
                assert!((1..=5).contains(&w));
            }
        }
    }
}

#[test]
fn extremities_join_distinct_tags() {
    for seed in 0..10 {
        let mut g = Simulation::new();
        let tags: Vec<TagId> = g.create_nodes(12);
        let sheep: Vec<SheepId> = g.create_nodes(5);
        let items: Vec<ItemId> = g.create_nodes(5);
        let mut rng = StdRng::seed_from_u64(seed);
        g.connect_extremities(&mut rng, &sheep, &tags, (2, 4), false);
        g.connect_extremities(&mut rng, &items, &tags, (3, 3), true);
        let es = edges(&g);
        for s in &sheep {
            let out: Vec<usize> = es.iter().filter(|e| e.0 == s.0).map(|e| e.1).collect();
            assert!(out.len() >= 2 && out.len() <= 4);
            let distinct: HashSet<usize> = out.iter().copied().collect();
            assert_eq!(distinct.len(), out.len());
            assert!(out.iter().all(|t| *t < 12));
            assert_eq!(g.associated_tags(*s).len(), out.len());
        }
        for i in &items {
            let into: Vec<usize> = es.iter().filter(|e| e.1 == i.0).map(|e| e.0).collect();
            assert_eq!(into.len(), 3);
            assert!(es.iter().all(|e| e.0 != i.0));
        }
        assert!(es.iter().all(|e| (1..=10).contains(&e.2)));
    }
}

#[test]
fn extremities_take_every_tag_when_few() {
    let mut g = Simulation::new();
    let tags: Vec<TagId> = g.create_nodes(2);
    let sheep: Vec<SheepId> = g.create_nodes(1);
    let mut rng = StdRng::seed_from_u64(5);
    g.connect_extremities(&mut rng, &sheep, &tags, (5, 5), false);
    let mut t: Vec<usize> = g.associated_tags(sheep[0]).iter().map(|x| x.0).collect();
    t.sort();
    assert_eq!(t, vec![0, 1]);
}

#[test]
fn tag_kind_of_ids() {
    let id: GraphId<Tag> = GraphId::new(7);
    assert_eq!(id.0, 7);
    let s: GraphId<Sheep> = GraphId::new(7);
    assert_eq!(s.0, id.0);
}

#[test]
fn grouping_order_and_sizes_are_drawn() {
    let mut moved = false;
    let mut sizes = HashSet::new();
    for seed in 0..10 {
        let (groups, orphans, _) = grouped(seed);
        let order: Vec<usize> = groups.iter().flatten().copied().chain(orphans.iter().copied()).collect();
        if order != (0..20).collect::<Vec<_>>() {
            moved = true;
        }
        sizes.insert(groups.iter().map(|g| g.len()).collect::<Vec<_>>());
    }
    assert!(moved);
    assert!(sizes.len() > 1);
}

#[test]
fn extremity_counts_vary_within_bounds() {
    let mut counts = HashSet::new();
    for seed in 0..10 {
        let mut g = Simulation::new();
        let tags: Vec<TagId> = g.create_nodes(30);
        let sheep: Vec<SheepId> = g.create_nodes(4);
        let mut rng = StdRng::seed_from_u64(seed);
        g.connect_extremities(&mut rng, &sheep, &tags, (1, 20), false);
        for s in &sheep {
            let n = g.associated_tags(*s).len();
            assert!((1..=20).contains(&n));
            counts.insert(n);
        }
    }
    assert!(counts.len() > 1);
}
