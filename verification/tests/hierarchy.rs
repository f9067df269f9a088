use ch::ch::CH;
use ch::graph::Graph;
use ch::network::{IdxLink, IdxLinkDir, IdxNodeKey};
use ch::query::ArtifactError;
use ch::shortcut::CHContraction;

fn graph(n: usize, arcs: &[(usize, usize, u32)]) -> Graph {
    let mut rows: Vec<Vec<IdxLink>> = vec![Vec::new(); n];
    for &(u, v, c) in arcs {
        rows[u].push(IdxLink::new(IdxNodeKey::new(v), c, IdxLinkDir::Forward));
    }
    assert!(Graph::valid_links(&rows));
    Graph::from_links(rows)
}

fn keys(path: &[IdxNodeKey]) -> Vec<usize> {
    path.iter().map(|k| k.index()).collect()
}

fn key(i: usize) -> IdxNodeKey {
    IdxNodeKey::new(i)
}

#[test]
fn new_hierarchy_is_fresh() {
    let g = graph(3, &[(0, 1, 3), (1, 2, 4), (0, 2, 10)]);
    let ch = CH::new(&g);
    assert_eq!(ch.order(), &vec![u32::MAX; 3]);
    assert!(ch.contractions().is_empty());
    assert_eq!(ch.links(key(0)).len(), 2);
    assert_eq!(ch.links(key(1)).len(), 2);
}

#[test]
fn triangle() {
    let g = graph(3, &[(0, 1, 3), (1, 2, 4), (0, 2, 10)]);
    let (path, cost) = g.search(key(0), key(2)).unwrap();
    assert_eq!(keys(&path), vec![0, 1, 2]);
    assert_eq!(cost, 7);
    let mut ch = CH::new(&g);
    let report = ch.build();
    assert_eq!(report.rebuilds, 0);
    assert!(report.is_clean());
    let (path, cost) = ch.search(key(0), key(2)).unwrap();
    assert_eq!(keys(&path), vec![0, 1, 2]);
    assert_eq!(cost, 7);
    // node 1 goes first and leaves a shortcut of cost 7 behind
    assert_eq!(ch.order()[1], 1);
    assert_eq!(
        ch.contractions(),
        &vec![CHContraction { snode_idx: key(0), enode_idx: key(2), mnode_idx: key(1), length: 7 }]
    );
}

#[test]
fn witness_present() {
    let g = graph(4, &[(0, 2, 10), (2, 3, 10), (0, 1, 5), (1, 3, 5)]);
    let ch = CH::new(&g);
    let links: Vec<IdxLink> = ch.links(key(2)).clone();
    for hops in 1..6u16 {
        let found = ch.dijkstra_contract(key(2), links.as_slice(), hops);
        assert!(found.is_empty(), "hop limit {}", hops);
    }
    let mut ch = CH::new(&g);
    ch.build();
    let (path, cost) = ch.search(key(0), key(3)).unwrap();
    assert_eq!(keys(&path), vec![0, 1, 3]);
    assert_eq!(cost, 10);
}

#[test]
fn one_way() {
    let g = graph(2, &[(0, 1, 1)]);
    let mut ch = CH::new(&g);
    ch.build();
    assert!(ch.search(key(1), key(0)).is_none());
    let (path, cost) = ch.search(key(0), key(1)).unwrap();
    assert_eq!(keys(&path), vec![0, 1]);
    assert_eq!(cost, 1);
}

#[test]
fn disconnected() {
    let g = graph(4, &[(0, 1, 2), (1, 0, 2), (2, 3, 5), (3, 2, 5)]);
    let mut ch = CH::new(&g);
    ch.build();
    for (s, t) in [(0usize, 2usize), (0, 3), (1, 2), (3, 0), (2, 1)] {
        assert!(g.search(key(s), key(t)).is_none());
        assert!(ch.search(key(s), key(t)).is_none());
    }
    let (path, cost) = ch.search(key(3), key(2)).unwrap();
    assert_eq!(keys(&path), vec![3, 2]);
    assert_eq!(cost, 5);
}

#[test]
fn linear_chain() {
    let n = 1000usize;
    let arcs: Vec<(usize, usize, u32)> = (0..n - 1).map(|i| (i, i + 1, 1)).collect();
    let g = graph(n, &arcs);
    let mut ch = CH::new(&g);
    let report = ch.build();
    assert_eq!(report.rebuilds, 0);
    assert_eq!(report.pruned, 0);
    assert!(report.is_clean());
    let mut ranks: Vec<u32> = ch.order().clone();
    ranks.sort();
    let want: Vec<u32> = (1..=n as u32).collect();
    assert_eq!(ranks, want);
    let (path, cost) = ch.search(key(0), key(n - 1)).unwrap();
    assert_eq!(cost, 999);
    assert_eq!(path.len(), 1000);
    assert_eq!(keys(&path), (0..n).collect::<Vec<usize>>());
    assert!(ch.search(key(n - 1), key(0)).is_none());
}

fn grid(side: usize) -> (Graph, Vec<(usize, usize, u32)>) {
    let mut arcs = Vec::new();
    for r in 0..side {
        for c in 0..side {
            let u = r * side + c;
            let w = 1 + ((r * 7 + c * 13) % 5) as u32;
            if c + 1 < side {
                arcs.push((u, u + 1, w));
                arcs.push((u + 1, u, w + 1));
            }
            if r + 1 < side {
                arcs.push((u, u + side, w + 2));
                if (r + c) % 3 != 0 {
                    arcs.push((u + side, u, w));
                }
            }
        }
    }
    (graph(side * side, &arcs), arcs)
}

fn way_cost(arcs: &[(usize, usize, u32)], path: &[IdxNodeKey]) -> Option<u64> {
    let mut total = 0u64;
    for hop in path.windows(2) {
        let (a, b) = (hop[0].index(), hop[1].index());
        let best = arcs.iter().filter(|x| x.0 == a && x.1 == b).map(|x| x.2).min()?;
        total += best as u64;
    }
    Some(total)
}

#[test]
fn hierarchy_agrees_with_dijkstra_on_a_grid() {
    let side = 12usize;
    let (g, arcs) = grid(side);
    let mut ch = CH::new(&g);
    ch.build();
    let n = side * side;
    for s in (0..n).step_by(11) {
        for t in (0..n).step_by(7) {
            let plain = g.search(key(s), key(t));
            let fast = ch.search(key(s), key(t));
            match (plain, fast) {
                (None, None) => {}
                (Some((_, c1)), Some((path, c2))) => {
                    assert_eq!(c1, c2);
                    assert_eq!(path[0].index(), s);
                    assert_eq!(path[path.len() - 1].index(), t);
                    assert_eq!(way_cost(&arcs, &path), Some(c1 as u64));
                }
                (a, b) => panic!("{:?} against {:?}", a.map(|x| x.1), b.map(|x| x.1)),
            }
        }
    }
}

#[test]
fn ranks_are_numbered_from_one() {
    let (g, _) = grid(8);
    let mut ch = CH::new(&g);
    assert!(ch.build().is_clean());
    let mut ranks: Vec<u32> = ch.order().clone();
    ranks.sort();
    assert_eq!(ranks, (1..=64u32).collect::<Vec<u32>>());
}

#[test]
fn shortcuts_are_sorted_and_run_through_lower_nodes() {
    let (g, arcs) = grid(10);
    let mut ch = CH::new(&g);
    ch.build();
    let order = ch.order();
    let list = ch.contractions();
    assert!(!list.is_empty());
    for pair in list.windows(2) {
        assert!(pair[0].snode_idx <= pair[1].snode_idx);
    }
    for c in list {
        let m = order[c.mnode_idx.index()];
        assert!(m < order[c.snode_idx.index()]);
        assert!(m < order[c.enode_idx.index()]);
        // no shortcut is cheaper than the cheapest way in the graph
        let (_, best) = g.search(c.snode_idx, c.enode_idx).unwrap();
        assert!(best <= c.length);
    }
    let _ = arcs;
}

#[test]
fn reload_round_trip() {
    let (g, _) = grid(10);
    let mut ch = CH::new(&g);
    ch.build();
    let order = ch.order().clone();
    let shortcuts = ch.contractions().clone();
    let again = CH::from_parts(&g, order.clone(), shortcuts.clone()).unwrap();
    assert_eq!(again.order(), ch.order());
    assert_eq!(again.contractions(), ch.contractions());
    for u in 0..100 {
        assert_eq!(again.links(key(u)), ch.links(key(u)));
    }
    let mut asked = 0;
    for s in (0..100).step_by(9) {
        for t in (0..100).step_by(11) {
            let a = ch.search(key(s), key(t));
            let b = again.search(key(s), key(t));
            assert_eq!(a, b);
            asked += 1;
        }
    }
    assert!(asked >= 100);
}

#[test]
fn reload_sorts_the_shortcuts() {
    let g = graph(5, &[(0, 1, 1), (1, 2, 1), (2, 3, 1), (3, 4, 1)]);
    let order = vec![5, 1, 4, 2, 3];
    let shortcuts = vec![
        CHContraction { snode_idx: key(2), enode_idx: key(4), mnode_idx: key(3), length: 2 },
        CHContraction { snode_idx: key(0), enode_idx: key(2), mnode_idx: key(1), length: 2 },
    ];
    let ch = CH::from_parts(&g, order, shortcuts).unwrap();
    let starts: Vec<usize> = ch.contractions().iter().map(|c| c.snode_idx.index()).collect();
    assert_eq!(starts, vec![0, 2]);
    let (path, cost) = ch.search(key(0), key(4)).unwrap();
    assert_eq!(keys(&path), vec![0, 1, 2, 3, 4]);
    assert_eq!(cost, 4);
}

#[test]
fn reload_checks_the_parts() {
    let g = graph(3, &[(0, 1, 3), (1, 2, 4)]);
    let good = CHContraction { snode_idx: key(0), enode_idx: key(2), mnode_idx: key(1), length: 7 };
    assert!(CH::from_parts(&g, vec![2, 1, 3], vec![good]).is_ok());
    assert_eq!(
        CH::from_parts(&g, vec![2, 1], vec![good]).err(),
        Some(ArtifactError::OrderLength)
    );
    // the middle node must come before both ends
    assert_eq!(
        CH::from_parts(&g, vec![1, 2, 3], vec![good]).err(),
        Some(ArtifactError::BadShortcut)
    );
    let far = CHContraction { snode_idx: key(0), enode_idx: key(5), mnode_idx: key(1), length: 7 };
    assert_eq!(
        CH::from_parts(&g, vec![2, 1, 3], vec![far]).err(),
        Some(ArtifactError::BadShortcut)
    );
    let looped = CHContraction { snode_idx: key(0), enode_idx: key(0), mnode_idx: key(1), length: 7 };
    assert_eq!(
        CH::from_parts(&g, vec![2, 1, 3], vec![looped]).err(),
        Some(ArtifactError::BadShortcut)
    );
    let dear = CHContraction {
        snode_idx: key(0),
        enode_idx: key(2),
        mnode_idx: key(1),
        length: 1 << 30,
    };
    assert_eq!(
        CH::from_parts(&g, vec![2, 1, 3], vec![dear]).err(),
        Some(ArtifactError::BadShortcut)
    );
    let unranked = vec![2, u32::MAX, 3];
    assert_eq!(
        CH::from_parts(&g, unranked, vec![good]).err(),
        Some(ArtifactError::BadShortcut)
    );
}

#[test]
fn merging_an_arc_keeps_forward_links_first() {
    let g = graph(4, &[(0, 1, 3), (1, 2, 4), (3, 0, 2)]);
    let mut ch = CH::new(&g);
    // links of 0: forward to 1, backward to 3
    ch.add_contraction_dir(key(0), key(2), 9, IdxLinkDir::Forward);
    let shape: Vec<(usize, u32, IdxLinkDir)> =
        ch.links(key(0)).iter().map(|l| (l.enode_idx().index(), l.cost(), l.dir())).collect();
    assert_eq!(
        shape,
        vec![
            (1, 3, IdxLinkDir::Forward),
            (2, 9, IdxLinkDir::Forward),
            (3, 2, IdxLinkDir::Backward),
        ]
    );
    // a second arc to the same node only lowers the cost
    ch.add_contraction_dir(key(0), key(2), 5, IdxLinkDir::Forward);
    ch.add_contraction_dir(key(0), key(2), 8, IdxLinkDir::Forward);
    ch.add_contraction_dir(key(0), key(2), 6, IdxLinkDir::Backward);
    let shape: Vec<(usize, u32, IdxLinkDir)> =
        ch.links(key(0)).iter().map(|l| (l.enode_idx().index(), l.cost(), l.dir())).collect();
    assert_eq!(
        shape,
        vec![
            (1, 3, IdxLinkDir::Forward),
            (2, 5, IdxLinkDir::Forward),
            (3, 2, IdxLinkDir::Backward),
            (2, 6, IdxLinkDir::Backward),
        ]
    );
}

#[test]
fn adding_a_shortcut_merges_both_ends() {
    let g = graph(3, &[(0, 1, 3), (1, 2, 4), (0, 2, 10)]);
    let mut ch = CH::new(&g);
    let c = CHContraction { snode_idx: key(0), enode_idx: key(2), mnode_idx: key(1), length: 7 };
    ch.add_contraction(c);
    assert_eq!(ch.contractions(), &vec![c]);
    let at0: Vec<(usize, u32, IdxLinkDir)> =
        ch.links(key(0)).iter().map(|l| (l.enode_idx().index(), l.cost(), l.dir())).collect();
    assert_eq!(at0, vec![(1, 3, IdxLinkDir::Forward), (2, 7, IdxLinkDir::Forward)]);
    let at2: Vec<(usize, u32, IdxLinkDir)> =
        ch.links(key(2)).iter().map(|l| (l.enode_idx().index(), l.cost(), l.dir())).collect();
    assert_eq!(at2, vec![(0, 7, IdxLinkDir::Backward), (1, 4, IdxLinkDir::Backward)]);
}

#[test]
fn sweeping_takes_the_mates_out() {
    let g = graph(3, &[(0, 1, 3), (1, 2, 4), (0, 2, 10)]);
    let mut ch = CH::new(&g);
    let links: Vec<IdxLink> = std::mem::take(&mut ch.contractions[1]);
    ch.gc_contraction(key(1), &links);
    assert!(ch.links(key(1)).is_empty());
    let at0: Vec<(usize, u32, IdxLinkDir)> =
        ch.links(key(0)).iter().map(|l| (l.enode_idx().index(), l.cost(), l.dir())).collect();
    assert_eq!(at0, vec![(2, 10, IdxLinkDir::Forward)]);
    let at2: Vec<(usize, u32, IdxLinkDir)> =
        ch.links(key(2)).iter().map(|l| (l.enode_idx().index(), l.cost(), l.dir())).collect();
    assert_eq!(at2, vec![(0, 10, IdxLinkDir::Backward)]);
}

#[test]
fn nearby_nodes_picks_one_direction() {
    let g = graph(3, &[(0, 1, 3), (1, 2, 4), (0, 2, 10)]);
    let ch = CH::new(&g);
    let f: Vec<usize> =
        ch.nearby_nodes(key(1), IdxLinkDir::Forward).iter().map(|l| l.enode_idx().index()).collect();
    let b: Vec<usize> =
        ch.nearby_nodes(key(1), IdxLinkDir::Backward).iter().map(|l| l.enode_idx().index()).collect();
    assert_eq!(f, vec![2]);
    assert_eq!(b, vec![0]);
}

#[test]
fn unpack_follows_the_shortest_shortcut() {
    let g = graph(5, &[(0, 1, 1), (1, 2, 1), (2, 3, 1), (3, 4, 1)]);
    let order = vec![5, 1, 4, 2, 3];
    let shortcuts = vec![
        CHContraction { snode_idx: key(0), enode_idx: key(2), mnode_idx: key(1), length: 2 },
        CHContraction { snode_idx: key(2), enode_idx: key(4), mnode_idx: key(3), length: 2 },
    ];
    let ch = CH::from_parts(&g, order, shortcuts).unwrap();
    assert_eq!(ch.find_shortcut(key(0), key(2)), Some(0));
    assert_eq!(ch.find_shortcut(key(2), key(4)), Some(1));
    assert_eq!(ch.find_shortcut(key(2), key(0)), None);
    assert_eq!(ch.find_shortcut(key(1), key(2)), None);
    let out = ch.unpack(vec![key(0), key(2), key(4)]);
    assert_eq!(keys(&out), vec![0, 1, 2, 3, 4]);
    let out = ch.unpack(vec![key(3)]);
    assert_eq!(keys(&out), vec![3]);
    let out = ch.unpack(vec![]);
    assert!(out.is_empty());
}

#[test]
fn links_that_cost_little_fit_in_pairs() {
    let back = IdxLink::new(key(1), 5, IdxLinkDir::Backward);
    let forth = IdxLink::new(key(2), 7, IdxLinkDir::Forward);
    assert!(ch::builder::pairs_fit(&vec![forth, back]));
    assert!(ch::builder::pairs_fit(&Vec::new()));
}

#[test]
fn links_that_cost_too_much_do_not_fit_in_pairs() {
    let half = 1u32 << 29;
    let back = IdxLink::new(key(1), half, IdxLinkDir::Backward);
    let forth = IdxLink::new(key(2), half, IdxLinkDir::Forward);
    let cheap = IdxLink::new(key(3), 1, IdxLinkDir::Forward);
    assert!(!ch::builder::pairs_fit(&vec![forth, cheap, back]));
    assert!(ch::builder::pairs_fit(&vec![forth, cheap]));
    assert!(ch::builder::pairs_fit(&vec![back]));
    let less = IdxLink::new(key(2), half - 1, IdxLinkDir::Forward);
    assert!(ch::builder::pairs_fit(&vec![less, back]));
}

#[test]
fn a_build_over_costly_links_is_not_clean() {
    let half = 1u32 << 29;
    let g = graph(3, &[(0, 1, half), (1, 2, half), (2, 0, half)]);
    let mut ch = CH::new(&g);
    let report = ch.build();
    assert_eq!(report.rebuilds, 0);
    assert!(report.tight >= 1);
    assert!(!report.is_clean());
    // the way through the node contracted first has no shortcut: its cost
    // does not fit a link
    let mut missed = 0;
    for s in 0..3 {
        for t in 0..3 {
            let plain = g.search(key(s), key(t)).map(|(_, c)| c);
            let quick = ch.search(key(s), key(t)).map(|(_, c)| c);
            if plain != quick {
                assert_eq!(plain, Some(1u32 << 30));
                assert_eq!(quick, None);
                missed += 1;
            }
        }
    }
    assert_eq!(missed, 1);
}

#[test]
fn a_clean_build_answers_like_the_graph() {
    let arcs = [
        (0, 1, 7),
        (1, 2, 3),
        (2, 3, 4),
        (3, 0, 9),
        (0, 2, 12),
        (1, 3, 5),
        (3, 4, 2),
        (4, 1, 6),
        (2, 5, 1),
        (5, 0, 8),
    ];
    let g = graph(6, &arcs);
    let mut ch = CH::new(&g);
    assert!(ch.build().is_clean());
    for s in 0..6 {
        for t in 0..6 {
            let plain = g.search(key(s), key(t)).map(|(_, c)| c);
            let quick = ch.search(key(s), key(t)).map(|(_, c)| c);
            assert_eq!(plain, quick, "from {} to {}", s, t);
        }
    }
}

#[test]
fn every_shortcut_stands_for_a_way_through_its_middle_node() {
    let (g, _) = grid(10);
    let mut ch = CH::new(&g);
    ch.build();
    assert!(!ch.contractions().is_empty());
    for c in ch.contractions() {
        let (_, first) = g.search(c.snode_idx, c.mnode_idx).unwrap();
        let (_, second) = g.search(c.mnode_idx, c.enode_idx).unwrap();
        assert!(first + second <= c.length);
        let (_, whole) = g.search(c.snode_idx, c.enode_idx).unwrap();
        assert!(whole <= c.length);
    }
}

fn clusters(count: usize, half: usize) -> (Graph, Vec<(usize, usize, u32)>) {
    let mut arcs = Vec::new();
    for c in 0..count {
        let first = 2 * half * c;
        for i in 0..half {
            for j in 0..half {
                let cost = if i == 0 { 1 } else { 5 };
                arcs.push((first + i, first + half + j, cost));
                arcs.push((first + half + j, first + i, cost));
            }
        }
    }
    (graph(2 * half * count, &arcs), arcs)
}

#[test]
fn many_clusters_are_built_with_the_queue_made_anew() {
    let count = 2600usize;
    let (g, _) = clusters(count, 4);
    let mut ch = CH::new(&g);
    let report = ch.build();
    assert!(report.rebuilds >= 1);
    assert_eq!(report.pruned, 0);
    assert!(report.is_clean());
    let mut ranks: Vec<u32> = ch.order().clone();
    ranks.sort();
    assert_eq!(ranks, (1..=(8 * count) as u32).collect::<Vec<u32>>());
    for c in (0..count).step_by(41) {
        let first = 8 * c;
        for s in 0..8 {
            for t in 0..8 {
                let plain = g.search(key(first + s), key(first + t)).map(|x| x.1);
                let quick = ch.search(key(first + s), key(first + t)).map(|x| x.1);
                assert_eq!(plain, quick);
            }
        }
    }
}

#[test]
fn dense_clusters_are_pruned_when_the_hop_limit_rises() {
    let count = 1300usize;
    let half = 8usize;
    let (g, arcs) = clusters(count, half);
    let mut ch = CH::new(&g);
    let report = ch.build();
    let list = ch.contractions();
    for pair in list.windows(2) {
        assert!(pair[0].snode_idx <= pair[1].snode_idx);
    }
    let order = ch.order();
    for c in list.iter().step_by(53) {
        let m = order[c.mnode_idx.index()];
        assert!(m < order[c.snode_idx.index()]);
        assert!(m < order[c.enode_idx.index()]);
        let (_, whole) = g.search(c.snode_idx, c.enode_idx).unwrap();
        assert!(whole <= c.length);
    }
    let mut ranks: Vec<u32> = order.clone();
    ranks.sort();
    assert_eq!(ranks, (1..=(2 * half * count) as u32).collect::<Vec<u32>>());
    assert!(report.pruned >= 1);
    assert!(report.pruned <= report.rebuilds);
    assert!(!report.is_clean());
    for c in (0..count).step_by(41) {
        let first = 2 * half * c;
        for (s, t) in [(1, 2), (2, 3), (9, 10), (0, 15), (3, 12)] {
            let (_, plain) = g.search(key(first + s), key(first + t)).unwrap();
            match ch.search(key(first + s), key(first + t)) {
                Some((path, quick)) => {
                    assert!(plain <= quick);
                    assert_eq!(path[0].index(), first + s);
                    assert_eq!(path[path.len() - 1].index(), first + t);
                    assert!(way_cost(&arcs, &path).is_some());
                }
                None => {}
            }
        }
    }
}

#[test]
fn after_a_build_every_link_has_its_mate() {
    let (g, _) = grid(7);
    let mut ch = CH::new(&g);
    ch.build();
    let n = 49;
    let mut shortcut_links = 0;
    for u in 0..n {
        for l in ch.links(key(u)) {
            let back = match l.dir() {
                IdxLinkDir::Forward => IdxLinkDir::Backward,
                IdxLinkDir::Backward => IdxLinkDir::Forward,
            };
            let v = l.enode_idx().index();
            assert!(ch
                .links(key(v))
                .iter()
                .any(|m| m.enode_idx().index() == u && m.cost() == l.cost() && m.dir() == back));
        }
        shortcut_links += ch.links(key(u)).len();
    }
    let graph_links: usize = (0..n).map(|u| g.idx_links[u].len()).sum();
    assert_eq!(shortcut_links, graph_links + 2 * ch.contractions().len());
}

#[test]
fn nodes_without_links_get_no_rank() {
    let g = graph(5, &[(0, 1, 3), (1, 3, 4)]);
    let mut ch = CH::new(&g);
    assert!(ch.build().is_clean());
    let order = ch.order();
    assert_eq!(order[2], u32::MAX);
    assert_eq!(order[4], u32::MAX);
    let mut ranks = vec![order[0], order[1], order[3]];
    ranks.sort();
    assert_eq!(ranks, vec![1, 2, 3]);
}

#[test]
fn a_small_plain_graph_is_built_without_making_the_queue_anew() {
    // every node has an arc to every other, none costs more than 1023
    let n = 20usize;
    let mut arcs = Vec::new();
    for u in 0..n {
        for v in 0..n {
            if u != v {
                arcs.push((u, v, ((u * 37 + v * 101) % 1023 + 1) as u32));
            }
        }
    }
    let g = graph(n, &arcs);
    let mut ch = CH::new(&g);
    let report = ch.build();
    assert_eq!(report.rebuilds, 0);
    assert_eq!(report.pruned, 0);
    assert_eq!(report.tight, 0);
    assert!(report.is_clean());
    for s in 0..n {
        for t in 0..n {
            let plain = g.search(key(s), key(t)).map(|(_, c)| c);
            let quick = ch.search(key(s), key(t)).map(|(_, c)| c);
            assert_eq!(plain, quick);
        }
    }
}

#[test]
fn a_chain_of_links_at_the_highest_modest_cost_is_built_clean() {
    let n = 20usize;
    let mut arcs = Vec::new();
    for u in 0..n - 1 {
        arcs.push((u, u + 1, 1023u32));
    }
    let g = graph(n, &arcs);
    let mut ch = CH::new(&g);
    let report = ch.build();
    assert_eq!(report.rebuilds, 0);
    assert!(report.is_clean());
    let (path, cost) = ch.search(key(0), key(n - 1)).unwrap();
    assert_eq!(cost, 19 * 1023);
    assert_eq!(keys(&path), (0..n).collect::<Vec<usize>>());
}

#[test]
fn three_nodes_bear_links_of_an_eighth_of_the_cost_span() {
    // the highest cost that can double three times and still fit a link
    let top = ((1u32 << 30) - 1) / 8;
    let g = graph(3, &[(0, 1, top), (1, 2, top), (2, 0, top)]);
    let mut ch = CH::new(&g);
    let report = ch.build();
    assert_eq!(report.rebuilds, 0);
    assert_eq!(report.tight, 0);
    assert!(report.is_clean());
    for s in 0..3 {
        for t in 0..3 {
            let plain = g.search(key(s), key(t)).map(|(_, c)| c);
            let quick = ch.search(key(s), key(t)).map(|(_, c)| c);
            assert_eq!(plain, quick);
        }
    }
    assert_eq!(ch.search(key(0), key(2)).map(|(_, c)| c), Some(2 * top));
}

#[test]
fn a_long_ring_is_never_pruned() {
    // one arc out of each node and one into it
    let n = 45000usize;
    let arcs: Vec<(usize, usize, u32)> =
        (0..n).map(|i| (i, (i + 1) % n, (i % 7 + 1) as u32)).collect();
    let g = graph(n, &arcs);
    let mut ch = CH::new(&g);
    let report = ch.build();
    assert_eq!(report.pruned, 0);
    assert!(report.is_clean());
    for (s, t) in [(0usize, 1usize), (1, 0), (17, 30000), (44999, 44998), (20000, 5)] {
        let quick = ch.search(key(s), key(t)).map(|(_, c)| c);
        let mut want = 0u32;
        let mut at = s;
        while at != t {
            want += (at % 7 + 1) as u32;
            at = (at + 1) % n;
        }
        assert_eq!(quick, Some(want));
    }
}

#[test]
fn a_long_two_way_chain_is_never_pruned() {
    // each node is joined to the next in both directions, at different costs
    let n = 30000usize;
    let mut arcs: Vec<(usize, usize, u32)> = Vec::new();
    for i in 0..n - 1 {
        arcs.push((i, i + 1, (i % 5 + 1) as u32));
        arcs.push((i + 1, i, (i % 3 + 2) as u32));
    }
    let g = graph(n, &arcs);
    let mut ch = CH::new(&g);
    let report = ch.build();
    assert_eq!(report.pruned, 0);
    for (s, t) in [(0usize, 29999usize), (29999, 0), (123, 20000), (20000, 123), (7, 7)] {
        let quick = ch.search(key(s), key(t)).map(|(_, c)| c);
        let mut want = 0u32;
        let mut at = s;
        while at < t {
            want += (at % 5 + 1) as u32;
            at += 1;
        }
        while at > t {
            at -= 1;
            want += (at % 3 + 2) as u32;
        }
        assert_eq!(quick, Some(want));
    }
}
