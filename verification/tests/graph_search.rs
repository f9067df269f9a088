use ch::graph::{map_rev, Graph};
use ch::network::{IdxLink, IdxLinkDir, IdxNodeKey};

fn graph(n: usize, arcs: &[(usize, usize, u32)]) -> Graph {
    let mut rows: Vec<Vec<IdxLink>> = vec![Vec::new(); n];
    for &(u, v, c) in arcs {
        rows[u].push(IdxLink::new(IdxNodeKey::new(v), c, IdxLinkDir::Forward));
    }
    assert!(Graph::valid_links(&rows));
    Graph::from_links(rows)
}

fn keys(path: &[IdxNodeKey]) -> Vec<usize> {
    path.iter().map(|k| k.index()).collect()
}

#[test]
fn from_links_adds_backward_mates() {
    let g = graph(3, &[(0, 1, 3), (1, 2, 4), (0, 2, 10)]);
    assert_eq!(g.node_len, 3);
    let shape: Vec<Vec<(usize, u32, IdxLinkDir)>> = g
        .idx_links
        .iter()
        .map(|row| row.iter().map(|l| (l.enode_idx().index(), l.cost(), l.dir())).collect())
        .collect();
    assert_eq!(
        shape,
        vec![
            vec![(1, 3, IdxLinkDir::Forward), (2, 10, IdxLinkDir::Forward)],
            vec![(2, 4, IdxLinkDir::Forward), (0, 3, IdxLinkDir::Backward)],
            vec![(0, 10, IdxLinkDir::Backward), (1, 4, IdxLinkDir::Backward)],
        ]
    );
}

#[test]
fn every_link_has_its_mate() {
    let g = graph(5, &[(0, 1, 3), (1, 2, 4), (0, 2, 10), (2, 0, 1), (3, 4, 7), (4, 3, 7), (1, 2, 9)]);
    for (u, row) in g.idx_links.iter().enumerate() {
        for l in row {
            let v = l.enode_idx().index();
            let found = g.idx_links[v]
                .iter()
                .any(|m| m.enode_idx().index() == u && m.cost() == l.cost() && m.dir() != l.dir());
            assert!(found);
        }
    }
}

#[test]
fn map_rev_reverses_each_link() {
    let rows = vec![
        vec![
            IdxLink::new(IdxNodeKey::new(1), 5, IdxLinkDir::Forward),
            IdxLink::new(IdxNodeKey::new(2), 6, IdxLinkDir::Forward),
        ],
        vec![IdxLink::new(IdxNodeKey::new(2), 7, IdxLinkDir::Forward)],
        vec![],
    ];
    let rev = map_rev(rows.as_slice());
    let shape: Vec<Vec<(usize, u32, IdxLinkDir)>> = rev
        .iter()
        .map(|row| row.iter().map(|l| (l.enode_idx().index(), l.cost(), l.dir())).collect())
        .collect();
    assert_eq!(
        shape,
        vec![
            vec![],
            vec![(0, 5, IdxLinkDir::Backward)],
            vec![(0, 6, IdxLinkDir::Backward), (1, 7, IdxLinkDir::Backward)],
        ]
    );
}

#[test]
fn valid_links_turns_down_bad_lists() {
    let out_of_range = vec![vec![IdxLink::new(IdxNodeKey::new(3), 1, IdxLinkDir::Forward)], vec![]];
    assert!(!Graph::valid_links(&out_of_range));
    let backward = vec![vec![IdxLink::new(IdxNodeKey::new(1), 1, IdxLinkDir::Backward)], vec![]];
    assert!(!Graph::valid_links(&backward));
    let fine = vec![vec![IdxLink::new(IdxNodeKey::new(1), 1, IdxLinkDir::Forward)], vec![]];
    assert!(Graph::valid_links(&fine));
}

#[test]
fn triangle_dijkstra() {
    let g = graph(3, &[(0, 1, 3), (1, 2, 4), (0, 2, 10)]);
    let (path, cost) = g.search(IdxNodeKey::new(0), IdxNodeKey::new(2)).unwrap();
    assert_eq!(keys(&path), vec![0, 1, 2]);
    assert_eq!(cost, 7);
    let (path, cost) = g.search_bidir(IdxNodeKey::new(0), IdxNodeKey::new(2)).unwrap();
    assert_eq!(keys(&path), vec![0, 1, 2]);
    assert_eq!(cost, 7);
}

#[test]
fn one_way_dijkstra() {
    let g = graph(2, &[(0, 1, 1)]);
    let (path, cost) = g.search(IdxNodeKey::new(0), IdxNodeKey::new(1)).unwrap();
    assert_eq!(keys(&path), vec![0, 1]);
    assert_eq!(cost, 1);
    assert!(g.search(IdxNodeKey::new(1), IdxNodeKey::new(0)).is_none());
    let (path, cost) = g.search_bidir(IdxNodeKey::new(0), IdxNodeKey::new(1)).unwrap();
    assert_eq!(keys(&path), vec![0, 1]);
    assert_eq!(cost, 1);
    assert!(g.search_bidir(IdxNodeKey::new(1), IdxNodeKey::new(0)).is_none());
}

#[test]
fn disconnected_dijkstra() {
    let g = graph(4, &[(0, 1, 2), (1, 0, 2), (2, 3, 5), (3, 2, 5)]);
    assert!(g.search(IdxNodeKey::new(0), IdxNodeKey::new(3)).is_none());
    assert!(g.search(IdxNodeKey::new(2), IdxNodeKey::new(1)).is_none());
    assert!(g.search_bidir(IdxNodeKey::new(0), IdxNodeKey::new(3)).is_none());
    let (path, cost) = g.search(IdxNodeKey::new(2), IdxNodeKey::new(3)).unwrap();
    assert_eq!(keys(&path), vec![2, 3]);
    assert_eq!(cost, 5);
}

#[test]
fn search_to_itself_costs_nothing() {
    let g = graph(2, &[(0, 1, 1)]);
    let (path, cost) = g.search(IdxNodeKey::new(1), IdxNodeKey::new(1)).unwrap();
    assert_eq!(keys(&path), vec![1]);
    assert_eq!(cost, 0);
    let (path, cost) = g.search_bidir(IdxNodeKey::new(0), IdxNodeKey::new(0)).unwrap();
    assert_eq!(keys(&path), vec![0]);
    assert_eq!(cost, 0);
}

#[test]
fn dijkstra_takes_the_cheaper_of_parallel_arcs() {
    let g = graph(3, &[(0, 1, 9), (0, 1, 2), (1, 2, 1), (0, 2, 4)]);
    let (path, cost) = g.search(IdxNodeKey::new(0), IdxNodeKey::new(2)).unwrap();
    assert_eq!(keys(&path), vec![0, 1, 2]);
    assert_eq!(cost, 3);
}

#[test]
fn dijkstra_is_cheapest_on_a_grid() {
    // 5 x 5 grid, arcs to the right cost 1 + row, arcs down cost 1 + column
    let side = 5usize;
    let mut arcs = Vec::new();
    for r in 0..side {
        for c in 0..side {
            let u = r * side + c;
            if c + 1 < side {
                arcs.push((u, u + 1, 1 + r as u32));
                arcs.push((u + 1, u, 1 + r as u32));
            }
            if r + 1 < side {
                arcs.push((u, u + side, 1 + c as u32));
                arcs.push((u + side, u, 1 + c as u32));
            }
        }
    }
    let g = graph(side * side, &arcs);
    // brute force: Bellman-Ford
    let n = side * side;
    for src in [0usize, 7, 24] {
        let mut dist = vec![u64::MAX; n];
        dist[src] = 0;
        for _ in 0..n {
            for &(u, v, c) in &arcs {
                if dist[u] != u64::MAX && dist[u] + (c as u64) < dist[v] {
                    dist[v] = dist[u] + c as u64;
                }
            }
        }
        for dst in 0..n {
            let (path, cost) = g.search(IdxNodeKey::new(src), IdxNodeKey::new(dst)).unwrap();
            assert_eq!(cost as u64, dist[dst]);
            assert_eq!(path[0].index(), src);
            assert_eq!(path[path.len() - 1].index(), dst);
            let (_, cost2) = g.search_bidir(IdxNodeKey::new(src), IdxNodeKey::new(dst)).unwrap();
            assert_eq!(cost2 as u64, dist[dst]);
        }
    }
}

#[test]
fn a_step_after_too_many_hops_is_turned_away() {
    // the cheapest way to node 65535 runs over 65535 links; the search counts its hops in
    // 16 bits and takes no step from there, so that the node behind it is not reached,
    // though an arc leads straight from node 0 to node 65535
    let last = 65535usize;
    let mut arcs: Vec<(usize, usize, u32)> = (0..last).map(|i| (i, i + 1, 1)).collect();
    arcs.push((0, last, 70000));
    arcs.push((last, last + 1, 1));
    let g = graph(last + 2, &arcs);
    let (path, cost) = g.search(IdxNodeKey::new(0), IdxNodeKey::new(last)).unwrap();
    assert_eq!(cost, 65535);
    assert_eq!(path.len(), 65536);
    assert!(g.search(IdxNodeKey::new(0), IdxNodeKey::new(last + 1)).is_none());
    // one link less on the way, and the search goes on
    let (_, cost) = g.search(IdxNodeKey::new(1), IdxNodeKey::new(last + 1)).unwrap();
    assert_eq!(cost, 65535);
}
