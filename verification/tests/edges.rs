use ch::network::{IdxLinkDir, IdxNodeKey};
use ch::shp::{graph_of_edges, is_sorted_by_source, links, Edge};

#[test]
fn graph_of_sorted_edges() {
    let edges = vec![
        Edge { s: 0, t: 1, len: 30 },
        Edge { s: 0, t: 2, len: 50 },
        Edge { s: 1, t: 0, len: 30 },
        Edge { s: 2, t: 0, len: 50 },
    ];
    assert!(is_sorted_by_source(&edges));
    assert_eq!(links(&edges, 0), (0, 2));
    assert_eq!(links(&edges, 1), (2, 3));
    assert_eq!(links(&edges, 7), (4, 4));
    let g = graph_of_edges(3, &edges).unwrap();
    assert_eq!(g.node_len, 3);
    let row0: Vec<(usize, u32, IdxLinkDir)> =
        g.idx_links[0].iter().map(|l| (l.enode_idx().index(), l.cost(), l.dir())).collect();
    assert_eq!(
        row0,
        vec![
            (1, 30, IdxLinkDir::Forward),
            (2, 50, IdxLinkDir::Forward),
            (1, 30, IdxLinkDir::Backward),
            (2, 50, IdxLinkDir::Backward),
        ]
    );
    let (path, cost) = g.search(IdxNodeKey::new(1), IdxNodeKey::new(2)).unwrap();
    assert_eq!(path, vec![IdxNodeKey::new(1), IdxNodeKey::new(0), IdxNodeKey::new(2)]);
    assert_eq!(cost, 80);
}

#[test]
fn edges_that_do_not_fit() {
    let unsorted = vec![Edge { s: 1, t: 0, len: 1 }, Edge { s: 0, t: 1, len: 1 }];
    assert!(!is_sorted_by_source(&unsorted));
    assert!(graph_of_edges(2, &unsorted).is_none());
    let far = vec![Edge { s: 0, t: 5, len: 1 }];
    assert!(graph_of_edges(2, &far).is_none());
    // an edge that starts outside the graph is left aside
    let outside = vec![Edge { s: 0, t: 1, len: 1 }, Edge { s: 9, t: 40, len: 1 }];
    assert!(graph_of_edges(2, &outside).is_some());
    assert!(graph_of_edges(0, &Vec::new()).is_some());
}

#[test]
fn edges_are_ordered_by_their_fields() {
    let mut edges = vec![
        Edge { s: 2, t: 0, len: 5 },
        Edge { s: 0, t: 2, len: 5 },
        Edge { s: 0, t: 1, len: 9 },
    ];
    edges.sort();
    assert_eq!(
        edges,
        vec![
            Edge { s: 0, t: 1, len: 9 },
            Edge { s: 0, t: 2, len: 5 },
            Edge { s: 2, t: 0, len: 5 },
        ]
    );
}
