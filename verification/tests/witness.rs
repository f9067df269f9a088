use ch::builder::raise_hop_limit;
use ch::ch::CH;
use ch::graph::Graph;
use ch::network::{IdxLink, IdxLinkDir, IdxNodeKey};
use ch::scoring::{score, shortcuts_from, CHEntry};
use ch::shortcut::CHContraction;
use ch::upward::{filter_order, keep_upward};

fn graph(n: usize, arcs: &[(usize, usize, u32)]) -> Graph {
    let mut rows: Vec<Vec<IdxLink>> = vec![Vec::new(); n];
    for &(u, v, c) in arcs {
        rows[u].push(IdxLink::new(IdxNodeKey::new(v), c, IdxLinkDir::Forward));
    }
    assert!(Graph::valid_links(&rows));
    Graph::from_links(rows)
}

fn key(i: usize) -> IdxNodeKey {
    IdxNodeKey::new(i)
}

fn fwd(to: usize, cost: u32) -> IdxLink {
    IdxLink::new(key(to), cost, IdxLinkDir::Forward)
}

fn bwd(to: usize, cost: u32) -> IdxLink {
    IdxLink::new(key(to), cost, IdxLinkDir::Backward)
}

#[test]
fn witness_costs_of_both_searches() {
    // 0 -> 2 -> 3 through the node to contract, 0 -> 1 -> 3 round it
    let g = graph(5, &[(0, 2, 10), (2, 3, 10), (0, 1, 5), (1, 3, 5), (2, 4, 1)]);
    let ch = CH::new(&g);
    let targets = vec![fwd(3, 10), fwd(4, 1)];
    let plain = ch.dijkstra_contract_dist_backward1(key(2), bwd(0, 10), targets.as_slice(), 2);
    assert_eq!(plain, vec![10, u32::MAX]);
    let fast = ch.dijkstra_contract_dist_backward2(key(2), bwd(0, 10), targets.as_slice(), 2);
    assert_eq!(fast, vec![10, u32::MAX]);
    // the plain search over one link does not get round
    let plain = ch.dijkstra_contract_dist_backward1(key(2), bwd(0, 10), targets.as_slice(), 1);
    assert_eq!(plain, vec![u32::MAX, u32::MAX]);
    // the lookup at hop limit 1 takes an arc from the start and an arc into the target
    let fast = ch.dijkstra_contract_dist_backward2(key(2), bwd(0, 10), targets.as_slice(), 1);
    assert_eq!(fast, vec![10, u32::MAX]);
}

#[test]
fn witness_over_one_arc_is_looked_up() {
    let g = graph(3, &[(0, 1, 3), (1, 2, 4), (0, 2, 6)]);
    let ch = CH::new(&g);
    let targets = vec![fwd(2, 4)];
    let fast = ch.dijkstra_contract_dist_backward2(key(1), bwd(0, 3), targets.as_slice(), 1);
    assert_eq!(fast, vec![6]);
    let plain = ch.dijkstra_contract_dist_backward1(key(1), bwd(0, 3), targets.as_slice(), 1);
    assert_eq!(plain, vec![6]);
    assert!(ch.dijkstra_contract_from(key(1), bwd(0, 3), targets.as_slice(), 1).is_empty());
}

#[test]
fn both_witness_searches_pick_the_same_shortcuts() {
    // a ring with chords; every arc costs another power of two, so that no two ways cost
    // the same, and the hop limit is out of reach
    let n = 9usize;
    let mut arcs = Vec::new();
    for i in 0..n {
        arcs.push((i, (i + 1) % n, 1 << (3 * i)));
        arcs.push(((i + 1) % n, i, 1 << (3 * i + 1)));
        arcs.push((i, (i + 4) % n, 1 << (3 * i + 2)));
    }
    let g = graph(n, &arcs);
    let ch = CH::new(&g);
    let mut pairs = 0;
    for u in 0..n {
        let links: Vec<IdxLink> = ch.links(key(u)).clone();
        let targets: Vec<IdxLink> =
            links.iter().filter(|l| l.dir() == IdxLinkDir::Forward).cloned().collect();
        for from in links.iter().filter(|l| l.dir() == IdxLinkDir::Backward) {
            let a = ch.dijkstra_contract_dist_backward1(key(u), *from, targets.as_slice(), 100);
            let b = ch.dijkstra_contract_dist_backward2(key(u), *from, targets.as_slice(), 100);
            let sa = shortcuts_from(key(u), *from, targets.as_slice(), &a);
            let sb = shortcuts_from(key(u), *from, targets.as_slice(), &b);
            assert_eq!(sa, sb);
            pairs += targets.len();
        }
    }
    assert_eq!(pairs, 81);
}

#[test]
fn witness_searches_differ_under_a_hop_limit() {
    // from 7 the cheapest way to 6 takes three arcs, so that the plain search does not
    // go on from 6; the other search gets to 6 over one arc and on to 11
    let n = 12usize;
    let mut arcs = Vec::new();
    for i in 0..n {
        arcs.push((i, (i + 1) % n, 1 << i));
        arcs.push(((i + 1) % n, i, 3 << (i + 12)));
        arcs.push((i, (i + 5) % n, 5 << (i + 1)));
    }
    let g = graph(n, &arcs);
    let ch = CH::new(&g);
    let targets = vec![fwd(1, 1), fwd(5, 10), fwd(11, 3 << 23)];
    let plain = ch.dijkstra_contract_dist_backward1(key(0), bwd(7, 1280), targets.as_slice(), 3);
    let fast = ch.dijkstra_contract_dist_backward2(key(0), bwd(7, 1280), targets.as_slice(), 3);
    assert_eq!(plain, vec![2688, u32::MAX, u32::MAX]);
    assert_eq!(fast, vec![2688, 1179648, 787072]);
}

#[test]
fn witness_searches_differ_where_the_way_round_costs_the_same() {
    // through node 1 the way from 0 to 2 costs 10, and so does the way round over 3
    let g = graph(4, &[(0, 1, 5), (1, 2, 5), (0, 3, 2), (3, 2, 8)]);
    let ch = CH::new(&g);
    let targets = vec![fwd(2, 5)];
    // the plain search stops short of cost 10 and sees no way round
    let plain = ch.dijkstra_contract_dist_backward1(key(1), bwd(0, 5), targets.as_slice(), 2);
    assert_eq!(plain, vec![u32::MAX]);
    // the other one sees it, so that no shortcut is made
    let fast = ch.dijkstra_contract_dist_backward2(key(1), bwd(0, 5), targets.as_slice(), 2);
    assert_eq!(fast, vec![10]);
    assert!(shortcuts_from(key(1), bwd(0, 5), targets.as_slice(), &fast).is_empty());
    assert_eq!(shortcuts_from(key(1), bwd(0, 5), targets.as_slice(), &plain).len(), 1);
}

#[test]
fn shortcuts_are_picked_where_the_way_round_costs_more() {
    let targets = vec![fwd(3, 10), fwd(4, 1), fwd(0, 2), fwd(2, 2), fwd(5, 0x3fff_fff8)];
    let costs = vec![21, 11, 1000, 1000, u32::MAX];
    let out = shortcuts_from(key(2), bwd(0, 10), targets.as_slice(), &costs);
    // to 3: 21 > 20, a shortcut; to 4: 11 is not more than 11; to 0: back to the start;
    // to 2: the node itself; to 5: the cost does not fit a link
    assert_eq!(
        out,
        vec![CHContraction { snode_idx: key(0), enode_idx: key(3), mnode_idx: key(2), length: 20 }]
    );
}

#[test]
fn score_is_edge_difference_less_deleted() {
    assert_eq!(score(4, 1, 0), 3);
    assert_eq!(score(2, 6, 3), -7);
    assert_eq!(score(0, 0, 0), 0);
    assert_eq!(score(usize::MAX, 0, 0), i32::MAX);
    assert_eq!(score(0, usize::MAX, u16::MAX), i32::MIN);
}

#[test]
fn heap_entry_of_a_node() {
    let g = graph(3, &[(0, 1, 3), (1, 2, 4), (0, 2, 10)]);
    let ch = CH::new(&g);
    let deleted = vec![0u16, 2, 0];
    // node 1 has two links and needs one shortcut
    let e: CHEntry = ch.heap_entry(key(1), deleted.as_slice(), 1);
    assert_eq!((e.score, e.key), (-1, key(1)));
    let e = ch.heap_entry(key(0), deleted.as_slice(), 1);
    assert_eq!((e.score, e.key), (2, key(0)));
    assert!(ch.has_links(1));
    let e = ch.entry_at(2, &deleted, 1);
    assert_eq!((e.score, e.key), (2, key(2)));
}

#[test]
fn kept_arcs_are_those_of_needed_shortcuts() {
    let g = graph(4, &[(0, 1, 3), (1, 2, 4), (0, 2, 10), (3, 0, 1)]);
    let ch = CH::new(&g);
    let kept = ch.kept_arcs(1, 1);
    assert_eq!(kept, vec![(key(1), key(2), 4), (key(0), key(1), 3)]);
    assert!(ch.kept_arcs(2, 1).is_empty());
    assert_eq!(ch.link_count(), 8);
}

#[test]
fn upward_links_are_kept() {
    let order = vec![3u32, 1, 2, u32::MAX];
    let row = vec![fwd(1, 5), fwd(3, 6), bwd(2, 7), bwd(0, 1)];
    let kept = keep_upward(2, row.clone(), order.as_slice());
    let to: Vec<usize> = kept.iter().map(|l| l.enode_idx().index()).collect();
    assert_eq!(to, vec![3, 0]);
    let rows = vec![row.clone(), row.clone(), row.clone(), row];
    let out = filter_order(rows, order.as_slice());
    let shape: Vec<Vec<usize>> =
        out.iter().map(|r| r.iter().map(|l| l.enode_idx().index()).collect()).collect();
    assert_eq!(shape, vec![vec![3], vec![3, 2, 0], vec![3, 0], vec![]]);
}

#[test]
fn hop_limit_rises_with_the_degree() {
    assert_eq!(raise_hop_limit(1, 66, 10), 1);
    assert_eq!(raise_hop_limit(1, 67, 10), 2);
    assert_eq!(raise_hop_limit(1, 100, 10), 2);
    assert_eq!(raise_hop_limit(1, 101, 10), 3);
    assert_eq!(raise_hop_limit(1, 161, 10), 5);
    assert_eq!(raise_hop_limit(3, 67, 10), 3);
    assert_eq!(raise_hop_limit(5, 0, 10), 5);
}

#[test]
fn a_straight_arc_into_a_target_is_seen_under_every_hop_limit() {
    // 0 -> 1 -> 2 through the node to contract, 0 -> 2 straight, and a
    // cheaper way round over two more nodes
    let g = graph(5, &[(0, 1, 4), (1, 2, 4), (0, 2, 7), (0, 3, 1), (3, 4, 1), (4, 2, 1)]);
    let ch = CH::new(&g);
    let targets = vec![fwd(2, 4)];
    for hops in 1..6u16 {
        let seen = ch.dijkstra_contract_dist_backward2(key(1), bwd(0, 4), targets.as_slice(), hops);
        assert!(seen[0] <= 7, "hop limit {}", hops);
    }
    let near = ch.dijkstra_contract_dist_backward2(key(1), bwd(0, 4), targets.as_slice(), 1);
    assert_eq!(near, vec![7]);
    let far = ch.dijkstra_contract_dist_backward2(key(1), bwd(0, 4), targets.as_slice(), 3);
    assert_eq!(far, vec![3]);
}

#[test]
fn the_plain_search_finds_straight_arcs_below_its_cost_limit() {
    // 0 -> 1 -> 2 through the node to contract, 0 -> 2 straight
    let g = graph(4, &[(0, 1, 4), (1, 2, 4), (0, 2, 7), (1, 3, 9), (0, 3, 20)]);
    let ch = CH::new(&g);
    let targets = vec![fwd(2, 4), fwd(3, 9)];
    for hops in 1..5u16 {
        let seen = ch.dijkstra_contract_dist_backward1(key(1), bwd(0, 4), targets.as_slice(), hops);
        // the cost limit is 4 + 9: the arc of cost 7 is below it, that of cost 20 is not
        assert_eq!(seen, vec![7, u32::MAX], "hop limit {}", hops);
    }
    let none = ch.dijkstra_contract_dist_backward1(key(1), bwd(0, 4), targets.as_slice(), 0);
    assert_eq!(none, vec![u32::MAX, u32::MAX]);
}

#[test]
fn no_shortcut_is_made_beside_a_way_round_of_two_links() {
    // 0 -> 2 -> 3 through the node to contract, 0 -> 1 -> 3 round it
    let g = graph(4, &[(0, 2, 10), (2, 3, 10), (0, 1, 5), (1, 3, 5)]);
    let ch = CH::new(&g);
    let links: Vec<IdxLink> = ch.links(key(2)).clone();
    for hops in 2..6u16 {
        assert!(ch.dijkstra_contract(key(2), links.as_slice(), hops).is_empty());
    }
}

#[test]
fn no_shortcut_is_made_beside_a_cheaper_arc() {
    let g = graph(3, &[(0, 1, 2), (1, 2, 2), (0, 2, 3), (2, 0, 1), (1, 0, 1), (2, 1, 1)]);
    let ch = CH::new(&g);
    for hops in 1..4u16 {
        let links: Vec<IdxLink> = ch.links(key(1)).clone();
        let out = ch.dijkstra_contract(key(1), links.as_slice(), hops);
        for c in &out {
            assert!(!(c.snode_idx.index() == 0 && c.enode_idx.index() == 2));
        }
    }
}

#[test]
fn no_way_is_seen_where_only_the_contracted_node_leads_to_the_targets() {
    // 0 -> 1 -> 2 and 1 -> 3; nothing but node 1 has an arc into 2 or 3
    let g = graph(5, &[(0, 1, 4), (1, 2, 5), (1, 3, 6), (0, 4, 1)]);
    let ch = CH::new(&g);
    let targets = vec![fwd(2, 5), fwd(3, 6)];
    for hops in [1u16, 2, 5] {
        let plain = ch.dijkstra_contract_dist_backward1(key(1), bwd(0, 4), targets.as_slice(), hops);
        assert_eq!(plain, vec![u32::MAX, u32::MAX]);
        let fast = ch.dijkstra_contract_dist_backward2(key(1), bwd(0, 4), targets.as_slice(), hops);
        assert_eq!(fast, vec![u32::MAX, u32::MAX]);
    }
}

#[test]
fn at_hop_limit_one_only_ways_round_of_one_or_two_links_count() {
    // 0 -> 1 -> 2 through the node to contract costs 7; the way round over
    // 3 and 4 has three links and costs 3
    let g = graph(5, &[(0, 1, 3), (1, 2, 4), (0, 3, 1), (3, 4, 1), (4, 2, 1)]);
    let ch = CH::new(&g);
    let links: Vec<IdxLink> = ch.links(key(1)).clone();
    let out = ch.dijkstra_contract(key(1), links.as_slice(), 1);
    assert_eq!(out.len(), 1);
    assert_eq!(out[0].snode_idx.index(), 0);
    assert_eq!(out[0].enode_idx.index(), 2);
    assert_eq!(out[0].mnode_idx.index(), 1);
    assert_eq!(out[0].length, 7);
    // a search over more links finds the way round
    assert!(ch.dijkstra_contract(key(1), links.as_slice(), 3).is_empty());
}

#[test]
fn at_hop_limit_one_a_way_round_of_two_links_at_the_same_cost_serves() {
    // 0 -> 1 -> 2 through the node to contract and 0 -> 3 -> 2 round it cost 7 both
    let g = graph(4, &[(0, 1, 3), (1, 2, 4), (0, 3, 5), (3, 2, 2)]);
    let ch = CH::new(&g);
    let links: Vec<IdxLink> = ch.links(key(1)).clone();
    assert!(ch.dijkstra_contract(key(1), links.as_slice(), 1).is_empty());
    // one unit more on the way round, and the shortcut is made
    let g = graph(4, &[(0, 1, 3), (1, 2, 4), (0, 3, 5), (3, 2, 3)]);
    let ch = CH::new(&g);
    let links: Vec<IdxLink> = ch.links(key(1)).clone();
    let out = ch.dijkstra_contract(key(1), links.as_slice(), 1);
    assert_eq!(out.len(), 1);
    assert_eq!(out[0].length, 7);
}
