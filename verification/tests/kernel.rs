use ch::dijkstra::{Cost, HeapEntry, Search};
use ch::heap::MinHeap;
use ch::network::IdxNodeKey;

fn key(i: usize) -> IdxNodeKey {
    IdxNodeKey::new(i)
}

#[test]
fn heap_entry_takes_twelve_bytes() {
    assert_eq!(std::mem::size_of::<HeapEntry<IdxNodeKey>>(), 12);
    assert_eq!(std::mem::size_of::<IdxNodeKey>(), 4);
    assert_eq!(std::mem::size_of::<ch::network::IdxLink>(), 8);
    assert_eq!(std::mem::size_of::<ch::shortcut::CHContraction>(), 16);
    assert_eq!(std::mem::size_of::<ch::scoring::CHEntry>(), 8);
}

#[test]
fn new_search_has_no_limits() {
    let s = Search::new();
    assert_eq!(s.cost_limit, u32::MAX);
    assert_eq!(s.heap_limit, usize::MAX);
    assert_eq!(s.hop_limit, u16::MAX);
    assert_eq!(s.visited_len(), 0);
    let s = Search::with_capacity(usize::MAX);
    assert_eq!(s.visited_len(), 0);
}

#[test]
fn add_src_seeds_the_search() {
    let mut s = Search::new();
    s.add_src(key(4));
    assert_eq!(s.visited_len(), 1);
    let rec = s.get_cost(&key(4)).unwrap();
    assert_eq!((rec.prev_key, rec.cost, rec.visited), (key(4), 0, false));
    assert!(s.get_cost(&key(5)).is_none());
    let e = s.next().unwrap();
    assert_eq!((e.cost, e.hop, e.key), (0, 0, key(4)));
    assert!(s.get_cost(&key(4)).unwrap().visited);
    assert!(s.next().is_none());
}

#[test]
fn next_hands_out_the_cheapest_first_and_skips_final_nodes() {
    let mut s = Search::new();
    s.add_src(key(0));
    let e0 = s.next().unwrap();
    assert!(s.update(&e0, key(1), 7));
    assert!(s.update(&e0, key(2), 3));
    assert!(s.update(&e0, key(1), 5));
    let e = s.next().unwrap();
    assert_eq!((e.cost, e.hop, e.key), (3, 1, key(2)));
    let e = s.next().unwrap();
    assert_eq!((e.cost, e.hop, e.key), (5, 1, key(1)));
    // the entry of cost 7 for node 1 is out of date and dropped
    assert!(s.next().is_none());
    assert_eq!(s.visited_len(), 3);
}

#[test]
fn update_turns_down_what_does_not_improve() {
    let mut s = Search::new();
    s.add_src(key(0));
    let e0 = s.next().unwrap();
    assert!(s.update(&e0, key(1), 5));
    assert!(!s.update(&e0, key(1), 5));
    assert!(!s.update(&e0, key(1), 6));
    assert!(s.update(&e0, key(1), 4));
    // a final node is not taken again
    assert!(!s.update(&e0, key(0), 0));
    let rec = s.get_cost(&key(1)).unwrap();
    assert_eq!((rec.prev_key, rec.cost, rec.visited), (key(0), 4, false));
}

#[test]
fn update_respects_the_limits() {
    let mut s = Search::new();
    s.add_src(key(0));
    let e0 = s.next().unwrap();
    s.cost_limit = 10;
    assert!(!s.update(&e0, key(1), 10));
    assert!(s.update(&e0, key(1), 9));
    s.hop_limit = 1;
    let e1 = s.next().unwrap();
    assert_eq!(e1.hop, 1);
    assert!(!s.update(&e1, key(2), 9));
    assert!(s.update(&e0, key(2), 9));
    s.hop_limit = u16::MAX;
    s.heap_limit = 2;
    assert!(!s.update(&e1, key(3), 1));
    s.heap_limit = 3;
    assert!(s.update(&e1, key(3), 1));
    assert!(!s.update(&e1, key(4), 1));
}

#[test]
fn next_stops_at_the_cost_limit() {
    let mut s = Search::new();
    s.add_src(key(0));
    let e0 = s.next().unwrap();
    assert!(s.update(&e0, key(1), 5));
    assert!(s.update(&e0, key(2), 8));
    s.cost_limit = 8;
    assert_eq!(s.next().unwrap().key, key(1));
    assert!(s.next().is_none());
}

#[test]
fn decode_walks_back_to_the_source() {
    let mut s = Search::new();
    s.add_src(key(0));
    let e0 = s.next().unwrap();
    assert!(s.update(&e0, key(1), 2));
    let e1 = s.next().unwrap();
    assert!(s.update(&e1, key(2), 5));
    let e2 = s.next().unwrap();
    assert!(s.update(&e2, key(3), 6));
    assert_eq!(s.decode(key(3)), vec![key(0), key(1), key(2), key(3)]);
    assert_eq!(s.decode(key(0)), vec![key(0)]);
    // a node without a record stands alone
    assert_eq!(s.decode(key(9)), vec![key(9)]);
}

#[test]
fn decode_ends_on_a_cycle() {
    let mut s = Search::new();
    let a = HeapEntry { cost: 0, hop: 0, key: key(1) };
    let b = HeapEntry { cost: 0, hop: 0, key: key(2) };
    assert!(s.update(&a, key(2), 1));
    assert!(s.update(&b, key(1), 1));
    let path = s.decode(key(1));
    assert_eq!(path.len(), 3);
    assert_eq!(path[2], key(1));
}

#[test]
fn clear_forgets_everything_but_the_limits() {
    let mut s = Search::new();
    s.cost_limit = 50;
    s.add_src(key(0));
    let e0 = s.next().unwrap();
    assert!(s.update(&e0, key(1), 2));
    s.clear();
    assert_eq!(s.visited_len(), 0);
    assert!(s.next().is_none());
    assert_eq!(s.cost_limit, 50);
}

#[test]
fn each_step_counts_one_hop_up_to_the_hop_limit() {
    let mut s = Search::new();
    let far = HeapEntry { cost: 0, hop: u16::MAX - 1, key: key(1) };
    assert!(s.update(&far, key(2), 1));
    let e = s.next().unwrap();
    assert_eq!(e.hop, u16::MAX);
    assert!(!s.update(&e, key(3), 2));
    let mut short = Search::new();
    short.hop_limit = 2;
    short.add_src(key(0));
    let e0 = short.next().unwrap();
    assert!(short.update(&e0, key(1), 1));
    let e1 = short.next().unwrap();
    assert_eq!(e1.hop, 1);
    assert!(short.update(&e1, key(2), 2));
    let e2 = short.next().unwrap();
    assert_eq!(e2.hop, 2);
    assert!(!short.update(&e2, key(3), 3));
}

#[test]
fn cost_record_holds_its_fields() {
    let c = Cost { prev_key: key(3), cost: 9, visited: true };
    let d = c;
    assert_eq!((d.prev_key, d.cost, d.visited), (key(3), 9, true));
}

#[test]
fn min_heap_hands_out_in_rising_order() {
    let mut h: MinHeap<HeapEntry<IdxNodeKey>> = MinHeap::new();
    assert!(h.is_empty());
    assert!(h.pop().is_none());
    for (i, c) in [5u32, 3, 9, 1, 7, 3, 8, 2].iter().enumerate() {
        h.push(HeapEntry { cost: *c, hop: 0, key: key(i) });
    }
    assert_eq!(h.len(), 8);
    let mut out = Vec::new();
    while let Some(e) = h.pop() {
        out.push(e.cost);
    }
    assert_eq!(out, vec![1, 2, 3, 3, 5, 7, 8, 9]);
    h.push(HeapEntry { cost: 4, hop: 0, key: key(0) });
    h.clear();
    assert!(h.is_empty());
}
