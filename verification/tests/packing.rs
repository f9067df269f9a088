use ch::network::{IdxLink, IdxLinkDir, IdxNodeKey};

#[test]
fn packed_link_round_trip() {
    for &dir in [IdxLinkDir::Forward, IdxLinkDir::Backward].iter() {
        for &cost in [0u32, 1, 7, 1000, (1 << 30) - 1].iter() {
            let link = IdxLink::new(IdxNodeKey::new(5), cost, dir);
            assert_eq!(link.cost(), cost);
            assert_eq!(link.dir(), dir);
            assert_eq!(link.enode_idx().index(), 5);
        }
    }
}

#[test]
fn cost_keeps_thirty_bits() {
    let link = IdxLink::new(IdxNodeKey::new(1), (1 << 30) + 5, IdxLinkDir::Backward);
    assert_eq!(link.cost(), 5);
    assert_eq!(link.dir(), IdxLinkDir::Backward);
    assert_eq!(link.dir_code(), 2);
}

#[test]
fn set_cost_keeps_the_direction() {
    let mut link = IdxLink::new(IdxNodeKey::new(9), 100, IdxLinkDir::Backward);
    link.set_cost(42);
    assert_eq!(link.cost(), 42);
    assert_eq!(link.dir(), IdxLinkDir::Backward);
    assert_eq!(link.enode_idx().index(), 9);
    let mut link = IdxLink::new(IdxNodeKey::new(9), 100, IdxLinkDir::Forward);
    link.set_cost((1 << 30) | 3);
    assert_eq!(link.cost(), 3);
    assert_eq!(link.dir(), IdxLinkDir::Forward);
}

#[test]
fn direction_codes() {
    assert_eq!(IdxLinkDir::Forward.to_u32(), 1);
    assert_eq!(IdxLinkDir::Backward.to_u32(), 2);
    assert_eq!(IdxLinkDir::from_u32(1), IdxLinkDir::Forward);
    assert_eq!(IdxLinkDir::from_u32(2), IdxLinkDir::Backward);
    assert_eq!(IdxLinkDir::Forward.opposite(), IdxLinkDir::Backward);
    assert!(IdxLinkDir::Forward < IdxLinkDir::Backward);
}

#[test]
fn node_keys_are_indices() {
    assert_eq!(IdxNodeKey::new(77).index(), 77);
    assert_eq!(IdxNodeKey::new(0), IdxNodeKey(0));
    assert!(IdxNodeKey::new(3) < IdxNodeKey::new(4));
    if std::mem::size_of::<usize>() > 4 {
        assert_eq!(IdxNodeKey::new((1usize << 32) + 6).index(), 6);
    }
}
