use ch::road::{Link, LinkKey, NodeKey};

fn link(control: u8, pass_code: u8) -> Link {
    Link {
        mid: 9,
        mesh_id: 6732,
        link_id: 5,
        snode_id: 10,
        enode_id: 20,
        length: 300,
        max_speed: 60,
        pass_code,
        control,
        reversed: false,
    }
}

#[test]
fn backward_links_are_turned_round() {
    let mut l = link(4, 1);
    l.normalize();
    assert_eq!((l.control, l.snode_id, l.enode_id, l.reversed), (3, 20, 10, true));
    let mut l = link(7, 1);
    l.normalize();
    assert_eq!((l.control, l.snode_id, l.enode_id, l.reversed), (6, 20, 10, true));
    for control in [1u8, 2, 3, 6] {
        let mut l = link(control, 1);
        l.normalize();
        assert_eq!(l, link(control, 1));
    }
}

#[test]
fn two_way_links_have_a_reverse() {
    let l = link(1, 1);
    let r = l.reverse().unwrap();
    assert_eq!((r.snode_id, r.enode_id, r.reversed, r.length), (20, 10, true, 300));
    assert!(link(3, 1).reverse().is_none());
    assert!(link(6, 1).reverse().is_none());
}

#[test]
fn closed_and_passable_links() {
    assert!(link(2, 1).deny());
    assert!(link(1, 2).deny());
    assert!(!link(1, 1).deny());
    assert!(link(1, 1).passable());
    assert!(link(3, 1).passable());
    assert!(link(6, 1).passable());
    assert!(!link(4, 1).passable());
    assert!(!link(1, 2).passable());
}

#[test]
fn keys_of_a_link() {
    let l = link(1, 1);
    assert_eq!(l.node_key(), NodeKey::new(6732, 10));
    assert_eq!(l.link_key(), LinkKey::new(6732, 5, 10));
    assert_eq!(NodeKey::new(1, 2).code(), (1u64 << 32) + 2);
}

#[test]
fn pedestrian_links_turn_round() {
    let l = ch::walk::Link { mid: 1, mesh_id: 2, link_id: 3, snode_id: 4, enode_id: 5, length: 6 };
    let r = l.reverse();
    assert_eq!((r.snode_id, r.enode_id, r.length), (5, 4, 6));
    assert_eq!(l.node_key(), ch::walk::NodeKey::new(2, 4));
}
