use ipnet::Ipv4Net;
use ptree::DataIter;
use ptree::Node;
use ptree::NodeChild;
use ptree::NodeIter;
use ptree::Ptree;

fn net(s: &str) -> Ipv4Net {
    s.parse().unwrap()
}

fn prefixes(top: &Ptree<Ipv4Net, i32>, ids: &[usize]) -> Vec<Ipv4Net> {
    ids.iter().map(|id| top.get(*id).unwrap().prefix).collect()
}

#[test]
fn add_then_lookup_exact_gives_the_data() {
    let mut top = Ptree::<Ipv4Net, i32>::new();
    top.add(&net("10.0.0.0/8"), 7);
    top.add(&net("10.1.0.0/16"), 8);
    top.add(&net("192.168.0.0/24"), 9);
    let id = top.lookup_exact(&net("10.1.0.0/16")).node.unwrap();
    assert_eq!(top.get(id).unwrap().data, Some(8));
    let id = top.lookup_exact(&net("10.0.0.0/8")).node.unwrap();
    assert_eq!(top.get(id).unwrap().data, Some(7));
    let id = top.lookup_exact(&net("192.168.0.0/24")).node.unwrap();
    assert_eq!(top.get(id).unwrap().data, Some(9));
    assert!(top.lookup_exact(&net("10.0.0.0/9")).node.is_none());
}

#[test]
fn add_overwrites_earlier_data() {
    let mut top = Ptree::<Ipv4Net, i32>::new();
    top.add(&net("10.0.0.0/8"), 1);
    top.add(&net("10.0.0.0/8"), 2);
    let id = top.lookup_exact(&net("10.0.0.0/8")).node.unwrap();
    assert_eq!(top.get(id).unwrap().data, Some(2));
    assert_eq!(top.node_iter().collect(&top).len(), 1);
}

#[test]
fn insert_twice_gives_the_same_node() {
    let mut top = Ptree::<Ipv4Net, i32>::new();
    top.add(&net("10.0.0.0/24"), 1);
    top.add(&net("10.0.1.0/24"), 2);
    let first = top.insert(&net("10.0.3.0/24")).node;
    let nodes = top.node_iter().collect(&top).len();
    let second = top.insert(&net("10.0.3.0/24")).node;
    assert!(first.is_some());
    assert_eq!(first, second);
    assert_eq!(top.node_iter().collect(&top).len(), nodes);
    assert_eq!(nodes, 5);
}

#[test]
fn insert_creates_a_node_without_data() {
    let mut top = Ptree::<Ipv4Net, i32>::new();
    let id = top.insert(&net("10.0.0.0/8")).node.unwrap();
    assert_eq!(top.get(id).unwrap().prefix, net("10.0.0.0/8"));
    assert!(top.get(id).unwrap().data.is_none());
    assert_eq!(top.find(&net("10.0.0.0/8")).node, Some(id));
    assert!(top.lookup_exact(&net("10.0.0.0/8")).node.is_none());
    assert!(top.lookup(&net("10.0.0.1/32")).node.is_none());
    assert_eq!(top.iter().collect(&top).len(), 0);
    assert_eq!(top.node_iter().collect(&top), vec![id]);
}

#[test]
fn insert_between_parent_and_child() {
    let mut top = Ptree::<Ipv4Net, i32>::new();
    top.add(&net("10.0.0.0/8"), 8);
    top.add(&net("10.1.1.0/24"), 24);
    top.add(&net("10.1.0.0/16"), 16);
    let order = top.node_iter().collect(&top);
    assert_eq!(
        prefixes(&top, &order),
        vec![net("10.0.0.0/8"), net("10.1.0.0/16"), net("10.1.1.0/24")]
    );
    let mid = top.find(&net("10.1.0.0/16")).node.unwrap();
    let low = top.find(&net("10.1.1.0/24")).node.unwrap();
    let high = top.find(&net("10.0.0.0/8")).node.unwrap();
    assert_eq!(top.get(low).unwrap().parent(), Some(mid));
    assert_eq!(top.get(mid).unwrap().parent(), Some(high));
    assert_eq!(top.get(high).unwrap().parent(), None);
    assert_eq!(top.get(mid).unwrap().child(NodeChild::Left), Some(low));
    assert_eq!(top.get(mid).unwrap().child(NodeChild::Right), None);
}

#[test]
fn find_shows_branch_nodes() {
    let mut top = Ptree::<Ipv4Net, i32>::new();
    top.add(&net("0.0.0.0/1"), 1);
    top.add(&net("128.0.0.0/1"), 2);
    let branch = top.find(&net("0.0.0.0/0")).node.unwrap();
    let node = top.get(branch).unwrap();
    assert_eq!(node.prefix, net("0.0.0.0/0"));
    assert!(node.data.is_none());
    assert!(node.child(NodeChild::Left).is_some());
    assert!(node.child(NodeChild::Right).is_some());
    assert!(top.lookup_exact(&net("0.0.0.0/0")).node.is_none());
    assert!(top.find(&net("0.0.0.0/2")).node.is_none());
    assert_eq!(top.node_iter().node, Some(branch));
}

#[test]
fn lookup_skips_branch_nodes() {
    let mut top = Ptree::<Ipv4Net, i32>::new();
    top.add(&net("10.0.0.0/8"), 8);
    top.add(&net("10.64.0.0/16"), 1);
    top.add(&net("10.128.0.0/16"), 2);
    // the branch node 10.0.0.0/8 carries data, the one above the /16s does not
    let hit = top.lookup(&net("10.64.1.0/24")).node.unwrap();
    assert_eq!(top.get(hit).unwrap().prefix, net("10.64.0.0/16"));
    let hit = top.lookup(&net("10.65.0.0/16")).node.unwrap();
    assert_eq!(top.get(hit).unwrap().prefix, net("10.0.0.0/8"));
    assert!(top.lookup(&net("11.0.0.0/8")).node.is_none());
}

#[test]
fn diverging_prefixes_count_once_each() {
    let mut top = Ptree::<Ipv4Net, i32>::new();
    top.add(&net("10.0.0.0/24"), 0);
    top.add(&net("10.0.1.0/24"), 1);
    top.add(&net("10.0.2.0/24"), 2);
    top.add(&net("10.0.3.0/24"), 3);
    assert_eq!(top.iter().collect(&top).len(), 4);
    assert_eq!(top.node_iter().collect(&top).len(), 7);
}

#[test]
fn nodes_come_in_walking_order() {
    let mut top = Ptree::<Ipv4Net, i32>::new();
    top.add(&net("192.0.0.0/2"), 1);
    top.add(&net("0.0.0.0/2"), 2);
    top.add(&net("128.0.0.0/1"), 3);
    top.add(&net("64.0.0.0/2"), 4);
    top.add(&net("128.0.0.0/2"), 5);
    let all = top.node_iter().collect(&top);
    assert_eq!(
        prefixes(&top, &all),
        vec![
            net("0.0.0.0/0"),
            net("0.0.0.0/1"),
            net("0.0.0.0/2"),
            net("64.0.0.0/2"),
            net("128.0.0.0/1"),
            net("128.0.0.0/2"),
            net("192.0.0.0/2"),
        ]
    );
    let data = top.iter().collect(&top);
    assert_eq!(
        prefixes(&top, &data),
        vec![
            net("0.0.0.0/2"),
            net("64.0.0.0/2"),
            net("128.0.0.0/1"),
            net("128.0.0.0/2"),
            net("192.0.0.0/2"),
        ]
    );
}

#[test]
fn cursors_step_one_node_at_a_time() {
    let mut top = Ptree::<Ipv4Net, i32>::new();
    top.add(&net("0.0.0.0/1"), 1);
    top.add(&net("128.0.0.0/1"), 2);
    let mut all = top.node_iter();
    let a = all.next(&top).unwrap();
    let b = all.next(&top).unwrap();
    let c = all.next(&top).unwrap();
    assert_eq!(all.next(&top), None);
    assert_eq!(all.next(&top), None);
    assert_eq!(prefixes(&top, &[a, b, c]), vec![net("0.0.0.0/0"), net("0.0.0.0/1"), net("128.0.0.0/1")]);

    let mut data = top.iter();
    assert_eq!(data.next(&top), Some(b));
    assert_eq!(data.next(&top), Some(c));
    assert_eq!(data.next(&top), None);
    assert_eq!(data.next(&top), None);
}

#[test]
fn cursor_starts_anywhere() {
    let mut top = Ptree::<Ipv4Net, i32>::new();
    top.add(&net("0.0.0.0/2"), 1);
    top.add(&net("64.0.0.0/2"), 2);
    top.add(&net("128.0.0.0/1"), 3);
    let from = top.find(&net("64.0.0.0/2"));
    let rest = from.collect(&top);
    assert_eq!(prefixes(&top, &rest), vec![net("64.0.0.0/2"), net("128.0.0.0/1")]);
    let start = top.find(&net("0.0.0.0/1")).node;
    let rest = DataIter { node: start }.collect(&top);
    assert_eq!(
        prefixes(&top, &rest),
        vec![net("0.0.0.0/2"), net("64.0.0.0/2"), net("128.0.0.0/1")]
    );
}

#[test]
fn cursor_at_no_node_gives_nothing() {
    let mut top = Ptree::<Ipv4Net, i32>::new();
    top.add(&net("10.0.0.0/8"), 1);
    let mut stale = NodeIter { node: Some(77) };
    assert_eq!(stale.next(&top), None);
    let mut stale = DataIter { node: Some(77) };
    assert_eq!(stale.next(&top), None);
    assert!(top.get(77).is_none());
    let empty = Ptree::<Ipv4Net, i32>::new();
    assert_eq!(empty.node_iter().collect(&empty).len(), 0);
    assert_eq!(empty.iter().collect(&empty).len(), 0);
    assert!(empty.lookup(&net("0.0.0.0/0")).node.is_none());
    assert!(empty.find(&net("0.0.0.0/0")).node.is_none());
}

#[test]
fn delete_removes_route_and_node() {
    let mut top = Ptree::<Ipv4Net, i32>::new();
    top.add(&net("10.0.0.0/8"), 1);
    top.add(&net("10.1.0.0/16"), 2);
    let id = top.find(&net("10.1.0.0/16")).node.unwrap();
    top.delete(&net("10.1.0.0/16"));
    assert!(top.lookup_exact(&net("10.1.0.0/16")).node.is_none());
    assert!(top.find(&net("10.1.0.0/16")).node.is_none());
    assert!(!top.node_iter().collect(&top).contains(&id));
    assert_eq!(top.node_iter().collect(&top).len(), 1);
    let hit = top.lookup(&net("10.1.0.0/16")).node.unwrap();
    assert_eq!(top.get(hit).unwrap().prefix, net("10.0.0.0/8"));
}

#[test]
fn delete_of_an_absent_route_changes_nothing() {
    let mut top = Ptree::<Ipv4Net, i32>::new();
    top.add(&net("0.0.0.0/1"), 1);
    top.add(&net("128.0.0.0/1"), 2);
    let before = top.node_iter().collect(&top);
    top.delete(&net("10.0.0.0/8"));
    // the branch node at /0 has no data: deleting it is deleting nothing
    top.delete(&net("0.0.0.0/0"));
    assert_eq!(top.node_iter().collect(&top), before);
    assert_eq!(top.iter().collect(&top).len(), 2);
}

#[test]
fn delete_keeps_a_node_with_two_children() {
    let mut top = Ptree::<Ipv4Net, i32>::new();
    top.add(&net("0.0.0.0/0"), 0);
    top.add(&net("0.0.0.0/1"), 1);
    top.add(&net("128.0.0.0/1"), 2);
    let root = top.find(&net("0.0.0.0/0")).node.unwrap();
    let before = top.node_iter().collect(&top);
    top.delete(&net("0.0.0.0/0"));
    assert_eq!(top.node_iter().collect(&top), before);
    assert_eq!(top.find(&net("0.0.0.0/0")).node, Some(root));
    assert!(top.get(root).unwrap().data.is_none());
    assert!(top.lookup_exact(&net("0.0.0.0/0")).node.is_none());
    assert_eq!(top.iter().collect(&top).len(), 2);
    let left = top.lookup_exact(&net("0.0.0.0/1")).node.unwrap();
    assert_eq!(top.get(left).unwrap().data, Some(1));
    let right = top.lookup_exact(&net("128.0.0.0/1")).node.unwrap();
    assert_eq!(top.get(right).unwrap().data, Some(2));
}

#[test]
fn delete_puts_the_only_child_in_place() {
    let mut top = Ptree::<Ipv4Net, i32>::new();
    top.add(&net("10.0.0.0/8"), 8);
    top.add(&net("10.1.0.0/16"), 16);
    top.add(&net("10.1.1.0/24"), 24);
    top.delete(&net("10.1.0.0/16"));
    let high = top.find(&net("10.0.0.0/8")).node.unwrap();
    let low = top.find(&net("10.1.1.0/24")).node.unwrap();
    assert_eq!(top.get(low).unwrap().parent(), Some(high));
    assert_eq!(top.get(high).unwrap().child(NodeChild::Left), Some(low));
    top.delete(&net("10.0.0.0/8"));
    assert_eq!(top.node_iter().node, Some(low));
    assert_eq!(top.get(low).unwrap().parent(), None);
}

#[test]
fn delete_collapses_an_unused_chain() {
    let mut top = Ptree::<Ipv4Net, i32>::new();
    // two nodes without data above one route
    top.insert(&net("10.0.0.0/8"));
    top.insert(&net("10.1.0.0/16"));
    top.add(&net("10.1.1.0/24"), 24);
    assert_eq!(top.node_iter().collect(&top).len(), 3);
    top.delete(&net("10.1.1.0/24"));
    assert_eq!(top.node_iter().collect(&top).len(), 0);
    assert!(top.node_iter().node.is_none());
}

#[test]
fn delete_leaves_a_branch_with_one_child() {
    let mut top = Ptree::<Ipv4Net, i32>::new();
    top.add(&net("0.0.0.0/1"), 1);
    top.add(&net("128.0.0.0/1"), 2);
    top.delete(&net("128.0.0.0/1"));
    let all = top.node_iter().collect(&top);
    assert_eq!(prefixes(&top, &all), vec![net("0.0.0.0/0"), net("0.0.0.0/1")]);
    assert_eq!(top.iter().collect(&top).len(), 1);
    top.delete(&net("0.0.0.0/1"));
    assert_eq!(top.node_iter().collect(&top).len(), 0);
}

#[test]
fn slots_are_used_again() {
    let mut top = Ptree::<Ipv4Net, i32>::new();
    for round in 0..50 {
        top.add(&net("10.0.0.0/8"), round);
        top.add(&net("10.1.0.0/16"), round);
        top.add(&net("10.2.0.0/16"), round);
        assert_eq!(top.iter().collect(&top).len(), 3);
        top.delete(&net("10.1.0.0/16"));
        top.delete(&net("10.0.0.0/8"));
        top.delete(&net("10.2.0.0/16"));
        assert_eq!(top.node_iter().collect(&top).len(), 0);
    }
    top.add(&net("10.0.0.0/8"), 1);
    top.add(&net("10.1.0.0/16"), 2);
    top.add(&net("10.2.0.0/16"), 3);
    let all = top.node_iter().collect(&top);
    assert!(all.iter().all(|id| *id < 4));
}

#[test]
fn node_accessors() {
    let mut n = Node::<Ipv4Net, i32>::new(&net("10.0.0.0/8"));
    assert_eq!(n.prefix, net("10.0.0.0/8"));
    assert_eq!(n.parent(), None);
    assert_eq!(n.child(NodeChild::Left), None);
    assert_eq!(n.child(NodeChild::Right), None);
    assert!(n.data.is_none());
    n.set_data(5);
    assert_eq!(n.data, Some(5));
    n.set_data(6);
    assert_eq!(n.data, Some(6));
    n.unset_data();
    assert!(n.data.is_none());
}

#[test]
fn stored_prefix_is_the_one_given() {
    let mut top = Ptree::<Ipv4Net, i32>::new();
    top.add(&net("10.1.1.1/8"), 1);
    let id = top.lookup_exact(&net("10.0.0.0/8")).node.unwrap();
    assert_eq!(top.get(id).unwrap().prefix, net("10.1.1.1/8"));
    // a node made for a common prefix is stored masked
    top.add(&net("10.200.1.1/16"), 2);
    top.add(&net("10.100.1.1/16"), 3);
    let branch = top.find(&net("10.0.0.0/9")).node;
    assert!(branch.is_none());
    let branch = top.find(&net("10.77.0.0/8")).node.unwrap();
    assert_eq!(branch, id);
}

#[test]
fn data_is_set_and_cleared_by_handle() {
    let mut top = Ptree::<Ipv4Net, i32>::new();
    let id = top.insert(&net("10.0.0.0/8")).node.unwrap();
    assert!(top.lookup_exact(&net("10.0.0.0/8")).node.is_none());
    assert!(top.set_data(id, 3));
    assert_eq!(top.lookup_exact(&net("10.0.0.0/8")).node, Some(id));
    assert_eq!(top.get(id).unwrap().data, Some(3));
    assert!(top.set_data(id, 4));
    assert_eq!(top.get(id).unwrap().data, Some(4));
    assert!(top.unset_data(id));
    assert!(top.lookup_exact(&net("10.0.0.0/8")).node.is_none());
    assert_eq!(top.find(&net("10.0.0.0/8")).node, Some(id));
    assert!(!top.set_data(id + 1, 5));
    assert!(!top.unset_data(id + 1));
    assert_eq!(top.node_iter().collect(&top), vec![id]);
}

#[test]
fn longest_match_among_nested_routes() {
    let mut top = Ptree::<Ipv4Net, i32>::new();
    top.add(&net("0.0.0.0/0"), 0);
    top.add(&net("10.0.0.0/8"), 8);
    top.add(&net("10.1.0.0/16"), 16);
    top.add(&net("10.1.1.0/24"), 24);
    for (addr, want) in [
        ("10.1.1.1/32", 24),
        ("10.1.2.1/32", 16),
        ("10.2.0.0/16", 8),
        ("11.0.0.0/8", 0),
        ("10.1.0.0/16", 16),
        ("10.0.0.0/7", 0),
    ] {
        let id = top.lookup(&net(addr)).node.unwrap();
        assert_eq!(top.get(id).unwrap().data, Some(want));
    }
    top.delete(&net("0.0.0.0/0"));
    assert!(top.lookup(&net("11.0.0.0/8")).node.is_none());
    assert!(top.lookup(&net("10.0.0.0/7")).node.is_none());
}
