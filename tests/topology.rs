use net_topology::{IfaceIndex, Interface, InterfaceType, NodeId, Path, PathNode, Topology, TopologyNode};

// A(1) -- (1)B(2) -- (1)C
fn create_line_topology() -> Topology {
    let n_a = NodeId(0xA);
    let n_b = NodeId(0xB);
    let n_c = NodeId(0xC);
    let if_1 = IfaceIndex(1);
    let if_2 = IfaceIndex(2);

    let if_a_1 = Interface::new(if_1, InterfaceType::LocalNet, vec![(n_b, if_1)]);
    let if_b_1 = Interface::new(if_1, InterfaceType::LocalNet, vec![(n_a, if_1)]);
    let if_b_2 = Interface::new(if_2, InterfaceType::LocalNet, vec![(n_c, if_1)]);
    let if_c_1 = Interface::new(if_1, InterfaceType::LocalNet, vec![(n_b, if_2)]);

    let mut node_a = TopologyNode::new(n_a);
    let mut node_b = TopologyNode::new(n_b);
    let mut node_c = TopologyNode::new(n_c);

    node_a.add_iface(if_a_1);
    node_b.add_iface(if_b_1);
    node_b.add_iface(if_b_2);
    node_c.add_iface(if_c_1);

    let mut topo = Topology::new();
    topo.add_node(node_a);
    topo.add_node(node_b);
    topo.add_node(node_c);
    topo
}

// A(1) -- (1)B(2) -- (1)C(2) -- Internet
fn create_line_topology_with_internet() -> Topology {
    let mut topo = create_line_topology();
    let if_c_2 = Interface::new(IfaceIndex(2), InterfaceType::Internet, vec![]);
    let node_c = topo.get_node_mut(NodeId(0xC));

    node_c.add_iface(if_c_2);

    topo
}

// Internet -- (2)A(1) -- (1)B(2) -- (1)C(2) -- Internet
fn create_line_topology_with_internet_2() -> Topology {
    let mut topo = create_line_topology_with_internet();
    let if_a_2 = Interface::new(IfaceIndex(2), InterfaceType::Internet, vec![]);
    let node_a = topo.get_node_mut(NodeId(0xA));

    node_a.add_iface(if_a_2);

    topo
}

#[test]
fn find_gateway_no_internet() {
    let topo = create_line_topology();
    let gts = topo.find_internet_gateway();
    assert!(gts.is_empty());
}

#[test]
fn find_gateway_internet() {
    let topo = create_line_topology_with_internet();
    let gts = topo.find_internet_gateway();
    assert!(!gts.is_empty());
    assert!(gts.len() == 1);
}

#[test]
fn find_gateway_inetnet_2() {
    let topo = create_line_topology_with_internet_2();
    let gts = topo.find_internet_gateway();
    assert!(!gts.is_empty());
    assert_eq!(gts.len(), 2);
}

#[test]
fn gateways_are_the_nodes_with_internet_interfaces() {
    let topo = create_line_topology_with_internet_2();
    let mut gts: Vec<u32> = topo.find_internet_gateway().iter().map(|n| n.0).collect();
    gts.sort();
    assert_eq!(gts, vec![0xA, 0xC]);
}

#[test]
fn find_adjacent_interface() {
    let n_a = NodeId(0xA);
    let n_b = NodeId(0xB);
    let n_c = NodeId(0xC);

    let if_1 = IfaceIndex(1);
    let if_2 = IfaceIndex(2);

    // Internet -- (2)A(1) -- (1)B(2) -- (1)C(2) -- Internet
    let topo = create_line_topology_with_internet_2();

    assert_eq!(topo.get_adjacent_interface(n_a, if_1, n_a), None);
    assert_eq!(topo.get_adjacent_interface(n_a, if_2, n_a), None);
    assert_eq!(topo.get_adjacent_interface(n_a, if_1, n_b), Some(if_1));
    assert_eq!(topo.get_adjacent_interface(n_a, if_2, n_b), None);
    assert_eq!(topo.get_adjacent_interface(n_a, if_2, n_c), None);
    assert_eq!(topo.get_adjacent_interface(n_a, if_1, n_c), None);

    assert_eq!(topo.get_adjacent_interface(n_b, if_1, n_a), Some(if_1));
    assert_eq!(topo.get_adjacent_interface(n_b, if_2, n_a), None);
    assert_eq!(topo.get_adjacent_interface(n_b, if_1, n_b), None);
    assert_eq!(topo.get_adjacent_interface(n_b, if_2, n_b), None);
    assert_eq!(topo.get_adjacent_interface(n_b, if_2, n_c), Some(if_1));
    assert_eq!(topo.get_adjacent_interface(n_b, if_1, n_c), None);

    assert_eq!(topo.get_adjacent_interface(n_c, if_1, n_a), None);
    assert_eq!(topo.get_adjacent_interface(n_c, if_2, n_a), None);
    assert_eq!(topo.get_adjacent_interface(n_c, if_1, n_b), Some(if_2));
    assert_eq!(topo.get_adjacent_interface(n_c, if_2, n_b), None);
    assert_eq!(topo.get_adjacent_interface(n_c, if_1, n_c), None);
    assert_eq!(topo.get_adjacent_interface(n_c, if_2, n_c), None);
}

#[test]
fn adjacent_interface_on_line_topology() {
    let topo = create_line_topology();
    let (n_a, n_b, n_c) = (NodeId(0xA), NodeId(0xB), NodeId(0xC));
    assert_eq!(topo.get_adjacent_interface(n_a, IfaceIndex(1), n_a), None);
    assert_eq!(topo.get_adjacent_interface(n_a, IfaceIndex(1), n_c), None);
    assert_eq!(topo.get_adjacent_interface(n_a, IfaceIndex(1), n_b), Some(IfaceIndex(1)));
    assert_eq!(topo.get_adjacent_interface(n_b, IfaceIndex(2), n_c), Some(IfaceIndex(1)));
}

#[test]
fn adjacent_interface_takes_the_first_link_of_a_shared_segment() {
    let mut hub = TopologyNode::new(NodeId(1));
    hub.add_iface(Interface::new(
        IfaceIndex(3),
        InterfaceType::LocalNet,
        vec![(NodeId(2), IfaceIndex(7)), (NodeId(4), IfaceIndex(8)), (NodeId(2), IfaceIndex(9))],
    ));
    let mut topo = Topology::new();
    topo.add_node(hub);
    assert_eq!(topo.get_adjacent_interface(NodeId(1), IfaceIndex(3), NodeId(2)), Some(IfaceIndex(7)));
    assert_eq!(topo.get_adjacent_interface(NodeId(1), IfaceIndex(3), NodeId(4)), Some(IfaceIndex(8)));
    assert_eq!(topo.get_adjacent_interface(NodeId(1), IfaceIndex(3), NodeId(5)), None);
}

#[test]
fn local_interface_lookup_by_type() {
    let topo = create_line_topology_with_internet();
    assert_eq!(topo.get_internet_iface_id(NodeId(0xC)), Some(IfaceIndex(2)));
    assert_eq!(topo.get_internet_iface_id(NodeId(0xA)), None);
    assert_eq!(topo.get_local_app_iface_id(NodeId(0xC)), None);
    assert_eq!(topo.get_local_iface_id_type(NodeId(0xB), InterfaceType::Internet), None);
    let net = topo.get_local_iface_id_type(NodeId(0xB), InterfaceType::LocalNet);
    assert!(net == Some(IfaceIndex(1)) || net == Some(IfaceIndex(2)));
}

#[test]
fn local_app_interface_is_found() {
    let mut node = TopologyNode::new(NodeId(9));
    node.add_iface(Interface::new(IfaceIndex(4), InterfaceType::LocalNet, vec![]));
    node.add_iface(Interface::new(IfaceIndex(0), InterfaceType::LocalApp, vec![]));
    let mut topo = Topology::new();
    topo.add_node(node);
    assert_eq!(topo.get_local_app_iface_id(NodeId(9)), Some(IfaceIndex(0)));
}

#[test]
fn add_node_replaces_a_node_with_the_same_id() {
    let mut topo = create_line_topology_with_internet();
    assert_eq!(topo.find_internet_gateway().len(), 1);
    topo.add_node(TopologyNode::new(NodeId(0xC)));
    assert!(topo.find_internet_gateway().is_empty());
    assert_eq!(topo.nodes.len(), 3);
    assert!(topo.get_node(NodeId(0xC)).ifaces.is_empty());
}

#[test]
fn add_iface_replaces_an_interface_with_the_same_index() {
    let mut node = TopologyNode::new(NodeId(1));
    node.add_iface(Interface::new(IfaceIndex(1), InterfaceType::LocalNet, vec![(NodeId(2), IfaceIndex(1))]));
    node.add_iface(Interface::new(IfaceIndex(1), InterfaceType::Internet, vec![]));
    assert_eq!(node.ifaces.len(), 1);
    assert_eq!(node.get_iface(IfaceIndex(1)).if_type, InterfaceType::Internet);
    assert!(node.get_iface(IfaceIndex(1)).neighbors.is_empty());
}

#[test]
fn path_node_starts_with_default_tags() {
    let n = PathNode::new(NodeId(5));
    assert_eq!(n.id, NodeId(5));
    assert_eq!(n.forward_if_id, IfaceIndex::default());
    assert_eq!(n.reverse_if_id, IfaceIndex(0));
}

#[test]
fn visited_check_and_snapshot() {
    let topo = create_line_topology();
    let mut path = Path::new();
    assert!(!topo.check_if_visitted(NodeId(0xA), &path));
    path.nodes.push(PathNode::new(NodeId(0xA)));
    path.nodes.push(PathNode::new(NodeId(0xB)));
    assert!(topo.check_if_visitted(NodeId(0xB), &path));
    assert!(!topo.check_if_visitted(NodeId(0xC), &path));
    let copy = path.snapshot();
    assert_eq!(copy.nodes, path.nodes);
}
