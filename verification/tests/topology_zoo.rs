use bgpsim::topology_zoo::TopologyZoo;
use bgpsim::types::RouterId;

#[test]
fn test_all() {
    for topo in TopologyZoo::topologies_increasing_nodes() {
        let t = topo.build();
        assert_eq!(t.routers.len(), topo.num_internals() + topo.num_externals());
        assert_eq!(t.routers.len(), topo.num_routers());
        assert_eq!(t.links.len(), topo.num_edges());
    }
}

#[test]
fn test_internal_only() {
    for topo in TopologyZoo::topologies_increasing_nodes() {
        let t = topo.build();
        assert_eq!(t.routers.iter().filter(|r| !r.external).count(), topo.num_internals());
        let internal_links = t
            .links
            .iter()
            .filter(|(a, b)| !t.routers[a.0 as usize].external && !t.routers[b.0 as usize].external)
            .count();
        assert_eq!(internal_links, topo.num_internal_edges());
    }
}

#[test]
fn test_extract() {
    let t = TopologyZoo::Epoch.build();
    assert_eq!(t.routers[0].name, "PaloAlto");
    assert_eq!(t.routers[1].name, "LosAngeles");
    assert_eq!(t.routers[2].name, "Denver");
    assert_eq!(t.routers[3].name, "Chicago");
    assert_eq!(t.routers[4].name, "Vienna");
    assert_eq!(t.routers[5].name, "Atlanta");
    let has = |a: u32, b: u32| {
        t.links.contains(&(RouterId(a), RouterId(b))) || t.links.contains(&(RouterId(b), RouterId(a)))
    };
    assert!(has(0, 1));
    assert!(has(0, 2));
    assert!(has(0, 4));
    assert!(has(1, 5));
    assert!(has(2, 3));
    assert!(has(3, 4));
    assert!(has(4, 5));
    assert!(has(1, 0));
    assert!(has(5, 4));
}

#[test]
fn epoch_counts_and_orders() {
    let topo = TopologyZoo::Epoch;
    assert_eq!(topo.num_internals(), 6);
    assert_eq!(topo.num_externals(), 0);
    assert_eq!(topo.num_routers(), 6);
    assert_eq!(topo.num_edges(), 7);
    assert_eq!(topo.num_internal_edges(), 7);
    assert_eq!(TopologyZoo::topologies_increasing_nodes(), vec![TopologyZoo::Epoch]);
    assert_eq!(TopologyZoo::topologies_increasing_edges(), vec![TopologyZoo::Epoch]);
}
