//! Topologies of the Internet Topology Zoo.

use vstd::prelude::*;

use crate::types::RouterId;

verus! {

/// Topologies of the Internet Topology Zoo.
#[derive(Debug, Clone, Copy, PartialEq, Eq, Structural, Hash)]
pub enum TopologyZoo {
    /// The Epoch network: six routers in the United States.
    Epoch,
}

/// A router of a topology.
#[derive(Debug, Clone, Copy, PartialEq, Eq)]
pub struct TopologyRouter {
    /// The name of the router.
    pub name: &'static str,
    /// Whether the router belongs to another AS.
    pub external: bool,
}

/// A topology: the routers, numbered by their position, and the links between them.
#[derive(Debug)]
pub struct Topology {
    /// The routers; the id of a router is its position.
    pub routers: Vec<TopologyRouter>,
    /// The undirected links.
    pub links: Vec<(RouterId, RouterId)>,
}

/// The names of the routers of a topology, in the order of their ids.
pub open spec fn zoo_names(t: TopologyZoo) -> Seq<Seq<char>> {
    match t {
        TopologyZoo::Epoch => seq!["PaloAlto"@, "LosAngeles"@, "Denver"@, "Chicago"@, "Vienna"@, "Atlanta"@],
    }
}

/// Which routers of a topology are external, in the order of their ids.
pub open spec fn zoo_external(t: TopologyZoo) -> Seq<bool> {
    match t {
        TopologyZoo::Epoch => seq![false, false, false, false, false, false],
    }
}

/// The links of a topology.
pub open spec fn zoo_links(t: TopologyZoo) -> Seq<(RouterId, RouterId)> {
    match t {
        TopologyZoo::Epoch => seq![
            (RouterId(0), RouterId(1)),
            (RouterId(0), RouterId(2)),
            (RouterId(0), RouterId(4)),
            (RouterId(1), RouterId(5)),
            (RouterId(2), RouterId(3)),
            (RouterId(3), RouterId(4)),
            (RouterId(4), RouterId(5)),
        ],
    }
}

/// The number of `false` entries.
pub open spec fn count_false(s: Seq<bool>) -> nat
    decreases s.len(),
{
    if s.len() == 0 {
        0
    } else {
        count_false(s.drop_last()) + if s.last() { 0nat } else { 1nat }
    }
}

/// The number of links between two internal routers.
pub open spec fn count_internal_links(external: Seq<bool>, links: Seq<(RouterId, RouterId)>) -> nat
    decreases links.len(),
{
    if links.len() == 0 {
        0
    } else {
        let (a, b) = links.last();
        count_internal_links(external, links.drop_last())
            + if !external[a.0 as int] && !external[b.0 as int] { 1nat } else { 0nat }
    }
}

/// The topologies by increasing number of internal routers, ties broken by the number of internal
/// links.
pub open spec fn zoo_by_nodes() -> Seq<TopologyZoo> {
    seq![TopologyZoo::Epoch]
}

/// The topologies by increasing number of internal links, ties broken by the number of internal
/// routers.
pub open spec fn zoo_by_edges() -> Seq<TopologyZoo> {
    seq![TopologyZoo::Epoch]
}

impl TopologyZoo {
    /// The routers and links of the topology.
    pub fn build(&self) -> (t: Topology)
        ensures
            t.routers@.len() == zoo_names(*self).len(),
            forall|i: int| 0 <= i < t.routers@.len() ==> (#[trigger] t.routers@[i]).name@ == zoo_names(*self)[i]
                && t.routers@[i].external == zoo_external(*self)[i],
            t.links@ == zoo_links(*self),
            t.routers@.len() == self.num_routers_spec(),
            t.links@.len() == self.num_edges_spec(),
            forall|i: int| 0 <= i < t.links@.len() ==> (#[trigger] t.links@[i]).0.0 < t.routers@.len()
                && t.links@[i].1.0 < t.routers@.len(),
    {
        match self {
            TopologyZoo::Epoch => {
                let routers = vec![
                    TopologyRouter { name: "PaloAlto", external: false },
                    TopologyRouter { name: "LosAngeles", external: false },
                    TopologyRouter { name: "Denver", external: false },
                    TopologyRouter { name: "Chicago", external: false },
                    TopologyRouter { name: "Vienna", external: false },
                    TopologyRouter { name: "Atlanta", external: false },
                ];
                let links = vec![
                    (RouterId(0), RouterId(1)),
                    (RouterId(0), RouterId(2)),
                    (RouterId(0), RouterId(4)),
                    (RouterId(1), RouterId(5)),
                    (RouterId(2), RouterId(3)),
                    (RouterId(3), RouterId(4)),
                    (RouterId(4), RouterId(5)),
                ];
                proof {
                    reveal_with_fuel(count_false, 7);
                    assert(links@ =~= zoo_links(*self));
                }
                Topology { routers, links }
            },
        }
    }

    /// The number of internal routers.
    pub open spec fn num_internals_spec(&self) -> nat {
        count_false(zoo_external(*self))
    }

    /// The number of external routers.
    pub open spec fn num_externals_spec(&self) -> nat {
        (zoo_external(*self).len() - count_false(zoo_external(*self))) as nat
    }

    /// The number of routers.
    pub open spec fn num_routers_spec(&self) -> nat {
        zoo_names(*self).len()
    }

    /// The number of links.
    pub open spec fn num_edges_spec(&self) -> nat {
        zoo_links(*self).len()
    }

    /// The number of links between internal routers.
    pub open spec fn num_internal_edges_spec(&self) -> nat {
        count_internal_links(zoo_external(*self), zoo_links(*self))
    }

    /// The number of internal routers.
    pub fn num_internals(&self) -> (n: usize)
        ensures
            n == self.num_internals_spec(),
    {
        proof {
            reveal_with_fuel(count_false, 7);
        }
        match self {
            TopologyZoo::Epoch => 6,
        }
    }

    /// The number of external routers.
    pub fn num_externals(&self) -> (n: usize)
        ensures
            n == self.num_externals_spec(),
    {
        proof {
            reveal_with_fuel(count_false, 7);
        }
        match self {
            TopologyZoo::Epoch => 0,
        }
    }

    /// The number of routers: the internal and the external ones.
    pub fn num_routers(&self) -> (n: usize)
        ensures
            n == self.num_routers_spec(),
            n == self.num_internals_spec() + self.num_externals_spec(),
    {
        proof {
            reveal_with_fuel(count_false, 7);
        }
        self.num_internals() + self.num_externals()
    }

    /// The number of links.
    pub fn num_edges(&self) -> (n: usize)
        ensures
            n == self.num_edges_spec(),
    {
        match self {
            TopologyZoo::Epoch => 7,
        }
    }

    /// The number of links between internal routers.
    pub fn num_internal_edges(&self) -> (n: usize)
        ensures
            n == self.num_internal_edges_spec(),
    {
        proof {
            reveal_with_fuel(count_internal_links, 8);
        }
        match self {
            TopologyZoo::Epoch => 7,
        }
    }

    /// All topologies, each once, by increasing number of internal routers; topologies with the
    /// same number come by increasing number of internal links.
    pub fn topologies_increasing_nodes() -> (r: Vec<TopologyZoo>)
        ensures
            r@ == zoo_by_nodes(),
            forall|t: TopologyZoo| r@.contains(t),
            r@.no_duplicates(),
            forall|i: int, j: int| 0 <= i < j < r@.len() ==> (r@[i].num_internals_spec() < r@[j].num_internals_spec()
                || (r@[i].num_internals_spec() == r@[j].num_internals_spec()
                    && r@[i].num_internal_edges_spec() <= r@[j].num_internal_edges_spec())),
    {
        let r = vec![TopologyZoo::Epoch];
        proof {
            assert(r@ =~= zoo_by_nodes());
            assert forall|t: TopologyZoo| r@.contains(t) by {
                match t {
                    TopologyZoo::Epoch => assert(r@[0] == t),
                }
            }
        }
        r
    }

    /// All topologies, each once, by increasing number of internal links; topologies with the
    /// same number come by increasing number of internal routers.
    pub fn topologies_increasing_edges() -> (r: Vec<TopologyZoo>)
        ensures
            r@ == zoo_by_edges(),
            forall|t: TopologyZoo| r@.contains(t),
            r@.no_duplicates(),
            forall|i: int, j: int| 0 <= i < j < r@.len() ==> (r@[i].num_internal_edges_spec() < r@[j].num_internal_edges_spec()
                || (r@[i].num_internal_edges_spec() == r@[j].num_internal_edges_spec()
                    && r@[i].num_internals_spec() <= r@[j].num_internals_spec())),
    {
        let r = vec![TopologyZoo::Epoch];
        proof {
            assert(r@ =~= zoo_by_edges());
            assert forall|t: TopologyZoo| r@.contains(t) by {
                match t {
                    TopologyZoo::Epoch => assert(r@[0] == t),
                }
            }
        }
        r
    }
}

} // verus!
