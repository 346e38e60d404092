//! Complete Cisco IOS configurations of a router: its interfaces, OSPF, BGP with its neighbors,
//! and its route-maps.

use vstd::prelude::*;

use crate::bgp::BgpRoute;
use crate::export::cisco::{
    advertise_text, bgp_cfg, bgp_cfg_neighbor, law_neighbor_remote_as, bgp_rm_item, bgp_text, dir_name, exportable,
    extend_assigned, first_free, first_host, interface_cfg, interface_text, loopback_of,
    neighbor_text, nets_of, ospf_cfg, ospf_text, rm_item_text, CiscoCfgGen,
};
use crate::export::loopbacks::has_right;
use crate::export::network_of;
use crate::export::common::prefix_list;
use crate::export::{ExportError, PrefixAddressor, INTERNAL_AS};
use crate::route_map::{RouteMap, RouteMapDirection};
use crate::text::{concat, is_infix, lemma_concat_part, lemma_infix_extend, lemma_infix_mid, lemma_infix_trans};
use crate::types::{AsId, BgpSessionType, LinkWeight, Prefix};

verus! {

/// An interface of a router towards a neighbor, in the order in which it is configured.
#[derive(Clone, Copy, Debug)]
pub struct IfaceSpec {
    /// Address of the interface.
    pub ip: u32,
    /// Length of the link network.
    pub prefix_len: u8,
    /// Index of the interface name.
    pub iface_idx: usize,
    /// Weight of the link.
    pub weight: LinkWeight,
    /// OSPF area of the link, if the link takes part in OSPF.
    pub ospf_area: Option<u32>,
}

/// A BGP session of a router, in the order in which it is configured.
#[derive(Debug)]
pub struct NeighborSpec {
    /// Name of the neighbor, written in a comment.
    pub name: String,
    /// Name of the route-maps of the session, without direction.
    pub rm_name: String,
    /// Address of the neighbor.
    pub address: u32,
    /// For a neighbor in another AS: its AS and the index of the interface towards it. A neighbor
    /// in the internal AS is reached from `Loopback0`.
    pub external: Option<(AsId, usize)>,
    /// Type of the session.
    pub session_type: BgpSessionType,
}

/// The route-map items of one direction of a session, ordered by their order.
#[derive(Debug)]
pub struct RouteMapSpec {
    /// Name of the route-map, without direction.
    pub name: String,
    /// Direction of the route-map.
    pub direction: RouteMapDirection,
    /// The items.
    pub items: Vec<RouteMap>,
}

/// The OSPF cost of an interface: its weight, if it takes part in OSPF.
pub open spec fn ospf_cost_of(f: IfaceSpec) -> Option<LinkWeight> {
    if f.ospf_area is Some {
        Some(f.weight)
    } else {
        None
    }
}

/// The configuration of an interface of an internal router. It is shut down if its weight is
/// at least 65535.
pub open spec fn iface_block(names: Seq<Seq<char>>, f: IfaceSpec) -> Seq<char> {
    interface_text(names[f.iface_idx as int], f.ip, f.prefix_len, ospf_cost_of(f), f.ospf_area, f.weight < 65535)
}

/// The smallest OSPF area of the interfaces, if any takes part in OSPF.
pub open spec fn min_area(fs: Seq<IfaceSpec>) -> Option<u32>
    decreases fs.len(),
{
    if fs.len() == 0 {
        None
    } else {
        let m = min_area(fs.drop_last());
        match fs.last().ospf_area {
            None => m,
            Some(x) => match m {
                None => Some(x),
                Some(y) => Some(if y < x { y } else { x }),
            },
        }
    }
}

/// The interface from which the session to a neighbor is held.
pub open spec fn source_iface(names: Seq<Seq<char>>, n: NeighborSpec) -> Seq<char> {
    match n.external {
        Some((_, i)) => names[i as int],
        None => "Loopback0"@,
    }
}

/// The AS of a neighbor.
pub open spec fn remote_as_of(n: NeighborSpec) -> AsId {
    match n.external {
        Some((a, _)) => a,
        None => AsId(INTERNAL_AS),
    }
}

/// The configuration of a session of an internal router.
pub open spec fn neighbor_block(names: Seq<Seq<char>>, n: NeighborSpec) -> Seq<char> {
    "!\n! neighbor "@ + n.name@ + "\n"@ + neighbor_text(AsId(INTERNAL_AS), n.address, remote_as_of(n),
        source_iface(names, n), n.rm_name@, n.session_type)
}

/// The prefixes that a route-map item matches on.
pub open spec fn item_prefixes(rm: RouteMap) -> Seq<Prefix> {
    match prefix_list(rm.conds@) {
        Some(ps) => ps,
        None => Seq::empty(),
    }
}

/// The prefixes of the items, in order.
pub open spec fn items_prefixes(items: Seq<RouteMap>) -> Seq<Prefix>
    decreases items.len(),
{
    if items.len() == 0 {
        Seq::empty()
    } else {
        items_prefixes(items.drop_last()) + item_prefixes(items.last())
    }
}

/// The prefixes of all items of the route-maps, in order.
pub open spec fn maps_prefixes(rms: Seq<RouteMapSpec>) -> Seq<Prefix>
    decreases rms.len(),
{
    if rms.len() == 0 {
        Seq::empty()
    } else {
        maps_prefixes(rms.drop_last()) + items_prefixes(rms.last().items@)
    }
}

/// The order at which item `j` continues: that of the next item, or the last order.
pub open spec fn next_order(items: Seq<RouteMap>, j: int) -> i16 {
    if j + 1 < items.len() {
        items[j + 1].order
    } else {
        i16::MAX
    }
}

/// The configuration of item `j` of a route-map named `name` (with direction), with the
/// networks that the addressor `a` gives its prefixes.
pub open spec fn item_block(name: Seq<char>, items: Seq<RouteMap>, j: int, a: PrefixAddressor) -> Seq<char> {
    rm_item_text(
        INTERNAL_AS,
        name,
        items[j],
        match prefix_list(items[j].conds@) {
            Some(ps) => Some(nets_of(a, ps)),
            None => None,
        },
        a.prefix_len(),
        None,
        next_order(items, j),
    )
}

/// The configuration of the items of a route-map, each continuing at the next one.
pub open spec fn list_block(rm: RouteMapSpec, a: PrefixAddressor) -> Seq<char> {
    concat(Seq::new(rm.items@.len(), |j: int| item_block(dir_name(rm.name@, rm.direction), rm.items@, j, a)))
}

/// The configuration of all route-maps.
pub open spec fn maps_block(rms: Seq<RouteMapSpec>, a: PrefixAddressor) -> Seq<char> {
    concat(Seq::new(rms.len(), |i: int| list_block(rms[i], a)))
}

/// Every interface index names an interface.
pub open spec fn ifaces_exist(n: nat, ifaces: Seq<IfaceSpec>, sessions: Seq<NeighborSpec>) -> bool {
    &&& forall|i: int| 0 <= i < ifaces.len() ==> #[trigger] ifaces[i].iface_idx < n
    &&& forall|i: int| 0 <= i < sessions.len() ==> (#[trigger] sessions[i].external matches Some((_, k)) ==> k < n)
}

/// Every route-map item can be exported.
pub open spec fn maps_exportable(rms: Seq<RouteMapSpec>) -> bool {
    forall|i: int, j: int| 0 <= i < rms.len() && 0 <= j < rms[i].items@.len() ==> exportable(#[trigger] rms[i].items@[j])
}

/// The configuration of an internal router: interfaces and `Loopback0` (with OSPF cost 1 in the
/// smallest area, if any interface takes part in OSPF), OSPF, BGP advertising the internal
/// network, the sessions, and the route-maps, with networks given by the addressor `a`.
pub open spec fn internal_text(
    names: Seq<Seq<char>>,
    router_id: u32,
    ifaces: Seq<IfaceSpec>,
    loopback: (u32, u8),
    internal_net: (u32, u8),
    sessions: Seq<NeighborSpec>,
    rms: Seq<RouteMapSpec>,
    a: PrefixAddressor,
) -> Seq<char> {
    "!\nfeature bgp\nfeature ospf\n!\n! Interfaces\n"@
        + concat(Seq::new(ifaces.len(), |i: int| iface_block(names, ifaces[i])))
        + interface_text("Loopback0"@, loopback.0, loopback.1,
            match min_area(ifaces) { Some(_) => Some(1u64), None => None }, min_area(ifaces), true)
        + "!\n! OSPF\n"@ + ospf_text(router_id) + "!\n! BGP\n"@
        + bgp_text(router_id, AsId(INTERNAL_AS), seq![internal_net])
        + concat(Seq::new(sessions.len(), |i: int| neighbor_block(names, sessions[i])))
        + "!\n! Route-Maps\n"@ + maps_block(rms, a)
}

/// Requesting networks only appends to the list of assigned prefixes, and every requested
/// prefix ends up in it.
pub proof fn lemma_extend_assigned(a: Seq<Prefix>, ps: Seq<Prefix>)
    ensures
        extend_assigned(a, ps).len() >= a.len(),
        forall|i: int| 0 <= i < a.len() ==> #[trigger] extend_assigned(a, ps)[i] == a[i],
        forall|k: int| 0 <= k < ps.len() ==> extend_assigned(a, ps).contains(#[trigger] ps[k]),
    decreases ps.len(),
{
    if ps.len() > 0 {
        lemma_extend_assigned(a, ps.drop_last());
        let e = extend_assigned(a, ps.drop_last());
        assert forall|k: int| 0 <= k < ps.len() implies extend_assigned(a, ps).contains(#[trigger] ps[k]) by {
            if k < ps.len() - 1 {
                assert(ps.drop_last()[k] == ps[k]);
                let t = choose|t: int| 0 <= t < e.len() && e[t] == ps[k];
                if !e.contains(ps.last()) {
                    assert(e.push(ps.last())[t] == ps[k]);
                }
            } else if !e.contains(ps.last()) {
                assert(e.push(ps.last())[e.len() as int] == ps.last());
            }
        }
    }
}

/// Requesting the networks of `x + y` is requesting those of `x`, then those of `y`.
pub proof fn lemma_extend_concat(a: Seq<Prefix>, x: Seq<Prefix>, y: Seq<Prefix>)
    ensures
        extend_assigned(a, x + y) == extend_assigned(extend_assigned(a, x), y),
    decreases y.len(),
{
    if y.len() == 0 {
        assert(x + y =~= x);
    } else {
        lemma_extend_concat(a, x, y.drop_last());
        assert((x + y).drop_last() =~= x + y.drop_last());
        assert((x + y).last() == y.last());
    }
}

/// A prefix keeps its position when the list of assigned prefixes grows at its end.
pub proof fn lemma_index_stable(s: Seq<Prefix>, t: Seq<Prefix>, x: Prefix)
    requires
        s.len() <= t.len(),
        forall|i: int| 0 <= i < s.len() ==> #[trigger] t[i] == s[i],
        t.no_duplicates(),
        s.contains(x),
    ensures
        t.index_of(x) == s.index_of(x),
{
    let i = choose|i: int| 0 <= i < s.len() && s[i] == x;
    assert(s.no_duplicates()) by {
        assert forall|p: int, q: int| 0 <= p < s.len() && 0 <= q < s.len() && p != q implies s[p] != s[q] by {
            assert(t[p] == s[p] && t[q] == s[q]);
        }
    }
    assert(t[i] == x);
    crate::export::cisco::lemma_index_of_unique(s, i);
    crate::export::cisco::lemma_index_of_unique(t, i);
}

/// The networks of prefixes that have one stay the same as more prefixes get one.
pub proof fn lemma_nets_stable(a1: PrefixAddressor, a2: PrefixAddressor, ps: Seq<Prefix>)
    requires
        a1.base() == a2.base(),
        a1.block() == a2.block(),
        a1.assigned().len() <= a2.assigned().len(),
        forall|i: int| 0 <= i < a1.assigned().len() ==> #[trigger] a2.assigned()[i] == a1.assigned()[i],
        a2.assigned().no_duplicates(),
        forall|k: int| 0 <= k < ps.len() ==> a1.assigned().contains(#[trigger] ps[k]),
    ensures
        nets_of(a1, ps) == nets_of(a2, ps),
{
    assert forall|k: int| 0 <= k < ps.len() implies nets_of(a1, ps)[k] == nets_of(a2, ps)[k] by {
        lemma_index_stable(a1.assigned(), a2.assigned(), ps[k]);
    }
    assert(nets_of(a1, ps) =~= nets_of(a2, ps));
}

/// `a2` extends the assignments of `a1`, with the same networks.
pub open spec fn extends(a1: PrefixAddressor, a2: PrefixAddressor) -> bool {
    &&& a1.base() == a2.base()
    &&& a1.block() == a2.block()
    &&& a1.prefix_len() == a2.prefix_len()
    &&& a1.assigned().len() <= a2.assigned().len()
    &&& forall|i: int| 0 <= i < a1.assigned().len() ==> #[trigger] a2.assigned()[i] == a1.assigned()[i]
    &&& a2.assigned().no_duplicates()
}

/// Every prefix of `ps` has a network in `a`.
pub open spec fn all_assigned(a: PrefixAddressor, ps: Seq<Prefix>) -> bool {
    forall|k: int| 0 <= k < ps.len() ==> a.assigned().contains(#[trigger] ps[k])
}

/// The prefixes of the first items are among those of more items.
proof fn lemma_items_prefixes_take(items: Seq<RouteMap>, j: int, k: int)
    requires
        0 <= k < j <= items.len(),
    ensures
        forall|q: int| 0 <= q < item_prefixes(items[k]).len()
            ==> items_prefixes(items.take(j)).contains(#[trigger] item_prefixes(items[k])[q]),
    decreases j,
{
    let t = items.take(j);
    assert(t.drop_last() =~= items.take(j - 1));
    assert(t.last() == items[j - 1]);
    let pre = items_prefixes(items.take(j - 1));
    let ip = item_prefixes(items[j - 1]);
    assert(items_prefixes(t) == pre + ip);
    if k < j - 1 {
        lemma_items_prefixes_take(items, j - 1, k);
        assert forall|q: int| 0 <= q < item_prefixes(items[k]).len()
            implies items_prefixes(t).contains(#[trigger] item_prefixes(items[k])[q]) by {
            let x = item_prefixes(items[k])[q];
            let w = choose|w: int| 0 <= w < pre.len() && pre[w] == x;
            assert((pre + ip)[w] == x);
        }
    } else {
        assert forall|q: int| 0 <= q < item_prefixes(items[k]).len()
            implies items_prefixes(t).contains(#[trigger] item_prefixes(items[k])[q]) by {
            assert((pre + ip)[pre.len() + q] == ip[q]);
        }
    }
}

/// The prefixes of the first route-maps are among those of more route-maps.
proof fn lemma_maps_prefixes_take(rms: Seq<RouteMapSpec>, i: int, k: int)
    requires
        0 <= k < i <= rms.len(),
    ensures
        forall|q: int| 0 <= q < items_prefixes(rms[k].items@).len()
            ==> maps_prefixes(rms.take(i)).contains(#[trigger] items_prefixes(rms[k].items@)[q]),
    decreases i,
{
    let t = rms.take(i);
    assert(t.drop_last() =~= rms.take(i - 1));
    assert(t.last() == rms[i - 1]);
    let pre = maps_prefixes(rms.take(i - 1));
    let ip = items_prefixes(rms[i - 1].items@);
    assert(maps_prefixes(t) == pre + ip);
    if k < i - 1 {
        lemma_maps_prefixes_take(rms, i - 1, k);
        assert forall|q: int| 0 <= q < items_prefixes(rms[k].items@).len()
            implies maps_prefixes(t).contains(#[trigger] items_prefixes(rms[k].items@)[q]) by {
            let x = items_prefixes(rms[k].items@)[q];
            let w = choose|w: int| 0 <= w < pre.len() && pre[w] == x;
            assert((pre + ip)[w] == x);
        }
    } else {
        assert forall|q: int| 0 <= q < items_prefixes(rms[k].items@).len()
            implies maps_prefixes(t).contains(#[trigger] items_prefixes(rms[k].items@)[q]) by {
            assert((pre + ip)[pre.len() + q] == ip[q]);
        }
    }
}

/// The configuration of an item does not change once its prefixes have networks.
proof fn lemma_item_block_stable(name: Seq<char>, items: Seq<RouteMap>, j: int, a1: PrefixAddressor, a2: PrefixAddressor)
    requires
        extends(a1, a2),
        all_assigned(a1, item_prefixes(items[j])),
    ensures
        item_block(name, items, j, a1) == item_block(name, items, j, a2),
{
    match prefix_list(items[j].conds@) {
        Some(ps) => {
            lemma_nets_stable(a1, a2, ps);
        },
        None => {},
    }
}

/// The configuration of the first `j` items does not change once their prefixes have networks.
proof fn lemma_items_stable(name: Seq<char>, items: Seq<RouteMap>, j: int, a1: PrefixAddressor, a2: PrefixAddressor)
    requires
        0 <= j <= items.len(),
        extends(a1, a2),
        all_assigned(a1, items_prefixes(items.take(j))),
    ensures
        Seq::new(j as nat, |k: int| item_block(name, items, k, a1))
            == Seq::new(j as nat, |k: int| item_block(name, items, k, a2)),
{
    assert forall|k: int| 0 <= k < j implies item_block(name, items, k, a1) == item_block(name, items, k, a2) by {
        lemma_items_prefixes_take(items, j, k);
        assert forall|q: int| 0 <= q < item_prefixes(items[k]).len()
            implies a1.assigned().contains(#[trigger] item_prefixes(items[k])[q]) by {
            let x = item_prefixes(items[k])[q];
            let w = choose|w: int| 0 <= w < items_prefixes(items.take(j)).len()
                && items_prefixes(items.take(j))[w] == x;
        }
        lemma_item_block_stable(name, items, k, a1, a2);
    }
    assert(Seq::new(j as nat, |k: int| item_block(name, items, k, a1))
        =~= Seq::new(j as nat, |k: int| item_block(name, items, k, a2)));
}

/// The configuration of the first `i` route-maps does not change once their prefixes have
/// networks.
proof fn lemma_maps_stable(rms: Seq<RouteMapSpec>, i: int, a1: PrefixAddressor, a2: PrefixAddressor)
    requires
        0 <= i <= rms.len(),
        extends(a1, a2),
        all_assigned(a1, maps_prefixes(rms.take(i))),
    ensures
        Seq::new(i as nat, |k: int| list_block(rms[k], a1)) == Seq::new(i as nat, |k: int| list_block(rms[k], a2)),
{
    assert forall|k: int| 0 <= k < i implies list_block(rms[k], a1) == list_block(rms[k], a2) by {
        lemma_maps_prefixes_take(rms, i, k);
        let items = rms[k].items@;
        assert(items.take(items.len() as int) =~= items);
        assert forall|q: int| 0 <= q < items_prefixes(items.take(items.len() as int)).len()
            implies a1.assigned().contains(#[trigger] items_prefixes(items.take(items.len() as int))[q]) by {
            let x = items_prefixes(items)[q];
            let w = choose|w: int| 0 <= w < maps_prefixes(rms.take(i)).len() && maps_prefixes(rms.take(i))[w] == x;
        }
        lemma_items_stable(dir_name(rms[k].name@, rms[k].direction), items, items.len() as int, a1, a2);
    }
    assert(Seq::new(i as nat, |k: int| list_block(rms[k], a1)) =~= Seq::new(i as nat, |k: int| list_block(rms[k], a2)));
}

/// `x` is the beginning of `y`.
pub open spec fn is_prefix_of(x: Seq<Prefix>, y: Seq<Prefix>) -> bool {
    x.len() <= y.len() && y.take(x.len() as int) == x
}

/// Requesting more prefixes never assigns fewer networks.
pub proof fn lemma_extend_prefix_len(a: Seq<Prefix>, x: Seq<Prefix>, y: Seq<Prefix>)
    requires
        is_prefix_of(x, y),
    ensures
        extend_assigned(a, y).len() >= extend_assigned(a, x).len(),
{
    let z = y.skip(x.len() as int);
    assert(x + z =~= y);
    lemma_extend_concat(a, x, z);
    lemma_extend_assigned(extend_assigned(a, x), z);
}

/// The prefixes of the first items begin the prefixes of all items.
proof fn lemma_items_prefixes_prefix(items: Seq<RouteMap>, j: int)
    requires
        0 <= j <= items.len(),
    ensures
        is_prefix_of(items_prefixes(items.take(j)), items_prefixes(items)),
    decreases items.len(),
{
    if j == items.len() {
        assert(items.take(j) =~= items);
        assert(items_prefixes(items).take(items_prefixes(items).len() as int) =~= items_prefixes(items));
    } else {
        let d = items.drop_last();
        assert(d.take(j) =~= items.take(j));
        lemma_items_prefixes_prefix(d, j);
        let x = items_prefixes(items.take(j));
        let y = items_prefixes(d);
        assert(items_prefixes(items) == y + item_prefixes(items.last()));
        assert((y + item_prefixes(items.last())).take(x.len() as int) =~= y.take(x.len() as int));
    }
}

/// The prefixes of the first route-maps begin the prefixes of all route-maps.
proof fn lemma_maps_prefixes_prefix(rms: Seq<RouteMapSpec>, i: int)
    requires
        0 <= i <= rms.len(),
    ensures
        is_prefix_of(maps_prefixes(rms.take(i)), maps_prefixes(rms)),
    decreases rms.len(),
{
    if i == rms.len() {
        assert(rms.take(i) =~= rms);
        assert(maps_prefixes(rms).take(maps_prefixes(rms).len() as int) =~= maps_prefixes(rms));
    } else {
        let d = rms.drop_last();
        assert(d.take(i) =~= rms.take(i));
        lemma_maps_prefixes_prefix(d, i);
        let x = maps_prefixes(rms.take(i));
        let y = maps_prefixes(d);
        assert(maps_prefixes(rms) == y + items_prefixes(rms.last().items@));
        assert((y + items_prefixes(rms.last().items@)).take(x.len() as int) =~= y.take(x.len() as int));
    }
}

/// The prefixes of the route-maps before `i` and of the items of route-map `i` before `j` begin
/// the prefixes of all route-maps.
proof fn lemma_progress_prefix(rms: Seq<RouteMapSpec>, i: int, j: int)
    requires
        0 <= i < rms.len(),
        0 <= j <= rms[i].items@.len(),
    ensures
        is_prefix_of(maps_prefixes(rms.take(i)) + items_prefixes(rms[i].items@.take(j)), maps_prefixes(rms)),
{
    let items = rms[i].items@;
    lemma_items_prefixes_prefix(items, j);
    lemma_maps_prefixes_prefix(rms, i + 1);
    let t = rms.take(i + 1);
    assert(t.drop_last() =~= rms.take(i));
    assert(t.last() == rms[i]);
    let p = maps_prefixes(rms.take(i));
    let x = p + items_prefixes(items.take(j));
    let y = p + items_prefixes(items);
    assert(maps_prefixes(t) == y);
    assert(y.take(x.len() as int) =~= x);
    let all = maps_prefixes(rms);
    assert(all.take(y.len() as int) == y);
    assert(all.take(x.len() as int) =~= y.take(x.len() as int));
}

/// `concat` of one more part.
pub proof fn lemma_concat_new(n: nat, f: spec_fn(int) -> Seq<char>)
    ensures
        concat(Seq::new(n + 1, f)) == concat(Seq::new(n, f)) + f(n as int),
{
    assert(Seq::new(n + 1, f).drop_last() =~= Seq::new(n, f));
}

/// Every prefix of `x` has a network once those of `x + y` have.
proof fn lemma_all_assigned_front(a: PrefixAddressor, x: Seq<Prefix>, y: Seq<Prefix>)
    requires
        all_assigned(a, x + y),
    ensures
        all_assigned(a, x),
{
    assert forall|k: int| 0 <= k < x.len() implies a.assigned().contains(#[trigger] x[k]) by {
        assert((x + y)[k] == x[k]);
    }
}

/// Every prefix of `y` has a network once those of `x + y` have.
proof fn lemma_all_assigned_back(a: PrefixAddressor, x: Seq<Prefix>, y: Seq<Prefix>)
    requires
        all_assigned(a, x + y),
    ensures
        all_assigned(a, y),
{
    assert forall|k: int| 0 <= k < y.len() implies a.assigned().contains(#[trigger] y[k]) by {
        assert((x + y)[x.len() + k] == y[k]);
    }
}

/// One item of `maps_config`: after the networks of item `j` of route-map `i` are requested,
/// the text so far reads the same with the new addressor.
proof fn lemma_map_step(rms: Seq<RouteMapSpec>, i: int, j: int, a0: PrefixAddressor, cur: PrefixAddressor,
    nxt: PrefixAddressor)
    requires
        0 <= i < rms.len(),
        0 <= j < rms[i].items@.len(),
        cur.assigned() == extend_assigned(a0.assigned(),
            maps_prefixes(rms.take(i)) + items_prefixes(rms[i].items@.take(j))),
        nxt.assigned() == extend_assigned(cur.assigned(), item_prefixes(rms[i].items@[j])),
        cur.base() == nxt.base(),
        cur.block() == nxt.block(),
        cur.prefix_len() == nxt.prefix_len(),
        nxt.assigned().no_duplicates(),
    ensures
        nxt.assigned() == extend_assigned(a0.assigned(),
            maps_prefixes(rms.take(i)) + items_prefixes(rms[i].items@.take(j + 1))),
        concat(Seq::new(i as nat, |k: int| list_block(rms[k], cur)))
            == concat(Seq::new(i as nat, |k: int| list_block(rms[k], nxt))),
        concat(Seq::new((j + 1) as nat, |k: int| item_block(dir_name(rms[i].name@, rms[i].direction), rms[i].items@, k, nxt)))
            == concat(Seq::new(j as nat, |k: int| item_block(dir_name(rms[i].name@, rms[i].direction), rms[i].items@, k, cur)))
            + item_block(dir_name(rms[i].name@, rms[i].direction), rms[i].items@, j, nxt),
{
    let items = rms[i].items@;
    let name = dir_name(rms[i].name@, rms[i].direction);
    let outer = rms.take(i);
    let progress = maps_prefixes(outer) + items_prefixes(items.take(j));
    let ps = item_prefixes(items[j]);
    let step = items.take(j + 1);
    assert(step.drop_last() =~= items.take(j));
    assert(step.last() == items[j]);
    assert(items_prefixes(step) == items_prefixes(items.take(j)) + ps);
    assert(progress + ps =~= maps_prefixes(outer) + items_prefixes(step));
    lemma_extend_concat(a0.assigned(), progress, ps);
    lemma_extend_assigned(cur.assigned(), ps);
    assert(extends(cur, nxt));
    lemma_extend_assigned(a0.assigned(), progress);
    assert(all_assigned(cur, progress));
    lemma_all_assigned_front(cur, maps_prefixes(outer), items_prefixes(items.take(j)));
    lemma_all_assigned_back(cur, maps_prefixes(outer), items_prefixes(items.take(j)));
    lemma_maps_stable(rms, i, cur, nxt);
    lemma_items_stable(name, items, j, cur, nxt);
    lemma_concat_new(j as nat, |k: int| item_block(name, items, k, nxt));
}

/// An item whose networks do not fit makes all route-maps not fit.
proof fn lemma_map_fail(rms: Seq<RouteMapSpec>, i: int, j: int, a0: Seq<Prefix>, cur: Seq<Prefix>, cap: nat)
    requires
        0 <= i < rms.len(),
        0 <= j < rms[i].items@.len(),
        cur == extend_assigned(a0, maps_prefixes(rms.take(i)) + items_prefixes(rms[i].items@.take(j))),
        extend_assigned(cur, item_prefixes(rms[i].items@[j])).len() > cap,
    ensures
        extend_assigned(a0, maps_prefixes(rms)).len() > cap,
{
    let items = rms[i].items@;
    let outer = rms.take(i);
    let progress = maps_prefixes(outer) + items_prefixes(items.take(j));
    let ps = item_prefixes(items[j]);
    let step = items.take(j + 1);
    assert(step.drop_last() =~= items.take(j));
    assert(step.last() == items[j]);
    assert(items_prefixes(step) == items_prefixes(items.take(j)) + ps);
    assert(progress + ps =~= maps_prefixes(outer) + items_prefixes(step));
    lemma_extend_concat(a0, progress, ps);
    lemma_progress_prefix(rms, i, j + 1);
    lemma_extend_prefix_len(a0, maps_prefixes(outer) + items_prefixes(step), maps_prefixes(rms));
}

/// The configuration of item `j` of a route-map, continuing at the next item.
fn item_config(addressor: &mut PrefixAddressor, rm: &RouteMapSpec, j: usize) -> (r: Result<String, ExportError>)
    requires
        j < rm.items@.len(),
        exportable(rm.items@[j as int]),
    ensures
        final(addressor).base() == old(addressor).base(),
        final(addressor).prefix_len() == old(addressor).prefix_len(),
        final(addressor).block() == old(addressor).block(),
        final(addressor).capacity() == old(addressor).capacity(),
        r is Err ==> extend_assigned(old(addressor).assigned(), item_prefixes(rm.items@[j as int])).len()
            > old(addressor).capacity(),
        r matches Err(e) ==> e == ExportError::NotEnoughAddresses,
        r matches Ok(t) ==> t@ == item_block(dir_name(rm.name@, rm.direction), rm.items@, j as int, *final(addressor))
            && final(addressor).assigned() == extend_assigned(old(addressor).assigned(), item_prefixes(rm.items@[j as int])),
{
    let items = &rm.items;
    let next = if j < items.len() - 1 { items[j + 1].order } else { i16::MAX };
    let t = bgp_rm_item(addressor, AsId(INTERNAL_AS), rm.name.as_str(), rm.direction, &items[j], None, next);
    proof {
        if prefix_list(items@[j as int].conds@) is None {
            assert(item_prefixes(items@[j as int]) =~= Seq::<Prefix>::empty());
        }
    }
    t
}

/// The configuration of the route-maps: each item in order, continuing at the next item or at
/// the last order. Fails with `NotEnoughAddresses` if their prefixes do not fit the addressor.
#[verifier::rlimit(60)]
pub fn maps_config(addressor: &mut PrefixAddressor, rms: &[RouteMapSpec]) -> (r: Result<String, ExportError>)
    requires
        maps_exportable(rms@),
    ensures
        final(addressor).base() == old(addressor).base(),
        final(addressor).prefix_len() == old(addressor).prefix_len(),
        final(addressor).block() == old(addressor).block(),
        final(addressor).capacity() == old(addressor).capacity(),
        r is Ok <==> extend_assigned(old(addressor).assigned(), maps_prefixes(rms@)).len() <= old(addressor).capacity(),
        r matches Err(e) ==> e == ExportError::NotEnoughAddresses,
        r matches Ok(s) ==> s@ == maps_block(rms@, *final(addressor))
            && final(addressor).assigned() == extend_assigned(old(addressor).assigned(), maps_prefixes(rms@)),
{
    let ghost a0 = *addressor;
    addressor.assigned_fits();
    let mut out = String::new();
    let mut i: usize = 0;
    assert(rms@.take(0) =~= Seq::<RouteMapSpec>::empty());
    assert(out@ =~= concat(Seq::new(0, |k: int| list_block(rms@[k], *addressor))));
    while i < rms.len()
        invariant
            0 <= i <= rms@.len(),
            a0 == *old(addressor),
            addressor.assigned().len() <= addressor.capacity(),
            maps_exportable(rms@),
            addressor.base() == a0.base(),
            addressor.prefix_len() == a0.prefix_len(),
            addressor.block() == a0.block(),
            addressor.capacity() == a0.capacity(),
            addressor.assigned().no_duplicates(),
            addressor.assigned() == extend_assigned(a0.assigned(), maps_prefixes(rms@.take(i as int))),
            out@ == concat(Seq::new(i as nat, |k: int| list_block(rms@[k], *addressor))),
        decreases rms@.len() - i,
    {
        let rm = &rms[i];
        let items = &rm.items;
        let ghost name = dir_name(rm.name@, rm.direction);
        let ghost outer = rms@.take(i as int);
        let mut j: usize = 0;
        assert(items@.take(0) =~= Seq::<RouteMap>::empty());
        assert(maps_prefixes(outer) + items_prefixes(items@.take(0)) =~= maps_prefixes(outer));
        assert(concat(Seq::new(0, |k: int| item_block(name, items@, k, *addressor))) =~= Seq::<char>::empty());
        assert(out@ =~= concat(Seq::new(i as nat, |k: int| list_block(rms@[k], *addressor)))
            + concat(Seq::new(0, |k: int| item_block(name, items@, k, *addressor))));
        while j < items.len()
            invariant
                0 <= i < rms@.len(),
                0 <= j <= items@.len(),
                rm == &rms@[i as int],
                items == &rm.items,
                name == dir_name(rm.name@, rm.direction),
                outer == rms@.take(i as int),
                a0 == *old(addressor),
                addressor.assigned().len() <= addressor.capacity(),
                maps_exportable(rms@),
                addressor.base() == a0.base(),
                addressor.prefix_len() == a0.prefix_len(),
                addressor.block() == a0.block(),
                addressor.capacity() == a0.capacity(),
                addressor.assigned().no_duplicates(),
                addressor.assigned() == extend_assigned(a0.assigned(),
                    maps_prefixes(outer) + items_prefixes(items@.take(j as int))),
                out@ == concat(Seq::new(i as nat, |k: int| list_block(rms@[k], *addressor)))
                    + concat(Seq::new(j as nat, |k: int| item_block(name, items@, k, *addressor))),
            decreases items@.len() - j,
        {
            let ghost cur = *addressor;
            assert(exportable(rms@[i as int].items@[j as int]));
            let t = item_config(addressor, rm, j);
            let t = match t {
                Ok(t) => t,
                Err(e) => {
                    proof {
                        lemma_map_fail(rms@, i as int, j as int, a0.assigned(), cur.assigned(), a0.capacity());
                    }
                    return Err(e);
                },
            };
            addressor.assigned_fits();
            proof {
                lemma_map_step(rms@, i as int, j as int, a0, cur, *addressor);
            }
            out.append(t.as_str());
            j = j + 1;
        }
        proof {
            assert(items@.take(items@.len() as int) =~= items@);
            let t1 = rms@.take(i + 1);
            assert(t1.drop_last() =~= outer);
            assert(t1.last() == rms@[i as int]);
            lemma_concat_new(i as nat, |k: int| list_block(rms@[k], *addressor));
        }
        i = i + 1;
    }
    assert(rms@.take(rms@.len() as int) =~= rms@);
    Ok(out)
}

/// The smallest OSPF area of the interfaces.
fn min_area_exec(ifaces: &[IfaceSpec]) -> (r: Option<u32>)
    ensures
        r == min_area(ifaces@),
{
    let mut m: Option<u32> = None;
    let mut i: usize = 0;
    assert(ifaces@.take(0) =~= Seq::<IfaceSpec>::empty());
    while i < ifaces.len()
        invariant
            i <= ifaces@.len(),
            m == min_area(ifaces@.take(i as int)),
        decreases ifaces@.len() - i,
    {
        assert(ifaces@.take(i + 1).drop_last() =~= ifaces@.take(i as int));
        assert(ifaces@.take(i + 1).last() == ifaces@[i as int]);
        match ifaces[i].ospf_area {
            None => {},
            Some(x) => {
                m = match m {
                    None => Some(x),
                    Some(y) => Some(if y < x { y } else { x }),
                };
            },
        }
        i = i + 1;
    }
    assert(ifaces@.take(ifaces@.len() as int) =~= ifaces@);
    m
}

impl CiscoCfgGen {
    /// The configuration of the interfaces of an internal router, in order. Fails with
    /// `NotEnoughInterfaces` if an interface index names no interface.
    pub fn ifaces_config(&self, ifaces: &[IfaceSpec]) -> (r: Result<String, ExportError>)
        ensures
            (forall|i: int| 0 <= i < ifaces@.len() ==> #[trigger] ifaces@[i].iface_idx < self.ifaces_spec().len())
                ==> (r matches Ok(s) && s@ == concat(Seq::new(ifaces@.len(), |i: int| iface_block(self.ifaces_spec(), ifaces@[i])))),
            !(forall|i: int| 0 <= i < ifaces@.len() ==> #[trigger] ifaces@[i].iface_idx < self.ifaces_spec().len())
                ==> r == Err::<String, ExportError>(ExportError::NotEnoughInterfaces(self.router_spec())),
    {
        let ghost names = self.ifaces_spec();
        let mut out = String::new();
        let mut i: usize = 0;
        assert(out@ =~= concat(Seq::new(0, |k: int| iface_block(names, ifaces@[k]))));
        while i < ifaces.len()
            invariant
                i <= ifaces@.len(),
                names == self.ifaces_spec(),
                forall|k: int| 0 <= k < i ==> #[trigger] ifaces@[k].iface_idx < names.len(),
                out@ == concat(Seq::new(i as nat, |k: int| iface_block(names, ifaces@[k]))),
            decreases ifaces@.len() - i,
        {
            let f = ifaces[i];
            let name = match self.iface(f.iface_idx) {
                Ok(n) => n,
                Err(e) => {
                    return Err(e);
                },
            };
            let cost = if f.ospf_area.is_some() { Some(f.weight) } else { None };
            let block = interface_cfg(name, f.ip, f.prefix_len, cost, f.ospf_area, f.weight < 65535);
            proof {
                lemma_concat_new(i as nat, |k: int| iface_block(names, ifaces@[k]));
            }
            out.append(block.as_str());
            i = i + 1;
        }
        Ok(out)
    }

    /// The configuration of the sessions of an internal router, in order. Fails with
    /// `NotEnoughInterfaces` if the interface index of an external neighbor names no interface.
    pub fn neighbors_config(&self, sessions: &[NeighborSpec]) -> (r: Result<String, ExportError>)
        ensures
            (forall|i: int| 0 <= i < sessions@.len() ==> (#[trigger] sessions@[i].external matches Some((_, k))
                ==> k < self.ifaces_spec().len())) ==> (r matches Ok(s)
                && s@ == concat(Seq::new(sessions@.len(), |i: int| neighbor_block(self.ifaces_spec(), sessions@[i])))),
            !(forall|i: int| 0 <= i < sessions@.len() ==> (#[trigger] sessions@[i].external matches Some((_, k))
                ==> k < self.ifaces_spec().len()))
                ==> r == Err::<String, ExportError>(ExportError::NotEnoughInterfaces(self.router_spec())),
    {
        let ghost names = self.ifaces_spec();
        let mut out = String::new();
        let mut i: usize = 0;
        assert(out@ =~= concat(Seq::new(0, |k: int| neighbor_block(names, sessions@[k]))));
        while i < sessions.len()
            invariant
                i <= sessions@.len(),
                names == self.ifaces_spec(),
                forall|k: int| 0 <= k < i ==> (#[trigger] sessions@[k].external matches Some((_, x)) ==> x < names.len()),
                out@ == concat(Seq::new(i as nat, |k: int| neighbor_block(names, sessions@[k]))),
            decreases sessions@.len() - i,
        {
            let n = &sessions[i];
            let (remote_as, source): (AsId, &str) = match n.external {
                Some((as_id, idx)) => {
                    match self.iface(idx) {
                        Ok(name) => (as_id, name),
                        Err(e) => {
                            return Err(e);
                        },
                    }
                },
                None => (AsId(INTERNAL_AS), "Loopback0"),
            };
            let mut block = String::new();
            block.append("!\n! neighbor ");
            block.append(n.name.as_str());
            block.append("\n");
            let cfg = bgp_cfg_neighbor(AsId(INTERNAL_AS), n.address, remote_as, source, n.rm_name.as_str(), n.session_type);
            block.append(cfg.as_str());
            proof {
                assert(block@ =~= neighbor_block(names, sessions@[i as int]));
                lemma_concat_new(i as nat, |k: int| neighbor_block(names, sessions@[k]));
            }
            out.append(block.as_str());
            i = i + 1;
        }
        Ok(out)
    }

    /// The complete configuration of an internal router with id `router_id`: its interfaces (in
    /// order), `Loopback0` with address `loopback`, OSPF, BGP advertising `internal_net`, the
    /// sessions (in order) and the route-maps (in order), each item continuing at the next one.
    /// Fails with `NotEnoughInterfaces` if an interface index names no interface, and otherwise
    /// with `NotEnoughAddresses` if the prefixes of the route-maps do not fit the addressor.
    pub fn internal_config(
        &self,
        router_id: u32,
        ifaces: &[IfaceSpec],
        loopback: (u32, u8),
        internal_net: (u32, u8),
        sessions: &[NeighborSpec],
        route_maps: &[RouteMapSpec],
        addressor: &mut PrefixAddressor,
    ) -> (r: Result<String, ExportError>)
        requires
            maps_exportable(route_maps@),
        ensures
            final(addressor).base() == old(addressor).base(),
            final(addressor).prefix_len() == old(addressor).prefix_len(),
            final(addressor).block() == old(addressor).block(),
            final(addressor).capacity() == old(addressor).capacity(),
            !ifaces_exist(self.ifaces_spec().len(), ifaces@, sessions@)
                ==> r == Err::<String, ExportError>(ExportError::NotEnoughInterfaces(self.router_spec()))
                && *final(addressor) == *old(addressor),
            ifaces_exist(self.ifaces_spec().len(), ifaces@, sessions@) ==> (r is Ok
                <==> extend_assigned(old(addressor).assigned(), maps_prefixes(route_maps@)).len() <= old(addressor).capacity()),
            ifaces_exist(self.ifaces_spec().len(), ifaces@, sessions@) && r is Err
                ==> r == Err::<String, ExportError>(ExportError::NotEnoughAddresses),
            r matches Ok(s) ==> s@ == internal_text(self.ifaces_spec(), router_id, ifaces@, loopback, internal_net,
                sessions@, route_maps@, *final(addressor))
                && final(addressor).assigned() == extend_assigned(old(addressor).assigned(), maps_prefixes(route_maps@)),
    {
        let if_cfg = match self.ifaces_config(ifaces) {
            Ok(s) => s,
            Err(e) => {
                return Err(e);
            },
        };
        let nb_cfg = match self.neighbors_config(sessions) {
            Ok(s) => s,
            Err(e) => {
                return Err(e);
            },
        };
        let rm_cfg = match maps_config(addressor, route_maps) {
            Ok(s) => s,
            Err(e) => {
                return Err(e);
            },
        };
        let area = min_area_exec(ifaces);
        let lo_cost: Option<LinkWeight> = match area {
            Some(_) => Some(1),
            None => None,
        };
        let mut out = String::new();
        out.append("!\nfeature bgp\nfeature ospf\n!\n! Interfaces\n");
        out.append(if_cfg.as_str());
        let lo = interface_cfg("Loopback0", loopback.0, loopback.1, lo_cost, area, true);
        out.append(lo.as_str());
        out.append("!\n! OSPF\n");
        let ospf = ospf_cfg(router_id);
        out.append(ospf.as_str());
        out.append("!\n! BGP\n");
        let nets = [internal_net];
        let bgp = bgp_cfg(router_id, AsId(INTERNAL_AS), &nets);
        out.append(bgp.as_str());
        out.append(nb_cfg.as_str());
        out.append("!\n! Route-Maps\n");
        out.append(rm_cfg.as_str());
        proof {
            assert(nets@ =~= seq![internal_net]);
        }
        assert(out@ =~= internal_text(self.ifaces_spec(), router_id, ifaces@, loopback, internal_net, sessions@,
            route_maps@, *addressor));
        Ok(out)
    }
}

/// A BGP session of an external router, in the order in which it is configured.
#[derive(Debug)]
pub struct ExtNeighborSpec {
    /// Name of the neighbor, written in a comment.
    pub name: String,
    /// Address of the neighbor.
    pub address: u32,
    /// Index of the interface towards the neighbor.
    pub iface_idx: usize,
}

/// The configuration of an interface of an external router, which takes no part in OSPF.
pub open spec fn ext_iface_block(names: Seq<Seq<char>>, f: IfaceSpec) -> Seq<char> {
    interface_text(names[f.iface_idx as int], f.ip, f.prefix_len, None, None, true)
}

/// The configuration of a session of an external router in AS `as_id`.
pub open spec fn ext_neighbor_block(names: Seq<Seq<char>>, as_id: AsId, n: ExtNeighborSpec) -> Seq<char> {
    "!\n! neighbor "@ + n.name@ + "\n"@ + neighbor_text(as_id, n.address, AsId(INTERNAL_AS), names[n.iface_idx as int],
        "neighbor"@, BgpSessionType::EBgp)
}

/// The loopbacks without the one that carries prefix `p`, if any.
pub open spec fn cleared(m: Map<u8, u32>, p: u32) -> Map<u8, u32> {
    if has_right(m, p) {
        m.remove(loopback_of(m, p))
    } else {
        m
    }
}

/// The loopbacks after advertising the routes in order: each prefix moves to the smallest free
/// loopback.
pub open spec fn adv_loopbacks(m: Map<u8, u32>, routes: Seq<BgpRoute>) -> Map<u8, u32>
    decreases routes.len(),
{
    if routes.len() == 0 {
        m
    } else {
        let m1 = cleared(adv_loopbacks(m, routes.drop_last()), routes.last().prefix.0);
        m1.insert(first_free(m1)->0, routes.last().prefix.0)
    }
}

/// The loopbacks from which route `k` is advertised may be chosen: those left after the routes
/// before it, without the prefix of route `k`.
pub open spec fn adv_free(m: Map<u8, u32>, routes: Seq<BgpRoute>, k: int) -> Map<u8, u32> {
    cleared(adv_loopbacks(m, routes.take(k)), routes[k].prefix.0)
}

/// The prefixes of the routes.
pub open spec fn route_prefixes(routes: Seq<BgpRoute>) -> Seq<Prefix> {
    routes.map_values(|r: BgpRoute| r.prefix)
}

/// The network of `p` when the addressor `a` has assigned the prefixes `l`.
pub open spec fn net_in(a: PrefixAddressor, l: Seq<Prefix>, p: Prefix) -> u32 {
    (a.base() + l.index_of(p) * a.block()) as u32
}

/// The networks of the routes after requesting them all from `a`.
pub open spec fn adv_net(a: PrefixAddressor, routes: Seq<BgpRoute>, k: int) -> u32 {
    net_in(a, extend_assigned(a.assigned(), route_prefixes(routes)), routes[k].prefix)
}

/// Every route can be advertised: the networks fit the addressor, a loopback is free and the
/// network has a host address.
pub open spec fn adverts_fit(m: Map<u8, u32>, routes: Seq<BgpRoute>, a: PrefixAddressor) -> bool {
    &&& extend_assigned(a.assigned(), route_prefixes(routes)).len() <= a.capacity()
    &&& forall|k: int| 0 <= k < routes.len() ==> (#[trigger] first_free(adv_free(m, routes, k))) is Some
        && first_host(adv_net(a, routes, k), a.prefix_len()) is Some
}

/// The advertisement of route `k`.
pub open spec fn advert_block(as_id: AsId, m: Map<u8, u32>, routes: Seq<BgpRoute>, a: PrefixAddressor, k: int)
    -> Seq<char>
{
    advertise_text(as_id.0, adv_net(a, routes, k), a.prefix_len(), first_free(adv_free(m, routes, k))->0,
        first_host(adv_net(a, routes, k), a.prefix_len())->0, routes[k].as_path@)
}

/// The configuration of an external router in AS `as_id`: its interfaces (in order) and
/// `Loopback0`, BGP advertising `router_net`, the sessions (in order), and an advertisement for
/// each route (in order), starting from the loopbacks `m` and the addressor `a`.
pub open spec fn external_text(
    names: Seq<Seq<char>>,
    router_id: u32,
    as_id: AsId,
    ifaces: Seq<IfaceSpec>,
    loopback: (u32, u8),
    router_net: (u32, u8),
    neighbors: Seq<ExtNeighborSpec>,
    routes: Seq<BgpRoute>,
    m: Map<u8, u32>,
    a: PrefixAddressor,
) -> Seq<char> {
    "!\nfeature bgp\n!\n! Interfaces\n"@
        + concat(Seq::new(ifaces.len(), |i: int| ext_iface_block(names, ifaces[i])))
        + interface_text("Loopback0"@, loopback.0, loopback.1, None, None, true)
        + "!\n! BGP\n"@ + bgp_text(router_id, as_id, seq![router_net])
        + concat(Seq::new(neighbors.len(), |i: int| ext_neighbor_block(names, as_id, neighbors[i])))
        + "!\n! Create external advertisements\n"@
        + concat(Seq::new(routes.len(), |k: int| advert_block(as_id, m, routes, a, k)))
}

/// Every interface index of an external router names an interface.
pub open spec fn ext_ifaces_exist(n: nat, ifaces: Seq<IfaceSpec>, neighbors: Seq<ExtNeighborSpec>) -> bool {
    &&& forall|i: int| 0 <= i < ifaces.len() ==> #[trigger] ifaces[i].iface_idx < n
    &&& forall|i: int| 0 <= i < neighbors.len() ==> #[trigger] neighbors[i].iface_idx < n
}

/// Requesting networks from a list without repetitions gives a list without repetitions.
pub proof fn lemma_extend_no_dup(a: Seq<Prefix>, ps: Seq<Prefix>)
    requires
        a.no_duplicates(),
    ensures
        extend_assigned(a, ps).no_duplicates(),
    decreases ps.len(),
{
    if ps.len() > 0 {
        lemma_extend_no_dup(a, ps.drop_last());
        let e = extend_assigned(a, ps.drop_last());
        if !e.contains(ps.last()) {
            assert forall|x: int, y: int| 0 <= x < y < e.push(ps.last()).len()
                implies e.push(ps.last())[x] != e.push(ps.last())[y] by {
                if y == e.len() {
                    assert(e.push(ps.last())[x] == e[x]);
                }
            }
        }
    }
}

/// The prefixes of the first `k` routes and the prefix of route `k` are those of the first
/// `k + 1` routes, and they begin the prefixes of all routes.
proof fn lemma_route_prefixes_take(routes: Seq<BgpRoute>, k: int)
    requires
        0 <= k < routes.len(),
    ensures
        route_prefixes(routes.take(k + 1)) == route_prefixes(routes.take(k)) + seq![routes[k].prefix],
        is_prefix_of(route_prefixes(routes.take(k + 1)), route_prefixes(routes)),
        route_prefixes(routes.take(k + 1)).len() == k + 1,
{
    assert(route_prefixes(routes.take(k + 1)) =~= route_prefixes(routes.take(k)) + seq![routes[k].prefix]);
    assert(route_prefixes(routes).take(k + 1) =~= route_prefixes(routes.take(k + 1)));
}

/// The network that the addressor `cur` gives route `k`, once it has requested the networks
/// of the first `k + 1` routes, is the one of `adv_net`.
proof fn lemma_adv_net(a0: PrefixAddressor, cur: PrefixAddressor, routes: Seq<BgpRoute>, k: int)
    requires
        0 <= k < routes.len(),
        a0.assigned().no_duplicates(),
        cur.base() == a0.base(),
        cur.block() == a0.block(),
        cur.assigned() == extend_assigned(a0.assigned(), route_prefixes(routes.take(k + 1))),
    ensures
        network_of(cur, routes[k].prefix) == adv_net(a0, routes, k),
{
    lemma_route_prefixes_take(routes, k);
    let x = route_prefixes(routes.take(k + 1));
    let y = route_prefixes(routes);
    let z = y.skip(x.len() as int);
    assert(x + z =~= y);
    lemma_extend_concat(a0.assigned(), x, z);
    lemma_extend_assigned(cur.assigned(), z);
    lemma_extend_assigned(a0.assigned(), x);
    assert(x[k] == routes[k].prefix);
    lemma_extend_no_dup(a0.assigned(), y);
    lemma_index_stable(cur.assigned(), extend_assigned(a0.assigned(), y), routes[k].prefix);
}

/// The loopbacks after one more route.
proof fn lemma_adv_loopbacks_step(m: Map<u8, u32>, routes: Seq<BgpRoute>, k: int)
    requires
        0 <= k < routes.len(),
    ensures
        adv_loopbacks(m, routes.take(k + 1)) == adv_free(m, routes, k).insert(
            first_free(adv_free(m, routes, k))->0, routes[k].prefix.0),
{
    assert(routes.take(k + 1).drop_last() =~= routes.take(k));
    assert(routes.take(k + 1).last() == routes[k]);
}

/// If the network of route `k` does not fit after the routes before it, not all routes fit.
proof fn lemma_adv_addr_fail(a0: PrefixAddressor, cur: Seq<Prefix>, routes: Seq<BgpRoute>, k: int)
    requires
        0 <= k < routes.len(),
        cur == extend_assigned(a0.assigned(), route_prefixes(routes.take(k))),
        !cur.contains(routes[k].prefix),
        cur.len() >= a0.capacity(),
    ensures
        extend_assigned(a0.assigned(), route_prefixes(routes)).len() > a0.capacity(),
{
    lemma_route_prefixes_take(routes, k);
    lemma_extend_concat(a0.assigned(), route_prefixes(routes.take(k)), seq![routes[k].prefix]);
    let one = seq![routes[k].prefix];
    assert(one.drop_last() =~= Seq::<Prefix>::empty());
    assert(extend_assigned(cur, one) == extend_assigned(cur, Seq::<Prefix>::empty()).push(routes[k].prefix));
    lemma_extend_prefix_len(a0.assigned(), route_prefixes(routes.take(k + 1)), route_prefixes(routes));
}

impl CiscoCfgGen {
    /// The advertisements of the routes, in order, from the smallest free loopbacks. Fails with
    /// `NotEnoughLoopbacks` or `NotEnoughAddresses` where a route cannot be advertised.
    #[verifier::rlimit(60)]
    pub fn adverts_config(&mut self, as_id: AsId, routes: &[BgpRoute], addressor: &mut PrefixAddressor)
        -> (r: Result<String, ExportError>)
        ensures
            final(self).router_spec() == old(self).router_spec(),
            final(self).ifaces_spec() == old(self).ifaces_spec(),
            final(addressor).base() == old(addressor).base(),
            final(addressor).prefix_len() == old(addressor).prefix_len(),
            final(addressor).block() == old(addressor).block(),
            final(addressor).capacity() == old(addressor).capacity(),
            r is Ok <==> adverts_fit(old(self).loopbacks(), routes@, *old(addressor)),
            r matches Err(e) ==> e == ExportError::NotEnoughAddresses
                || e == ExportError::NotEnoughLoopbacks(old(self).router_spec()),
            r matches Ok(s) ==> s@ == concat(Seq::new(routes@.len(),
                |k: int| advert_block(as_id, old(self).loopbacks(), routes@, *old(addressor), k)))
                && final(self).loopbacks() == adv_loopbacks(old(self).loopbacks(), routes@)
                && final(addressor).assigned() == extend_assigned(old(addressor).assigned(), route_prefixes(routes@)),
    {
        let ghost m0 = self.loopbacks();
        let ghost a0 = *addressor;
        addressor.assigned_fits();
        let mut out = String::new();
        let mut k: usize = 0;
        assert(routes@.take(0) =~= Seq::<BgpRoute>::empty());
        assert(route_prefixes(routes@.take(0)) =~= Seq::<Prefix>::empty());
        assert(out@ =~= concat(Seq::new(0, |i: int| advert_block(as_id, m0, routes@, a0, i))));
        while k < routes.len()
            invariant
                k <= routes@.len(),
                m0 == old(self).loopbacks(),
                a0 == *old(addressor),
                a0.assigned().no_duplicates(),
                self.router_spec() == old(self).router_spec(),
                self.ifaces_spec() == old(self).ifaces_spec(),
                addressor.base() == a0.base(),
                addressor.prefix_len() == a0.prefix_len(),
                addressor.block() == a0.block(),
                addressor.capacity() == a0.capacity(),
                self.loopbacks() == adv_loopbacks(m0, routes@.take(k as int)),
                addressor.assigned() == extend_assigned(a0.assigned(), route_prefixes(routes@.take(k as int))),
                forall|i: int| 0 <= i < k ==> (#[trigger] first_free(adv_free(m0, routes@, i))) is Some
                    && first_host(adv_net(a0, routes@, i), a0.prefix_len()) is Some,
                out@ == concat(Seq::new(k as nat, |i: int| advert_block(as_id, m0, routes@, a0, i))),
            decreases routes@.len() - k,
        {
            let ghost cur = *addressor;
            let ghost mk = self.loopbacks();
            let ghost p = routes@[k as int].prefix;
            proof {
                assert(adv_free(m0, routes@, k as int) == cleared(mk, p.0));
                lemma_route_prefixes_take(routes@, k as int);
                lemma_extend_concat(a0.assigned(), route_prefixes(routes@.take(k as int)), seq![p]);
                let one = seq![p];
                assert(one.drop_last() =~= Seq::<Prefix>::empty());
                assert(one.last() == p);
                assert(extend_assigned(cur.assigned(), Seq::<Prefix>::empty()) == cur.assigned());
                assert(extend_assigned(cur.assigned(), one) == if cur.assigned().contains(p) {
                    cur.assigned()
                } else {
                    cur.assigned().push(p)
                });
                assert(cur.assigned().push(p)[cur.assigned().len() as int] == p);
            }
            let t = self.advertise_route(as_id, addressor, &routes[k]);
            proof {
                lemma_adv_loopbacks_step(m0, routes@, k as int);
            }
            let t = match t {
                Ok(t) => t,
                Err(e) => {
                    proof {
                        let m1 = cleared(mk, p.0);
                        if first_free(m1) is Some && addressor.assigned().contains(p) {
                            assert(addressor.assigned() == extend_assigned(a0.assigned(), route_prefixes(routes@.take(k + 1))));
                            lemma_adv_net(a0, *addressor, routes@, k as int);
                            assert(!(first_host(adv_net(a0, routes@, k as int), a0.prefix_len()) is Some));
                        } else if first_free(m1) is Some {
                            lemma_adv_addr_fail(a0, cur.assigned(), routes@, k as int);
                        }
                        assert(!adverts_fit(m0, routes@, a0)) by {
                            if adverts_fit(m0, routes@, a0) {
                                assert(first_free(adv_free(m0, routes@, k as int)) is Some);
                            }
                        }
                    }
                    return Err(e);
                },
            };
            proof {
                assert(addressor.assigned() == extend_assigned(a0.assigned(), route_prefixes(routes@.take(k + 1))));
                lemma_adv_net(a0, *addressor, routes@, k as int);
                lemma_concat_new(k as nat, |i: int| advert_block(as_id, m0, routes@, a0, i));
            }
            out.append(t.as_str());
            k = k + 1;
        }
        addressor.assigned_fits();
        proof {
            assert(routes@.take(routes@.len() as int) =~= routes@);
        }
        Ok(out)
    }
}

impl CiscoCfgGen {
    /// The configuration of the interfaces of an external router, in order. Fails with
    /// `NotEnoughInterfaces` if an interface index names no interface.
    pub fn ext_ifaces_config(&self, ifaces: &[IfaceSpec]) -> (r: Result<String, ExportError>)
        ensures
            (forall|i: int| 0 <= i < ifaces@.len() ==> #[trigger] ifaces@[i].iface_idx < self.ifaces_spec().len())
                ==> (r matches Ok(s) && s@ == concat(Seq::new(ifaces@.len(), |i: int| ext_iface_block(self.ifaces_spec(), ifaces@[i])))),
            !(forall|i: int| 0 <= i < ifaces@.len() ==> #[trigger] ifaces@[i].iface_idx < self.ifaces_spec().len())
                ==> r == Err::<String, ExportError>(ExportError::NotEnoughInterfaces(self.router_spec())),
    {
        let ghost names = self.ifaces_spec();
        let mut out = String::new();
        let mut i: usize = 0;
        assert(out@ =~= concat(Seq::new(0, |k: int| ext_iface_block(names, ifaces@[k]))));
        while i < ifaces.len()
            invariant
                i <= ifaces@.len(),
                names == self.ifaces_spec(),
                forall|k: int| 0 <= k < i ==> #[trigger] ifaces@[k].iface_idx < names.len(),
                out@ == concat(Seq::new(i as nat, |k: int| ext_iface_block(names, ifaces@[k]))),
            decreases ifaces@.len() - i,
        {
            let f = ifaces[i];
            let name = match self.iface(f.iface_idx) {
                Ok(n) => n,
                Err(e) => {
                    return Err(e);
                },
            };
            let block = interface_cfg(name, f.ip, f.prefix_len, None, None, true);
            proof {
                lemma_concat_new(i as nat, |k: int| ext_iface_block(names, ifaces@[k]));
            }
            out.append(block.as_str());
            i = i + 1;
        }
        Ok(out)
    }

    /// The configuration of the sessions of an external router in AS `as_id`, in order. Fails
    /// with `NotEnoughInterfaces` if an interface index names no interface.
    pub fn ext_neighbors_config(&self, as_id: AsId, neighbors: &[ExtNeighborSpec]) -> (r: Result<String, ExportError>)
        ensures
            (forall|i: int| 0 <= i < neighbors@.len() ==> #[trigger] neighbors@[i].iface_idx < self.ifaces_spec().len())
                ==> (r matches Ok(s) && s@ == concat(Seq::new(neighbors@.len(),
                    |i: int| ext_neighbor_block(self.ifaces_spec(), as_id, neighbors@[i])))),
            !(forall|i: int| 0 <= i < neighbors@.len() ==> #[trigger] neighbors@[i].iface_idx < self.ifaces_spec().len())
                ==> r == Err::<String, ExportError>(ExportError::NotEnoughInterfaces(self.router_spec())),
    {
        let ghost names = self.ifaces_spec();
        let mut out = String::new();
        let mut i: usize = 0;
        assert(out@ =~= concat(Seq::new(0, |k: int| ext_neighbor_block(names, as_id, neighbors@[k]))));
        while i < neighbors.len()
            invariant
                i <= neighbors@.len(),
                names == self.ifaces_spec(),
                forall|k: int| 0 <= k < i ==> #[trigger] neighbors@[k].iface_idx < names.len(),
                out@ == concat(Seq::new(i as nat, |k: int| ext_neighbor_block(names, as_id, neighbors@[k]))),
            decreases neighbors@.len() - i,
        {
            let n = &neighbors[i];
            let source = match self.iface(n.iface_idx) {
                Ok(name) => name,
                Err(e) => {
                    return Err(e);
                },
            };
            let mut block = String::new();
            block.append("!\n! neighbor ");
            block.append(n.name.as_str());
            block.append("\n");
            let cfg = bgp_cfg_neighbor(as_id, n.address, AsId(INTERNAL_AS), source, "neighbor", BgpSessionType::EBgp);
            block.append(cfg.as_str());
            proof {
                assert(block@ =~= ext_neighbor_block(names, as_id, neighbors@[i as int]));
                lemma_concat_new(i as nat, |k: int| ext_neighbor_block(names, as_id, neighbors@[k]));
            }
            out.append(block.as_str());
            i = i + 1;
        }
        Ok(out)
    }

    /// The complete configuration of an external router with id `router_id` in AS `as_id`: its
    /// interfaces (in order), `Loopback0` with address `loopback`, BGP advertising `router_net`,
    /// the sessions (in order), and the advertisement of each route (in order). Fails with
    /// `NotEnoughInterfaces` if an interface index names no interface, and otherwise with
    /// `NotEnoughLoopbacks` or `NotEnoughAddresses` if a route cannot be advertised.
    pub fn external_config(
        &mut self,
        router_id: u32,
        as_id: AsId,
        ifaces: &[IfaceSpec],
        loopback: (u32, u8),
        router_net: (u32, u8),
        neighbors: &[ExtNeighborSpec],
        routes: &[BgpRoute],
        addressor: &mut PrefixAddressor,
    ) -> (r: Result<String, ExportError>)
        ensures
            final(self).router_spec() == old(self).router_spec(),
            final(self).ifaces_spec() == old(self).ifaces_spec(),
            final(addressor).base() == old(addressor).base(),
            final(addressor).prefix_len() == old(addressor).prefix_len(),
            final(addressor).block() == old(addressor).block(),
            final(addressor).capacity() == old(addressor).capacity(),
            !ext_ifaces_exist(old(self).ifaces_spec().len(), ifaces@, neighbors@)
                ==> r == Err::<String, ExportError>(ExportError::NotEnoughInterfaces(old(self).router_spec()))
                && final(self).loopbacks() == old(self).loopbacks() && *final(addressor) == *old(addressor),
            ext_ifaces_exist(old(self).ifaces_spec().len(), ifaces@, neighbors@)
                ==> (r is Ok <==> adverts_fit(old(self).loopbacks(), routes@, *old(addressor))),
            ext_ifaces_exist(old(self).ifaces_spec().len(), ifaces@, neighbors@) ==> (r matches Err(e)
                ==> e == ExportError::NotEnoughAddresses || e == ExportError::NotEnoughLoopbacks(old(self).router_spec())),
            r matches Ok(s) ==> s@ == external_text(old(self).ifaces_spec(), router_id, as_id, ifaces@, loopback,
                router_net, neighbors@, routes@, old(self).loopbacks(), *old(addressor))
                && final(self).loopbacks() == adv_loopbacks(old(self).loopbacks(), routes@)
                && final(addressor).assigned() == extend_assigned(old(addressor).assigned(), route_prefixes(routes@)),
    {
        let if_cfg = match self.ext_ifaces_config(ifaces) {
            Ok(s) => s,
            Err(e) => {
                return Err(e);
            },
        };
        let nb_cfg = match self.ext_neighbors_config(as_id, neighbors) {
            Ok(s) => s,
            Err(e) => {
                return Err(e);
            },
        };
        let ghost names = self.ifaces_spec();
        let ghost m0 = self.loopbacks();
        let ghost a0 = *addressor;
        let adv = match self.adverts_config(as_id, routes, addressor) {
            Ok(s) => s,
            Err(e) => {
                return Err(e);
            },
        };
        let mut out = String::new();
        out.append("!\nfeature bgp\n!\n! Interfaces\n");
        out.append(if_cfg.as_str());
        let lo = interface_cfg("Loopback0", loopback.0, loopback.1, None, None, true);
        out.append(lo.as_str());
        out.append("!\n! BGP\n");
        let nets = [router_net];
        let bgp = bgp_cfg(router_id, as_id, &nets);
        out.append(bgp.as_str());
        out.append(nb_cfg.as_str());
        out.append("!\n! Create external advertisements\n");
        out.append(adv.as_str());
        proof {
            assert(nets@ =~= seq![router_net]);
        }
        assert(out@ =~= external_text(names, router_id, as_id, ifaces@, loopback, router_net, neighbors@, routes@, m0, a0));
        Ok(out)
    }
}

/// The smallest OSPF area is the area of some interface and no larger than any interface's area;
/// there is none exactly when no interface takes part in OSPF.
proof fn lemma_min_area(fs: Seq<IfaceSpec>)
    ensures
        min_area(fs) is None <==> (forall|i: int| 0 <= i < fs.len() ==> (#[trigger] fs[i]).ospf_area is None),
        min_area(fs) matches Some(m) ==> (exists|i: int| 0 <= i < fs.len() && (#[trigger] fs[i]).ospf_area == Some(m)),
        min_area(fs) matches Some(m) ==> (forall|i: int| 0 <= i < fs.len() && (#[trigger] fs[i]).ospf_area is Some
            ==> m <= fs[i].ospf_area->0),
    decreases fs.len(),
{
    if fs.len() > 0 {
        let d = fs.drop_last();
        lemma_min_area(d);
        let l = fs.len() - 1;
        assert(fs.last() == fs[l]);
        assert forall|i: int| 0 <= i < d.len() implies #[trigger] d[i] == fs[i] by {}
        if min_area(fs) is None {
            assert forall|i: int| 0 <= i < fs.len() implies (#[trigger] fs[i]).ospf_area is None by {
                if i < l {
                    assert(d[i] == fs[i]);
                }
            }
        }
        match min_area(fs) {
            Some(m) => {
                assert forall|i: int| 0 <= i < fs.len() && (#[trigger] fs[i]).ospf_area is Some
                    implies m <= fs[i].ospf_area->0 by {
                    if i < l {
                        assert(d[i] == fs[i]);
                    }
                }
                match min_area(d) {
                    Some(y) => {
                        let w = choose|i: int| 0 <= i < d.len() && (#[trigger] d[i]).ospf_area == Some(y);
                        assert(fs[w].ospf_area == Some(y));
                    },
                    None => {},
                }
            },
            None => {},
        }
    }
}

/// `Loopback0` of an internal router is configured right after the interfaces.
proof fn lemma_internal_loopback(
    names: Seq<Seq<char>>,
    router_id: u32,
    ifaces: Seq<IfaceSpec>,
    loopback: (u32, u8),
    internal_net: (u32, u8),
    sessions: Seq<NeighborSpec>,
    rms: Seq<RouteMapSpec>,
    a: PrefixAddressor,
)
    ensures
        is_infix(interface_text("Loopback0"@, loopback.0, loopback.1,
            match min_area(ifaces) { Some(_) => Some(1u64), None => None }, min_area(ifaces), true),
            internal_text(names, router_id, ifaces, loopback, internal_net, sessions, rms, a)),
{
    let lo = interface_text("Loopback0"@, loopback.0, loopback.1,
        match min_area(ifaces) { Some(_) => Some(1u64), None => None }, min_area(ifaces), true);
    let x = "!\nfeature bgp\nfeature ospf\n!\n! Interfaces\n"@
        + concat(Seq::new(ifaces.len(), |i: int| iface_block(names, ifaces[i])));
    let z = "!\n! OSPF\n"@ + ospf_text(router_id) + "!\n! BGP\n"@
        + bgp_text(router_id, AsId(INTERNAL_AS), seq![internal_net])
        + concat(Seq::new(sessions.len(), |i: int| neighbor_block(names, sessions[i])))
        + "!\n! Route-Maps\n"@ + maps_block(rms, a);
    assert(internal_text(names, router_id, ifaces, loopback, internal_net, sessions, rms, a) =~= x + lo + z);
    lemma_infix_mid(x, lo, z);
}

/// `Loopback0` of an internal router takes part in OSPF, with cost 1, in the lowest area of its
/// interfaces: an area that some interface has and that no interface's area is below. Without
/// OSPF interfaces, it takes no part in OSPF.
pub proof fn law_loopback_in_lowest_area(
    names: Seq<Seq<char>>,
    router_id: u32,
    ifaces: Seq<IfaceSpec>,
    loopback: (u32, u8),
    internal_net: (u32, u8),
    sessions: Seq<NeighborSpec>,
    rms: Seq<RouteMapSpec>,
    a: PrefixAddressor,
)
    ensures
        (exists|i: int| 0 <= i < ifaces.len() && (#[trigger] ifaces[i]).ospf_area is Some) ==> exists|m: u32| {
            &&& (exists|i: int| 0 <= i < ifaces.len() && (#[trigger] ifaces[i]).ospf_area == Some(m))
            &&& (forall|i: int| 0 <= i < ifaces.len() && (#[trigger] ifaces[i]).ospf_area is Some ==> m <= ifaces[i].ospf_area->0)
            &&& is_infix(interface_text("Loopback0"@, loopback.0, loopback.1, Some(1u64), Some(m), true),
                internal_text(names, router_id, ifaces, loopback, internal_net, sessions, rms, a))
        },
        (forall|i: int| 0 <= i < ifaces.len() ==> (#[trigger] ifaces[i]).ospf_area is None) ==> is_infix(
            interface_text("Loopback0"@, loopback.0, loopback.1, None, None, true),
            internal_text(names, router_id, ifaces, loopback, internal_net, sessions, rms, a)),
{
    lemma_min_area(ifaces);
    lemma_internal_loopback(names, router_id, ifaces, loopback, internal_net, sessions, rms, a);
    if exists|i: int| 0 <= i < ifaces.len() && (#[trigger] ifaces[i]).ospf_area is Some {
        let i = choose|i: int| 0 <= i < ifaces.len() && (#[trigger] ifaces[i]).ospf_area is Some;
        assert(ifaces[i].ospf_area is Some);
        let m = min_area(ifaces)->0;
        assert(exists|i: int| 0 <= i < ifaces.len() && (#[trigger] ifaces[i]).ospf_area == Some(m));
    }
}

/// Every session of an internal router is configured with the AS of the neighbor: its own AS
/// for a neighbor in another AS, the internal AS otherwise.
pub proof fn law_internal_session_as(
    names: Seq<Seq<char>>,
    router_id: u32,
    ifaces: Seq<IfaceSpec>,
    loopback: (u32, u8),
    internal_net: (u32, u8),
    sessions: Seq<NeighborSpec>,
    rms: Seq<RouteMapSpec>,
    a: PrefixAddressor,
    i: int,
)
    requires
        0 <= i < sessions.len(),
    ensures
        is_infix("\n  neighbor "@ + crate::text::ipv4_str(sessions[i].address) + " remote-as "@
            + crate::text::nat_str((match sessions[i].external { Some((x, _)) => x.0, None => INTERNAL_AS }) as nat) + "\n"@,
            internal_text(names, router_id, ifaces, loopback, internal_net, sessions, rms, a)),
{
    let n = sessions[i];
    let nt = neighbor_text(AsId(INTERNAL_AS), n.address, remote_as_of(n), source_iface(names, n), n.rm_name@, n.session_type);
    law_neighbor_remote_as(AsId(INTERNAL_AS), n.address, remote_as_of(n), source_iface(names, n), n.rm_name@, n.session_type);
    let line = "\n  neighbor "@ + crate::text::ipv4_str(n.address) + " remote-as "@
        + crate::text::nat_str(remote_as_of(n).0 as nat) + "\n"@;
    let block = neighbor_block(names, n);
    let pre = "!\n! neighbor "@ + n.name@ + "\n"@;
    assert(block =~= pre + nt + Seq::<char>::empty());
    lemma_infix_extend(line, nt, pre, Seq::empty());
    let parts = Seq::new(sessions.len(), |j: int| neighbor_block(names, sessions[j]));
    lemma_concat_part(parts, i);
    lemma_infix_trans(line, block, concat(parts));
    let x = "!\nfeature bgp\nfeature ospf\n!\n! Interfaces\n"@
        + concat(Seq::new(ifaces.len(), |j: int| iface_block(names, ifaces[j])))
        + interface_text("Loopback0"@, loopback.0, loopback.1,
            match min_area(ifaces) { Some(_) => Some(1u64), None => None }, min_area(ifaces), true)
        + "!\n! OSPF\n"@ + ospf_text(router_id) + "!\n! BGP\n"@
        + bgp_text(router_id, AsId(INTERNAL_AS), seq![internal_net]);
    let z = "!\n! Route-Maps\n"@ + maps_block(rms, a);
    assert(internal_text(names, router_id, ifaces, loopback, internal_net, sessions, rms, a) =~= x + concat(parts) + z);
    lemma_infix_extend(line, concat(parts), x, z);
}

} // verus!
