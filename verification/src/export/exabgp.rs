//! Text for [ExaBGP](https://github.com/Exa-Networks/exabgp): the announcement of a route and the
//! session with a neighbor.

use vstd::prelude::*;

use crate::assoc::{assoc_map, keys_distinct, lemma_assoc_index, lemma_assoc_insert, lemma_assoc_update};
use crate::bgp::{BgpRoute, BgpRouteView};
use crate::external_router::ExternalRouter;
use crate::types::RouterId;
use crate::export::cisco::{extend_assigned, nets_of};
use crate::export::cisco_config::{
    all_assigned, extends, is_prefix_of, lemma_concat_new, lemma_extend_assigned, lemma_extend_concat,
    lemma_extend_no_dup, lemma_extend_prefix_len, lemma_nets_stable,
};
use crate::export::{assigns, network_of, ExportError, PrefixAddressor, INTERNAL_AS};
use crate::text::{concat, is_infix, lemma_concat_part, lemma_infix_extend, lemma_infix_mid, lemma_infix_trans, ipv4_net_str, ipv4_str, join, nat_str, push_ipv4, push_ipv4_net, push_secs, push_u64, secs_str};
use crate::types::{AsId, Prefix};

verus! {

/// The AS path as a list: the AS numbers separated by `, `.
pub open spec fn as_list_str(path: Seq<AsId>) -> Seq<char> {
    join(path.map_values(|a: AsId| nat_str(a.0 as nat)), ", "@)
}

/// The announcement of a route whose prefix has the network `net/len`.
pub open spec fn announce_text(route_path: Seq<AsId>, med: Option<u32>, community: Option<u32>, net: u32, len: u8)
    -> Seq<char>
{
    "announce route "@ + ipv4_net_str(net, len) + " next-hop self as-path ["@ + as_list_str(route_path) + "]"@
        + match med {
            Some(m) => " metric "@ + nat_str(m as nat),
            None => Seq::empty(),
        }
        + match community {
            Some(c) => " extended-community ["@ + nat_str(INTERNAL_AS as nat) + ":"@ + nat_str(c as nat) + "]"@,
            None => Seq::empty(),
        }
}

/// Append the AS path as a list.
fn push_as_list(s: &mut String, path: &Vec<AsId>)
    ensures
        final(s)@ == old(s)@ + as_list_str(path@),
{
    let ghost parts = path@.map_values(|a: AsId| nat_str(a.0 as nat));
    let ghost start = s@;
    let mut i: usize = 0;
    assert(parts.take(0) =~= Seq::<Seq<char>>::empty());
    while i < path.len()
        invariant
            i <= path@.len(),
            parts == path@.map_values(|a: AsId| nat_str(a.0 as nat)),
            s@ == start + join(parts.take(i as int), ", "@),
        decreases path@.len() - i,
    {
        proof {
            assert(parts.take(i + 1).drop_last() =~= parts.take(i as int));
            assert(parts.take(i + 1).last() == parts[i as int]);
        }
        if i > 0 {
            s.append(", ");
        }
        push_u64(s, path[i].0 as u64);
        proof {
            if i == 0 {
                assert(parts.take(1).len() == 1);
                assert(start + join(parts.take(0), ", "@) =~= start);
            }
        }
        i = i + 1;
    }
    assert(parts.take(path@.len() as int) =~= parts);
}

/// The command that announces a route. Fails with `NotEnoughAddresses` if the addressor has no
/// network for the prefix.
pub fn route_text(route: &BgpRoute, addressor: &mut PrefixAddressor) -> (r: Result<String, ExportError>)
    ensures
        assigns(*old(addressor), *final(addressor), route.prefix),
        final(addressor).assigned().contains(route.prefix) ==> (r matches Ok(t) && t@ == announce_text(route.as_path@,
            route.med, route.community, network_of(*final(addressor), route.prefix), final(addressor).prefix_len())),
        !final(addressor).assigned().contains(route.prefix) ==> r == Err::<String, ExportError>(ExportError::NotEnoughAddresses),
{
    let (net, len) = match addressor.prefix(route.prefix) {
        Ok(n) => n,
        Err(e) => return Err(e),
    };
    let mut s = String::new();
    s.append("announce route ");
    push_ipv4_net(&mut s, net, len);
    s.append(" next-hop self as-path [");
    push_as_list(&mut s, &route.as_path);
    s.append("]");
    match route.med {
        Some(m) => {
            s.append(" metric ");
            push_u64(&mut s, m as u64);
        },
        None => {},
    }
    match route.community {
        Some(c) => {
            s.append(" extended-community [");
            push_u64(&mut s, INTERNAL_AS as u64);
            s.append(":");
            push_u64(&mut s, c as u64);
            s.append("]");
        },
        None => {},
    }
    assert(s@ =~= announce_text(route.as_path@, route.med, route.community, net, len));
    Ok(s)
}

/// The session with a neighbor at `neighbor_addr`, for a router with id `router_addr` that
/// talks from `local_address` in AS `as_id`; the peer is in the internal AS.
pub open spec fn neighbor_cfg_text(neighbor_addr: u32, router_addr: u32, local_address: u32, as_id: AsId) -> Seq<char> {
    "neighbor "@ + ipv4_str(neighbor_addr) + " {\n    router-id "@ + ipv4_str(router_addr)
        + ";\n    local-address "@ + ipv4_str(local_address) + ";\n    local-as "@ + nat_str(as_id.0 as nat)
        + ";\n    peer-as "@ + nat_str(INTERNAL_AS as nat) + ";\n    hold-time 180;\n    family { ipv4 unicast; }\n}"@
}

/// The session with a neighbor.
pub fn neighbor_cfg(neighbor_addr: u32, router_addr: u32, local_address: u32, as_id: AsId) -> (r: String)
    ensures
        r@ == neighbor_cfg_text(neighbor_addr, router_addr, local_address, as_id),
{
    let mut s = String::new();
    s.append("neighbor ");
    push_ipv4(&mut s, neighbor_addr);
    s.append(" {\n    router-id ");
    push_ipv4(&mut s, router_addr);
    s.append(";\n    local-address ");
    push_ipv4(&mut s, local_address);
    s.append(";\n    local-as ");
    push_u64(&mut s, as_id.0 as u64);
    s.append(";\n    peer-as ");
    push_u64(&mut s, INTERNAL_AS as u64);
    s.append(";\n    hold-time 180;\n    family { ipv4 unicast; }\n}");
    assert(s@ =~= neighbor_cfg_text(neighbor_addr, router_addr, local_address, as_id));
    s
}

/// A route (or its withdrawal) at a time, in nanoseconds from the start.
#[derive(Debug)]
pub struct TimedRoute {
    /// The time of the change.
    pub time: u64,
    /// The route advertised from then on, or `None` if it is withdrawn.
    pub route: Option<BgpRoute>,
}

/// The changes of the route of one prefix, ordered by time.
#[derive(Debug)]
pub struct PrefixRoutes {
    /// The prefix.
    pub prefix: Prefix,
    /// The changes, ordered by time.
    pub changes: Vec<TimedRoute>,
}

/// The abstract value of a change: its time and route.
pub open spec fn change_view(c: TimedRoute) -> (u64, Option<BgpRouteView>) {
    (c.time, match c.route {
        Some(r) => Some(r@),
        None => None,
    })
}

/// The abstract changes of a prefix.
pub open spec fn changes_view(v: Seq<TimedRoute>) -> Seq<(u64, Option<BgpRouteView>)> {
    v.map_values(|c: TimedRoute| change_view(c))
}

/// The history of routes: for each prefix, its changes ordered by time.
pub type History = Seq<(Prefix, Seq<(u64, Option<BgpRouteView>)>)>;

/// The abstract history of a list of prefixes.
pub open spec fn history_view(v: Seq<PrefixRoutes>) -> History {
    v.map_values(|p: PrefixRoutes| (p.prefix, changes_view(p.changes@)))
}

/// The changes are ordered by time, without two at the same time.
pub open spec fn times_increasing(h: Seq<(u64, Option<BgpRouteView>)>) -> bool {
    forall|a: int, b: int| 0 <= a < b < h.len() ==> h[a].0 < h[b].0
}

/// Prefixes are ordered, each has at least one change, ordered by time, and every route is
/// stored under its prefix.
pub open spec fn history_ordered(h: History) -> bool {
    &&& forall|a: int, b: int| 0 <= a < b < h.len() ==> h[a].0.0 < h[b].0.0
    &&& forall|a: int| 0 <= a < h.len() ==> (#[trigger] h[a]).1.len() > 0 && times_increasing(h[a].1)
    &&& forall|a: int, k: int| 0 <= a < h.len() && 0 <= k < h[a].1.len()
        ==> ((#[trigger] h[a].1[k]).1 matches Some(r) ==> r.prefix == h[a].0)
}

/// The history as a map from prefix to a map from time to route.
pub open spec fn history_map(h: History) -> Map<Prefix, Map<u64, Option<BgpRouteView>>> {
    assoc_map(h.map_values(|e: (Prefix, Seq<(u64, Option<BgpRouteView>)>)| (e.0, assoc_map(e.1))))
}

/// The neighbors are ordered by id, without repetition.
pub open spec fn ids_increasing(v: Seq<RouterId>) -> bool {
    forall|a: int, b: int| 0 <= a < b < v.len() ==> v[a].0 < v[b].0
}

/// Ten seconds, in nanoseconds.
pub const TEN_SECONDS: u64 = 10_000_000_000;

/// Configuration generator for ExaBGP. It keeps the history of the routes of an external router,
/// each change at the current time; the script it generates replays that history in a loop.
/// Times are in nanoseconds.
#[derive(Debug)]
pub struct ExaBgpCfgGen {
    router: RouterId,
    as_id: AsId,
    routes: Vec<PrefixRoutes>,
    neighbors: Vec<RouterId>,
    local_address: u32,
    current_time: u64,
    repeat_time: u64,
}

/// The changes of a prefix after a change at time `t` to route `e`.
pub open spec fn with_change(m: Map<Prefix, Map<u64, Option<BgpRouteView>>>, p: Prefix, t: u64, e: Option<BgpRouteView>)
    -> Map<Prefix, Map<u64, Option<BgpRouteView>>>
{
    m.insert(p, if m.contains_key(p) { m[p] } else { Map::empty() }.insert(t, e))
}

impl ExaBgpCfgGen {
    #[verifier::type_invariant]
    spec fn inv(&self) -> bool {
        &&& history_ordered(history_view(self.routes@))
        &&& ids_increasing(self.neighbors@)
    }

    /// The history of the routes.
    pub closed spec fn history(&self) -> History {
        history_view(self.routes@)
    }

    /// The neighbors, ordered by id.
    pub closed spec fn neighbors_spec(&self) -> Seq<RouterId> {
        self.neighbors@
    }

    /// The router.
    pub closed spec fn router_spec(&self) -> RouterId {
        self.router
    }

    /// The AS of the router.
    pub closed spec fn as_spec(&self) -> AsId {
        self.as_id
    }

    /// The address from which the router talks.
    pub closed spec fn local_address_spec(&self) -> u32 {
        self.local_address
    }

    /// The time at which changes are recorded.
    pub closed spec fn current_time_spec(&self) -> u64 {
        self.current_time
    }

    /// The pause before the replay starts over.
    pub closed spec fn repeat_time_spec(&self) -> u64 {
        self.repeat_time
    }

    /// The history is ordered and the neighbors are ordered by id.
    pub fn well_ordered(&self)
        ensures
            history_ordered(self.history()),
            ids_increasing(self.neighbors_spec()),
    {
        proof { use_type_invariant(self); }
    }

    /// Increase the current time by `step`.
    pub fn step_time(&mut self, step: u64)
        requires
            old(self).current_time_spec() + step <= u64::MAX,
        ensures
            final(self).current_time_spec() == old(self).current_time_spec() + step,
            final(self).history() == old(self).history(),
            final(self).neighbors_spec() == old(self).neighbors_spec(),
            final(self).router_spec() == old(self).router_spec(),
            final(self).as_spec() == old(self).as_spec(),
            final(self).local_address_spec() == old(self).local_address_spec(),
            final(self).repeat_time_spec() == old(self).repeat_time_spec(),
    {
        proof { use_type_invariant(&*self); }
        self.current_time = self.current_time + step;
    }

    /// Set the pause before the replay starts over.
    pub fn repeat_time(&mut self, time: u64)
        ensures
            final(self).repeat_time_spec() == time,
            final(self).current_time_spec() == old(self).current_time_spec(),
            final(self).history() == old(self).history(),
            final(self).neighbors_spec() == old(self).neighbors_spec(),
            final(self).router_spec() == old(self).router_spec(),
            final(self).as_spec() == old(self).as_spec(),
            final(self).local_address_spec() == old(self).local_address_spec(),
    {
        proof { use_type_invariant(&*self); }
        self.repeat_time = time;
    }
}

/// Insert a change into changes ordered by time, replacing one at the same time.
fn put_change(v: &mut Vec<TimedRoute>, c: TimedRoute)
    requires
        times_increasing(changes_view(old(v)@)),
    ensures
        times_increasing(changes_view(final(v)@)),
        final(v)@.len() > 0,
        assoc_map(changes_view(final(v)@)) == assoc_map(changes_view(old(v)@)).insert(c.time, change_view(c).1),
        forall|k: int| 0 <= k < final(v)@.len() ==> (#[trigger] changes_view(final(v)@)[k] == change_view(c)
            || changes_view(old(v)@).contains(changes_view(final(v)@)[k])),
{
    let ghost old_v = changes_view(v@);
    proof {
        assert(keys_distinct(old_v)) by {
            assert forall|a: int, b: int| 0 <= a < old_v.len() && 0 <= b < old_v.len() && a != b
                implies old_v[a].0 != old_v[b].0 by {
                if a < b {} else {}
            }
        }
    }
    let mut i: usize = 0;
    while i < v.len() && v[i].time < c.time
        invariant
            i <= v@.len(),
            v@ == old(v)@,
            old_v == changes_view(v@),
            forall|k: int| 0 <= k < i ==> (#[trigger] old_v[k]).0 < c.time,
        decreases v@.len() - i,
    {
        i = i + 1;
    }
    let ghost cv = change_view(c);
    if i < v.len() && v[i].time == c.time {
        proof {
            lemma_assoc_update(old_v, i as int, cv.1);
            assert(old_v.update(i as int, (old_v[i as int].0, cv.1)) =~= changes_view(old(v)@.update(i as int, c)));
        }
        let mut w: Vec<TimedRoute> = Vec::new();
        std::mem::swap(&mut w, v);
        w.set(i, c);
        *v = w;
        proof {
            let nv = changes_view(v@);
            assert forall|k: int| 0 <= k < v@.len() implies (#[trigger] changes_view(v@)[k] == cv
                || changes_view(old(v)@).contains(changes_view(v@)[k])) by {
                if k != i {
                    assert(nv[k] == old_v[k]);
                }
            }
        }
    } else {
        proof {
            assert(!assoc_map(old_v).contains_key(cv.0)) by {
                if assoc_map(old_v).contains_key(cv.0) {
                    let k = choose|k: int| 0 <= k < old_v.len() && old_v[k].0 == cv.0;
                    if k >= i {
                        assert(old_v[i as int].0 <= old_v[k].0);
                    }
                }
            }
            lemma_assoc_insert(old_v, i as int, cv);
            assert(old_v.insert(i as int, cv) =~= changes_view(old(v)@.insert(i as int, c)));
        }
        v.insert(i, c);
        proof {
            let nv = changes_view(v@);
            assert forall|a: int, b: int| 0 <= a < b < nv.len() implies nv[a].0 < nv[b].0 by {
                if a < i && b < i {
                } else if a < i && b == i {
                } else if a < i {
                    assert(nv[b] == old_v[b - 1]);
                } else if a == i {
                    assert(nv[b] == old_v[b - 1]);
                } else {
                    assert(nv[a] == old_v[a - 1] && nv[b] == old_v[b - 1]);
                }
            }
            assert forall|k: int| 0 <= k < v@.len() implies (#[trigger] changes_view(v@)[k] == cv
                || changes_view(old(v)@).contains(changes_view(v@)[k])) by {
                if k < i {
                    assert(nv[k] == old_v[k]);
                } else if k > i {
                    assert(nv[k] == old_v[k - 1]);
                }
            }
        }
    }
}

/// The history map of a list of prefixes, entry by entry.
proof fn lemma_history_map_entries(h: History)
    requires
        history_ordered(h),
    ensures
        keys_distinct(h.map_values(|e: (Prefix, Seq<(u64, Option<BgpRouteView>)>)| (e.0, assoc_map(e.1)))),
{
    let m = h.map_values(|e: (Prefix, Seq<(u64, Option<BgpRouteView>)>)| (e.0, assoc_map(e.1)));
    assert forall|a: int, b: int| 0 <= a < m.len() && 0 <= b < m.len() && a != b implies m[a].0 != m[b].0 by {
        if a < b {
            assert(h[a].0.0 < h[b].0.0);
        } else {
            assert(h[b].0.0 < h[a].0.0);
        }
    }
}

/// The changes of one prefix are without two at the same time.
proof fn lemma_changes_distinct(h: Seq<(u64, Option<BgpRouteView>)>)
    requires
        times_increasing(h),
    ensures
        keys_distinct(h),
{
    assert forall|a: int, b: int| 0 <= a < h.len() && 0 <= b < h.len() && a != b implies h[a].0 != h[b].0 by {
        if a < b {} else {}
    }
}

impl ExaBgpCfgGen {
    /// Record a change of the route of `p` at the current time.
    fn record(&mut self, p: Prefix, route: Option<BgpRoute>)
        requires
            route matches Some(r) ==> r.prefix == p,
        ensures
            history_map(final(self).history()) == with_change(history_map(old(self).history()), p,
                old(self).current_time_spec(), match route { Some(r) => Some(r@), None => None }),
            final(self).neighbors_spec() == old(self).neighbors_spec(),
            final(self).router_spec() == old(self).router_spec(),
            final(self).as_spec() == old(self).as_spec(),
            final(self).local_address_spec() == old(self).local_address_spec(),
            final(self).current_time_spec() == old(self).current_time_spec(),
            final(self).repeat_time_spec() == old(self).repeat_time_spec(),
    {
        proof { use_type_invariant(&*self); }
        let c = TimedRoute { time: self.current_time, route };
        let ghost cv = change_view(c);
        let ghost h0 = self.history();
        let ghost mh0 = h0.map_values(|e: (Prefix, Seq<(u64, Option<BgpRouteView>)>)| (e.0, assoc_map(e.1)));
        proof { lemma_history_map_entries(h0); }
        let mut rs: Vec<PrefixRoutes> = Vec::new();
        std::mem::swap(&mut rs, &mut self.routes);
        let mut i: usize = 0;
        while i < rs.len() && rs[i].prefix.0 < p.0
            invariant
                i <= rs@.len(),
                h0 == history_view(rs@),
                forall|k: int| 0 <= k < i ==> (#[trigger] h0[k]).0.0 < p.0,
            decreases rs@.len() - i,
        {
            i = i + 1;
        }
        if i < rs.len() && rs[i].prefix.0 == p.0 {
            let mut pr = rs.remove(i);
            let ghost hp = changes_view(pr.changes@);
            assert(hp == h0[i as int].1);
            put_change(&mut pr.changes, c);
            let ghost np = (p, changes_view(pr.changes@));
            proof {
                assert(pr.prefix == p);
                lemma_assoc_index(mh0, i as int);
                lemma_assoc_update(mh0, i as int, assoc_map(np.1));
            }
            rs.insert(i, pr);
            proof {
                let h1 = history_view(rs@);
                assert(h1 =~= h0.update(i as int, np));
                let mh1 = h1.map_values(|e: (Prefix, Seq<(u64, Option<BgpRouteView>)>)| (e.0, assoc_map(e.1)));
                assert(mh1 =~= mh0.update(i as int, (mh0[i as int].0, assoc_map(np.1))));
                assert forall|a: int, k: int| 0 <= a < h1.len() && 0 <= k < h1[a].1.len()
                    implies ((#[trigger] h1[a].1[k]).1 matches Some(r) ==> r.prefix == h1[a].0) by {
                    if a == i {
                        if h1[a].1[k] != cv {
                            let w = choose|w: int| 0 <= w < hp.len() && hp[w] == h1[a].1[k];
                            assert(h0[i as int].1[w] == hp[w]);
                        }
                    }
                }
            }
            self.routes = rs;
        } else {
            let mut changes: Vec<TimedRoute> = Vec::new();
            changes.push(c);
            let pr = PrefixRoutes { prefix: p, changes };
            let ghost np = (p, changes_view(pr.changes@));
            proof {
                assert(changes_view(pr.changes@) =~= seq![cv]);
                assert(assoc_map(seq![cv]) =~= Map::<u64, Option<BgpRouteView>>::empty().insert(cv.0, cv.1)) by {
                    assert(seq![cv][0] == cv);
                }
                assert(!assoc_map(mh0).contains_key(p)) by {
                    if assoc_map(mh0).contains_key(p) {
                        let k = choose|k: int| 0 <= k < mh0.len() && mh0[k].0 == p;
                        if k >= i {
                            assert(h0[i as int].0.0 <= h0[k].0.0);
                        }
                    }
                }
                lemma_assoc_insert(mh0, i as int, (p, assoc_map(np.1)));
            }
            rs.insert(i, pr);
            proof {
                let h1 = history_view(rs@);
                assert(h1 =~= h0.insert(i as int, np));
                let mh1 = h1.map_values(|e: (Prefix, Seq<(u64, Option<BgpRouteView>)>)| (e.0, assoc_map(e.1)));
                assert(mh1 =~= mh0.insert(i as int, (p, assoc_map(np.1))));
                assert forall|a: int, b: int| 0 <= a < b < h1.len() implies h1[a].0.0 < h1[b].0.0 by {
                    if a < i && b > i {
                        assert(h1[b] == h0[b - 1]);
                    } else if a == i {
                        assert(h1[b] == h0[b - 1]);
                    } else if a > i {
                        assert(h1[a] == h0[a - 1] && h1[b] == h0[b - 1]);
                    }
                }
                assert forall|a: int| 0 <= a < h1.len() implies (#[trigger] h1[a]).1.len() > 0 && times_increasing(h1[a].1) by {
                    if a > i {
                        assert(h1[a] == h0[a - 1]);
                    }
                }
                assert forall|a: int, k: int| 0 <= a < h1.len() && 0 <= k < h1[a].1.len()
                    implies ((#[trigger] h1[a].1[k]).1 matches Some(r) ==> r.prefix == h1[a].0) by {
                    if a > i {
                        assert(h1[a] == h0[a - 1]);
                    }
                }
            }
            self.routes = rs;
        }
    }
}

/// The route of a prefix never changes: it has a single change, at the start.
pub open spec fn is_constant(c: Seq<(u64, Option<BgpRouteView>)>) -> bool {
    c.len() == 1 && c[0].0 == 0
}

/// The routes that are advertised from the start and never change, in prefix order.
pub open spec fn constant_routes(h: History) -> Seq<BgpRouteView>
    decreases h.len(),
{
    if h.len() == 0 {
        Seq::empty()
    } else {
        let r = constant_routes(h.drop_last());
        let c = h.last().1;
        if is_constant(c) && c[0].1 is Some {
            r.push(c[0].1->0)
        } else {
            r
        }
    }
}

/// The prefixes of routes.
pub open spec fn route_view_prefixes(rs: Seq<BgpRouteView>) -> Seq<Prefix> {
    rs.map_values(|r: BgpRouteView| r.prefix)
}

/// The times at which the route of a prefix that is not constant changes.
pub open spec fn change_times(h: History) -> Set<u64> {
    Set::new(|t: u64| exists|a: int, k: int| 0 <= a < h.len() && !is_constant(h[a].1) && 0 <= k < h[a].1.len()
        && #[trigger] h[a].1[k].0 == t)
}

/// `ts` lists the change times in increasing order.
pub open spec fn times_of(ts: Seq<u64>, h: History) -> bool {
    &&& forall|a: int, b: int| 0 <= a < b < ts.len() ==> ts[a] < ts[b]
    &&& ts.to_set() == change_times(h)
}

/// The change of a list of changes at time `t`, if any.
pub open spec fn change_at(c: Seq<(u64, Option<BgpRouteView>)>, t: u64) -> Option<Option<BgpRouteView>> {
    if exists|k: int| 0 <= k < c.len() && c[k].0 == t {
        Some(c[choose|k: int| 0 <= k < c.len() && c[k].0 == t].1)
    } else {
        None
    }
}

/// The changes at time `t` of the prefixes that are not constant, in prefix order.
pub open spec fn group(h: History, t: u64) -> Seq<(Prefix, Option<BgpRouteView>)>
    decreases h.len(),
{
    if h.len() == 0 {
        Seq::empty()
    } else {
        let g = group(h.drop_last(), t);
        let c = h.last().1;
        if !is_constant(c) && change_at(c, t) is Some {
            g.push((h.last().0, change_at(c, t)->0))
        } else {
            g
        }
    }
}

/// The prefixes of a group.
pub open spec fn group_prefixes(g: Seq<(Prefix, Option<BgpRouteView>)>) -> Seq<Prefix> {
    g.map_values(|e: (Prefix, Option<BgpRouteView>)| e.0)
}

/// The prefixes of the groups of the times, in order.
pub open spec fn groups_prefixes(h: History, ts: Seq<u64>) -> Seq<Prefix>
    decreases ts.len(),
{
    if ts.len() == 0 {
        Seq::empty()
    } else {
        groups_prefixes(h, ts.drop_last()) + group_prefixes(group(h, ts.last()))
    }
}

/// The prefixes that are not advertised at the start, in order.
pub open spec fn late_prefixes(h: History) -> Seq<Prefix>
    decreases h.len(),
{
    if h.len() == 0 {
        Seq::empty()
    } else {
        let w = late_prefixes(h.drop_last());
        if h.last().1[0].0 != 0 {
            w.push(h.last().0)
        } else {
            w
        }
    }
}

/// The prefixes whose networks the script needs, in the order in which it asks for them.
pub open spec fn script_requests(h: History, ts: Seq<u64>) -> Seq<Prefix> {
    route_view_prefixes(constant_routes(h)) + groups_prefixes(h, ts) + late_prefixes(h)
}

/// The neighbors of an announcement.
pub open spec fn neighbors_text(addrs: Seq<u32>) -> Seq<char> {
    join(addrs.map_values(|x: u32| "neighbor "@ + ipv4_str(x)), ", "@)
}

/// A line that announces a route to the neighbors `nb`.
pub open spec fn announce_line(indent: Seq<char>, nb: Seq<char>, r: BgpRouteView, net: u32, len: u8) -> Seq<char> {
    indent + "sys.stdout.write(\""@ + nb + " "@ + announce_text(r.as_path, r.med, r.community, net, len) + "\\n\")\n"@
}

/// The announcements of the constant routes, made once before the loop.
pub open spec fn constant_part(nb: Seq<char>, rs: Seq<BgpRouteView>, nets: Seq<u32>, len: u8) -> Seq<char> {
    concat(Seq::new(rs.len(), |i: int| announce_line(""@, nb, rs[i], nets[i], len)))
        + if rs.len() > 0 { "sys.stdout.flush()\n\n"@ } else { Seq::empty() }
}

/// The line of a change in the loop.
pub open spec fn change_line(nb: Seq<char>, e: (Prefix, Option<BgpRouteView>), net: u32, len: u8) -> Seq<char> {
    match e.1 {
        Some(r) => announce_line("    "@, nb, r, net, len),
        None => "    sys.stdout.write(\""@ + nb + " withdraw route "@ + ipv4_net_str(net, len) + "\\n\")\n"@,
    }
}

/// The changes at one time: a pause, then a line for each change.
pub open spec fn group_part(nb: Seq<char>, g: Seq<(Prefix, Option<BgpRouteView>)>, nets: Seq<u32>, len: u8, pause: nat)
    -> Seq<char>
{
    "    time.sleep("@ + secs_str(pause) + ")\n"@ + concat(Seq::new(g.len(), |i: int| change_line(nb, g[i], nets[i], len)))
        + "    sys.stdout.flush()\n"@
}

/// The time before time `k`: the previous time, or the start.
pub open spec fn previous_time(ts: Seq<u64>, k: int) -> u64 {
    if k == 0 { 0 } else { ts[k - 1] }
}

/// The changes at each time in order, each after a pause from the previous time.
pub open spec fn timed_part(nb: Seq<char>, h: History, ts: Seq<u64>, a: PrefixAddressor) -> Seq<char> {
    concat(Seq::new(ts.len(), |k: int| group_part(nb, group(h, ts[k]), nets_of(a, group_prefixes(group(h, ts[k]))),
        a.prefix_len(), (ts[k] - previous_time(ts, k)) as nat)))
}

/// The withdrawals, at the end of each round, of the prefixes that are not advertised at the
/// start.
pub open spec fn late_part(ps: Seq<Prefix>, nets: Seq<u32>, len: u8) -> Seq<char> {
    concat(Seq::new(ps.len(), |i: int| "    sys.stdout.write('withdraw route "@ + ipv4_net_str(nets[i], len) + "\\n')\n"@))
        + if ps.len() > 0 { "    sys.stdout.flush()\n"@ } else { Seq::empty() }
}

/// The Python script that replays the history `h` to the neighbors at `addrs` forever: the
/// constant routes once, then in a loop the changes at each time `ts`, a pause of `repeat`, and
/// the withdrawal of the prefixes not advertised at the start. Networks come from `a`.
pub open spec fn script_text(h: History, addrs: Seq<u32>, ts: Seq<u64>, repeat: u64, a: PrefixAddressor) -> Seq<char> {
    let nb = neighbors_text(addrs);
    "#!/usr/bin/env python3\n\nimport sys\nimport time\n\n\n"@
        + constant_part(nb, constant_routes(h), nets_of(a, route_view_prefixes(constant_routes(h))), a.prefix_len())
        + "while True:\n"@ + timed_part(nb, h, ts, a) + "    time.sleep("@ + secs_str(repeat as nat) + ")\n"@
        + late_part(late_prefixes(h), nets_of(a, late_prefixes(h)), a.prefix_len())
}

/// Two increasing lists with the same elements are the same.
pub proof fn lemma_increasing_unique(s1: Seq<u64>, s2: Seq<u64>)
    requires
        forall|a: int, b: int| 0 <= a < b < s1.len() ==> s1[a] < s1[b],
        forall|a: int, b: int| 0 <= a < b < s2.len() ==> s2[a] < s2[b],
        s1.to_set() == s2.to_set(),
    ensures
        s1 == s2,
    decreases s1.len(),
{
    if s1.len() == 0 {
        if s2.len() > 0 {
            assert(s2.to_set().contains(s2[0]));
        }
        assert(s1 =~= s2);
    } else {
        assert(s1.to_set().contains(s1[0]));
        assert(s2.len() > 0);
        assert(s2.to_set().contains(s2[0]));
        let i = choose|i: int| 0 <= i < s2.len() && s2[i] == s1[0];
        let j = choose|j: int| 0 <= j < s1.len() && s1[j] == s2[0];
        assert(s1[0] == s2[0]) by {
            if i > 0 {
                assert(s2[0] < s2[i]);
                if j > 0 {
                    assert(s1[0] < s1[j]);
                }
            }
        }
        let t1 = s1.drop_first();
        let t2 = s2.drop_first();
        assert forall|x: u64| t1.to_set().contains(x) == t2.to_set().contains(x) by {
            if t1.to_set().contains(x) {
                let k = choose|k: int| 0 <= k < t1.len() && t1[k] == x;
                assert(s1[k + 1] == x);
                assert(s1.to_set().contains(x));
                let m = choose|m: int| 0 <= m < s2.len() && s2[m] == x;
                if m == 0 {
                    assert(s1[0] < s1[k + 1]);
                }
                assert(t2[m - 1] == x);
            }
            if t2.to_set().contains(x) {
                let k = choose|k: int| 0 <= k < t2.len() && t2[k] == x;
                assert(s2[k + 1] == x);
                assert(s2.to_set().contains(x));
                let m = choose|m: int| 0 <= m < s1.len() && s1[m] == x;
                if m == 0 {
                    assert(s2[0] < s2[k + 1]);
                }
                assert(t1[m - 1] == x);
            }
        }
        assert(t1.to_set() =~= t2.to_set());
        lemma_increasing_unique(t1, t2);
        assert(s1.len() == s2.len());
        assert forall|k: int| 0 <= k < s1.len() implies s1[k] == s2[k] by {
            if k > 0 {
                assert(s1[k] == t1[k - 1] && s2[k] == t2[k - 1]);
            }
        }
        assert(s1 =~= s2);
    }
}

/// One request for the network of `p` after the requests `xs` from `a0`: if `p` gets a network,
/// the earlier networks stay and `p`'s is appended; otherwise the requests do not fit.
pub proof fn lemma_request(a0: PrefixAddressor, cur: PrefixAddressor, nxt: PrefixAddressor, xs: Seq<Prefix>, p: Prefix)
    requires
        a0.assigned().no_duplicates(),
        cur.assigned() == extend_assigned(a0.assigned(), xs),
        cur.capacity() == a0.capacity(),
        assigns(cur, nxt, p),
    ensures
        nxt.assigned().contains(p) ==> nxt.assigned() == extend_assigned(a0.assigned(), xs.push(p))
            && extends(cur, nxt) && all_assigned(nxt, xs.push(p))
            && nets_of(nxt, xs.push(p)) == nets_of(cur, xs).push(network_of(nxt, p)),
        !nxt.assigned().contains(p) ==> extend_assigned(a0.assigned(), xs.push(p)).len() > a0.capacity(),
{
    let one = seq![p];
    assert(one.drop_last() =~= Seq::<Prefix>::empty());
    assert(one.last() == p);
    assert(extend_assigned(cur.assigned(), Seq::<Prefix>::empty()) == cur.assigned());
    assert(xs + one =~= xs.push(p));
    lemma_extend_concat(a0.assigned(), xs, one);
    assert(cur.assigned().push(p)[cur.assigned().len() as int] == p);
    lemma_extend_assigned(a0.assigned(), xs);
    lemma_extend_no_dup(a0.assigned(), xs.push(p));
    if nxt.assigned().contains(p) {
        lemma_extend_assigned(cur.assigned(), one);
        assert(extends(cur, nxt));
        assert(all_assigned(cur, xs));
        lemma_nets_stable(cur, nxt, xs);
        assert forall|k: int| 0 <= k < xs.push(p).len() implies nxt.assigned().contains(#[trigger] xs.push(p)[k]) by {
            if k < xs.len() {
                assert(xs.push(p)[k] == xs[k]);
                let w = choose|w: int| 0 <= w < cur.assigned().len() && cur.assigned()[w] == xs[k];
                assert(nxt.assigned()[w] == xs[k]);
            }
        }
        assert(nets_of(nxt, xs.push(p)) =~= nets_of(nxt, xs).push(network_of(nxt, p)));
    }
}

/// The constant routes of the first prefixes begin those of all prefixes.
proof fn lemma_constant_prefix(h: History, a: int)
    requires
        0 <= a <= h.len(),
    ensures
        is_prefix_of(route_view_prefixes(constant_routes(h.take(a))), route_view_prefixes(constant_routes(h))),
    decreases h.len(),
{
    if a == h.len() {
        assert(h.take(a) =~= h);
        let x = route_view_prefixes(constant_routes(h));
        assert(x.take(x.len() as int) =~= x);
    } else {
        let d = h.drop_last();
        assert(d.take(a) =~= h.take(a));
        lemma_constant_prefix(d, a);
        let x = route_view_prefixes(constant_routes(h.take(a)));
        let y = route_view_prefixes(constant_routes(d));
        let c = h.last().1;
        if is_constant(c) && c[0].1 is Some {
            assert(route_view_prefixes(constant_routes(h)) =~= y.push(c[0].1->0.prefix));
            assert(y.push(c[0].1->0.prefix).take(x.len() as int) =~= y.take(x.len() as int));
        }
    }
}

/// The late prefixes of the first prefixes begin those of all prefixes.
proof fn lemma_late_prefix(h: History, a: int)
    requires
        0 <= a <= h.len(),
    ensures
        is_prefix_of(late_prefixes(h.take(a)), late_prefixes(h)),
    decreases h.len(),
{
    if a == h.len() {
        assert(h.take(a) =~= h);
        let x = late_prefixes(h);
        assert(x.take(x.len() as int) =~= x);
    } else {
        let d = h.drop_last();
        assert(d.take(a) =~= h.take(a));
        lemma_late_prefix(d, a);
        let x = late_prefixes(h.take(a));
        let y = late_prefixes(d);
        if h.last().1[0].0 != 0 {
            assert(y.push(h.last().0).take(x.len() as int) =~= y.take(x.len() as int));
        }
    }
}

/// The group of the first prefixes begins the group of all prefixes.
proof fn lemma_group_prefix(h: History, t: u64, a: int)
    requires
        0 <= a <= h.len(),
    ensures
        is_prefix_of(group_prefixes(group(h.take(a), t)), group_prefixes(group(h, t))),
    decreases h.len(),
{
    if a == h.len() {
        assert(h.take(a) =~= h);
        let x = group_prefixes(group(h, t));
        assert(x.take(x.len() as int) =~= x);
    } else {
        let d = h.drop_last();
        assert(d.take(a) =~= h.take(a));
        lemma_group_prefix(d, t, a);
        let x = group_prefixes(group(h.take(a), t));
        let y = group_prefixes(group(d, t));
        let c = h.last().1;
        if !is_constant(c) && change_at(c, t) is Some {
            assert(group_prefixes(group(h, t)) =~= y.push(h.last().0));
            assert(y.push(h.last().0).take(x.len() as int) =~= y.take(x.len() as int));
        }
    }
}

/// The groups of the first times begin the groups of all times.
proof fn lemma_groups_prefix(h: History, ts: Seq<u64>, k: int)
    requires
        0 <= k <= ts.len(),
    ensures
        is_prefix_of(groups_prefixes(h, ts.take(k)), groups_prefixes(h, ts)),
    decreases ts.len(),
{
    if k == ts.len() {
        assert(ts.take(k) =~= ts);
        let x = groups_prefixes(h, ts);
        assert(x.take(x.len() as int) =~= x);
    } else {
        let d = ts.drop_last();
        assert(d.take(k) =~= ts.take(k));
        lemma_groups_prefix(h, d, k);
        let x = groups_prefixes(h, ts.take(k));
        let y = groups_prefixes(h, d);
        let g = group_prefixes(group(h, ts.last()));
        assert((y + g).take(x.len() as int) =~= y.take(x.len() as int));
    }
}

/// The neighbors of an announcement, from their addresses.
fn neighbors_line(addrs: &[u32]) -> (r: String)
    ensures
        r@ == neighbors_text(addrs@),
{
    let ghost parts = addrs@.map_values(|x: u32| "neighbor "@ + ipv4_str(x));
    let mut s = String::new();
    let mut i: usize = 0;
    assert(parts.take(0) =~= Seq::<Seq<char>>::empty());
    while i < addrs.len()
        invariant
            i <= addrs@.len(),
            parts == addrs@.map_values(|x: u32| "neighbor "@ + ipv4_str(x)),
            s@ == join(parts.take(i as int), ", "@),
        decreases addrs@.len() - i,
    {
        let ghost before = s@;
        proof {
            assert(parts.take(i + 1).drop_last() =~= parts.take(i as int));
            assert(parts.take(i + 1).last() == parts[i as int]);
        }
        if i > 0 {
            s.append(", ");
        }
        s.append("neighbor ");
        push_ipv4(&mut s, addrs[i]);
        proof {
            if i == 0 {
                assert(parts.take(1).len() == 1);
                assert(s@ =~= parts[0]);
            } else {
                assert(s@ =~= before + ", "@ + parts[i as int]);
            }
        }
        i = i + 1;
    }
    assert(parts.take(addrs@.len() as int) =~= parts);
    s
}

impl ExaBgpCfgGen {
    /// The announcements of the constant routes.
    fn constant_section(&self, nb: &str, addressor: &mut PrefixAddressor) -> (r: Result<String, ExportError>)
        ensures
            final(addressor).base() == old(addressor).base(),
            final(addressor).prefix_len() == old(addressor).prefix_len(),
            final(addressor).block() == old(addressor).block(),
            final(addressor).capacity() == old(addressor).capacity(),
            final(addressor).assigned().no_duplicates(),
            r is Ok <==> extend_assigned(old(addressor).assigned(), route_view_prefixes(constant_routes(self.history()))).len()
                <= old(addressor).capacity(),
            r matches Err(e) ==> e == ExportError::NotEnoughAddresses,
            r matches Ok(s) ==> s@ == constant_part(nb@, constant_routes(self.history()),
                nets_of(*final(addressor), route_view_prefixes(constant_routes(self.history()))), final(addressor).prefix_len())
                && final(addressor).assigned() == extend_assigned(old(addressor).assigned(),
                    route_view_prefixes(constant_routes(self.history()))),
    {
        proof { use_type_invariant(self); }
        let ghost h = self.history();
        let ghost a0 = *addressor;
        let ghost len = a0.prefix_len();
        addressor.assigned_fits();
        let mut out = String::new();
        let mut a: usize = 0;
        let mut n_const: usize = 0;
        assert(h.take(0) =~= Seq::<(Prefix, Seq<(u64, Option<BgpRouteView>)>)>::empty());
        assert(out@ =~= concat(Seq::new(0, |i: int| announce_line(""@, nb@, constant_routes(h.take(0))[i],
            nets_of(*addressor, route_view_prefixes(constant_routes(h.take(0))))[i], len))));
        while a < self.routes.len()
            invariant
                a <= h.len(),
                h == self.history(),
                history_ordered(h),
                n_const == constant_routes(h.take(a as int)).len(),
                n_const <= a,
                a0 == *old(addressor),
                len == a0.prefix_len(),
                a0.assigned().no_duplicates(),
                addressor.base() == a0.base(),
                addressor.prefix_len() == a0.prefix_len(),
                addressor.block() == a0.block(),
                addressor.capacity() == a0.capacity(),
                addressor.assigned().no_duplicates(),
                addressor.assigned() == extend_assigned(a0.assigned(), route_view_prefixes(constant_routes(h.take(a as int)))),
                out@ == concat(Seq::new(constant_routes(h.take(a as int)).len(), |i: int| announce_line(""@, nb@,
                    constant_routes(h.take(a as int))[i],
                    nets_of(*addressor, route_view_prefixes(constant_routes(h.take(a as int))))[i], len))),
            decreases h.len() - a,
        {
            let ghost ha = h.take(a as int);
            let ghost hb = h.take(a + 1);
            proof {
                assert(hb.drop_last() =~= ha);
                assert(hb.last() == h[a as int]);
            }
            let pr = &self.routes[a];
            if pr.changes.len() == 1 && pr.changes[0].time == 0 {
                match &pr.changes[0].route {
                    Some(route) => {
                        let ghost cur = *addressor;
                        let ghost xs = route_view_prefixes(constant_routes(ha));
                        let ghost rv = route@;
                        proof {
                            assert(h[a as int].1[0] == change_view(pr.changes@[0]));
                            assert(rv.prefix == h[a as int].0);
                            assert(constant_routes(hb) == constant_routes(ha).push(rv));
                            assert(route_view_prefixes(constant_routes(hb)) =~= xs.push(rv.prefix));
                        }
                        let t = route_text(route, addressor);
                        proof {
                            lemma_request(a0, cur, *addressor, xs, rv.prefix);
                        }
                        let t = match t {
                            Ok(t) => t,
                            Err(e) => {
                                proof {
                                    lemma_constant_prefix(h, a + 1);
                                    lemma_extend_prefix_len(a0.assigned(), xs.push(rv.prefix),
                                        route_view_prefixes(constant_routes(h)));
                                }
                                return Err(e);
                            },
                        };
                        addressor.assigned_fits();
                        let mut line = String::new();
                        line.append("sys.stdout.write(\"");
                        line.append(nb);
                        line.append(" ");
                        line.append(t.as_str());
                        line.append("\\n\")\n");
                        proof {
                            let nxt = *addressor;
                            let n0 = nets_of(cur, xs);
                            let n1 = nets_of(nxt, xs.push(rv.prefix));
                            let crb = constant_routes(hb);
                            let cra = constant_routes(ha);
                            reveal_strlit("");
                            assert(n1[xs.len() as int] == network_of(nxt, rv.prefix));
                            assert(t@ == announce_text(rv.as_path, rv.med, rv.community, n1[xs.len() as int], len));
                            assert(line@ =~= announce_line(""@, nb@, rv, n1[xs.len() as int], len));
                            let f = |i: int| announce_line(""@, nb@, crb[i], n1[i], len);
                            assert(Seq::new(cra.len(), f) =~= Seq::new(cra.len(), |i: int| announce_line(""@, nb@, cra[i], n0[i], len)));
                            lemma_concat_new(cra.len(), f);
                        }
                        out.append(line.as_str());
                        n_const = n_const + 1;
                    },
                    None => {
                        proof {
                            assert(h[a as int].1[0] == change_view(pr.changes@[0]));
                            assert(constant_routes(hb) == constant_routes(ha));
                        }
                    },
                }
            } else {
                proof {
                    assert(!is_constant(h[a as int].1));
                    assert(constant_routes(hb) == constant_routes(ha));
                }
            }
            a = a + 1;
        }
        assert(h.take(h.len() as int) =~= h);
        if n_const > 0 {
            out.append("sys.stdout.flush()\n\n");
        }
        addressor.assigned_fits();
        Ok(out)
    }
}

impl ExaBgpCfgGen {
    /// The withdrawals of the prefixes that are not advertised at the start.
    fn late_section(&self, addressor: &mut PrefixAddressor) -> (r: Result<String, ExportError>)
        ensures
            final(addressor).base() == old(addressor).base(),
            final(addressor).prefix_len() == old(addressor).prefix_len(),
            final(addressor).block() == old(addressor).block(),
            final(addressor).capacity() == old(addressor).capacity(),
            final(addressor).assigned().no_duplicates(),
            r is Ok <==> extend_assigned(old(addressor).assigned(), late_prefixes(self.history())).len()
                <= old(addressor).capacity(),
            r matches Err(e) ==> e == ExportError::NotEnoughAddresses,
            r matches Ok(s) ==> s@ == late_part(late_prefixes(self.history()),
                nets_of(*final(addressor), late_prefixes(self.history())), final(addressor).prefix_len())
                && final(addressor).assigned() == extend_assigned(old(addressor).assigned(), late_prefixes(self.history())),
    {
        proof { use_type_invariant(self); }
        let ghost h = self.history();
        let ghost a0 = *addressor;
        let ghost len = a0.prefix_len();
        addressor.assigned_fits();
        let mut out = String::new();
        let mut a: usize = 0;
        let mut n_late: usize = 0;
        assert(h.take(0) =~= Seq::<(Prefix, Seq<(u64, Option<BgpRouteView>)>)>::empty());
        assert(out@ =~= concat(Seq::new(0, |i: int| "    sys.stdout.write('withdraw route "@
            + ipv4_net_str(nets_of(*addressor, late_prefixes(h.take(0)))[i], len) + "\\n')\n"@)));
        while a < self.routes.len()
            invariant
                a <= h.len(),
                h == self.history(),
                history_ordered(h),
                n_late == late_prefixes(h.take(a as int)).len(),
                n_late <= a,
                a0 == *old(addressor),
                len == a0.prefix_len(),
                a0.assigned().no_duplicates(),
                addressor.base() == a0.base(),
                addressor.prefix_len() == a0.prefix_len(),
                addressor.block() == a0.block(),
                addressor.capacity() == a0.capacity(),
                addressor.assigned().no_duplicates(),
                addressor.assigned() == extend_assigned(a0.assigned(), late_prefixes(h.take(a as int))),
                out@ == concat(Seq::new(late_prefixes(h.take(a as int)).len(), |i: int| "    sys.stdout.write('withdraw route "@
                    + ipv4_net_str(nets_of(*addressor, late_prefixes(h.take(a as int)))[i], len) + "\\n')\n"@)),
            decreases h.len() - a,
        {
            let ghost ha = h.take(a as int);
            let ghost hb = h.take(a + 1);
            proof {
                assert(hb.drop_last() =~= ha);
                assert(hb.last() == h[a as int]);
                assert(h[a as int].1.len() > 0);
                assert(h[a as int].1[0] == change_view(self.routes@[a as int].changes@[0]));
            }
            let pr = &self.routes[a];
            if pr.changes[0].time != 0 {
                let p = pr.prefix;
                let ghost cur = *addressor;
                let ghost xs = late_prefixes(ha);
                proof {
                    assert(late_prefixes(hb) == xs.push(p));
                }
                let n = addressor.prefix(p);
                proof {
                    lemma_request(a0, cur, *addressor, xs, p);
                }
                let (net, plen) = match n {
                    Ok(n) => n,
                    Err(e) => {
                        proof {
                            lemma_late_prefix(h, a + 1);
                            lemma_extend_prefix_len(a0.assigned(), xs.push(p), late_prefixes(h));
                        }
                        return Err(e);
                    },
                };
                addressor.assigned_fits();
                let mut line = String::new();
                line.append("    sys.stdout.write('withdraw route ");
                push_ipv4_net(&mut line, net, plen);
                line.append("\\n')\n");
                proof {
                    let nxt = *addressor;
                    let n0 = nets_of(cur, xs);
                    let n1 = nets_of(nxt, xs.push(p));
                    assert(n1[xs.len() as int] == network_of(nxt, p));
                    let f = |i: int| "    sys.stdout.write('withdraw route "@ + ipv4_net_str(n1[i], len) + "\\n')\n"@;
                    assert(line@ =~= f(xs.len() as int));
                    assert(Seq::new(xs.len(), f) =~= Seq::new(xs.len(), |i: int| "    sys.stdout.write('withdraw route "@
                        + ipv4_net_str(n0[i], len) + "\\n')\n"@));
                    lemma_concat_new(xs.len(), f);
                }
                out.append(line.as_str());
                n_late = n_late + 1;
            } else {
                proof {
                    assert(late_prefixes(hb) == late_prefixes(ha));
                }
            }
            a = a + 1;
        }
        assert(h.take(h.len() as int) =~= h);
        if n_late > 0 {
            out.append("    sys.stdout.flush()\n");
        }
        addressor.assigned_fits();
        Ok(out)
    }
}

/// The change at time `t` of a list of changes ordered by time, found at index `k`.
proof fn lemma_change_at(c: Seq<(u64, Option<BgpRouteView>)>, t: u64, k: int)
    requires
        times_increasing(c),
        0 <= k < c.len(),
        c[k].0 == t,
    ensures
        change_at(c, t) == Some(c[k].1),
{
    let w = choose|w: int| 0 <= w < c.len() && c[w].0 == t;
    if w < k {
        assert(c[w].0 < c[k].0);
    } else if w > k {
        assert(c[k].0 < c[w].0);
    }
}

impl ExaBgpCfgGen {
    /// The index of the change of prefix `a` at time `t`, if any.
    fn find_change(&self, a: usize, t: u64) -> (r: Option<usize>)
        requires
            a < self.history().len(),
        ensures
            change_at(self.history()[a as int].1, t) is None ==> r is None,
            change_at(self.history()[a as int].1, t) matches Some(e) ==> (r matches Some(k)
                && k < self.history()[a as int].1.len() && self.history()[a as int].1[k as int].1 == e),
    {
        proof { use_type_invariant(self); }
        let ghost c = self.history()[a as int].1;
        let changes = &self.routes[a].changes;
        assert(c == changes_view(changes@));
        let mut j: usize = 0;
        while j < changes.len() && changes[j].time != t
            invariant
                j <= changes@.len(),
                c == changes_view(changes@),
                forall|k: int| 0 <= k < j ==> (#[trigger] c[k]).0 != t,
            decreases changes@.len() - j,
        {
            j = j + 1;
        }
        if j < changes.len() {
            proof {
                assert(history_ordered(self.history()));
                lemma_change_at(c, t, j as int);
            }
            Some(j)
        } else {
            None
        }
    }

    /// The changes at time `t`, after a pause of `pause`.
    fn group_section(&self, nb: &str, t: u64, pause: u64, addressor: &mut PrefixAddressor)
        -> (r: Result<String, ExportError>)
        ensures
            final(addressor).base() == old(addressor).base(),
            final(addressor).prefix_len() == old(addressor).prefix_len(),
            final(addressor).block() == old(addressor).block(),
            final(addressor).capacity() == old(addressor).capacity(),
            final(addressor).assigned().no_duplicates(),
            r is Ok <==> extend_assigned(old(addressor).assigned(), group_prefixes(group(self.history(), t))).len()
                <= old(addressor).capacity(),
            r matches Err(e) ==> e == ExportError::NotEnoughAddresses,
            r matches Ok(s) ==> s@ == group_part(nb@, group(self.history(), t),
                nets_of(*final(addressor), group_prefixes(group(self.history(), t))), final(addressor).prefix_len(), pause as nat)
                && final(addressor).assigned() == extend_assigned(old(addressor).assigned(),
                    group_prefixes(group(self.history(), t))),
    {
        proof { use_type_invariant(self); }
        let ghost h = self.history();
        let ghost a0 = *addressor;
        let ghost len = a0.prefix_len();
        addressor.assigned_fits();
        let mut out = String::new();
        let mut a: usize = 0;
        assert(h.take(0) =~= Seq::<(Prefix, Seq<(u64, Option<BgpRouteView>)>)>::empty());
        assert(out@ =~= concat(Seq::new(0, |i: int| change_line(nb@, group(h.take(0), t)[i],
            nets_of(*addressor, group_prefixes(group(h.take(0), t)))[i], len))));
        while a < self.routes.len()
            invariant
                a <= h.len(),
                h == self.history(),
                history_ordered(h),
                a0 == *old(addressor),
                len == a0.prefix_len(),
                a0.assigned().no_duplicates(),
                addressor.base() == a0.base(),
                addressor.prefix_len() == a0.prefix_len(),
                addressor.block() == a0.block(),
                addressor.capacity() == a0.capacity(),
                addressor.assigned().no_duplicates(),
                addressor.assigned() == extend_assigned(a0.assigned(), group_prefixes(group(h.take(a as int), t))),
                out@ == concat(Seq::new(group(h.take(a as int), t).len(), |i: int| change_line(nb@,
                    group(h.take(a as int), t)[i], nets_of(*addressor, group_prefixes(group(h.take(a as int), t)))[i], len))),
            decreases h.len() - a,
        {
            let ghost ha = h.take(a as int);
            let ghost hb = h.take(a + 1);
            let ghost c = h[a as int].1;
            proof {
                assert(hb.drop_last() =~= ha);
                assert(hb.last() == h[a as int]);
                assert(c.len() > 0);
            }
            let pr = &self.routes[a];
            proof {
                assert(c == changes_view(pr.changes@));
            }
            let constant = pr.changes.len() == 1 && pr.changes[0].time == 0;
            let found = if constant { None } else { self.find_change(a, t) };
            match found {
                Some(k) => {
                    let p = pr.prefix;
                    let ghost cur = *addressor;
                    let ghost xs = group_prefixes(group(ha, t));
                    let ghost e = (p, c[k as int].1);
                    proof {
                        assert(!is_constant(c));
                        assert(group(hb, t) == group(ha, t).push(e));
                        assert(group_prefixes(group(hb, t)) =~= xs.push(p));
                        assert(c[k as int] == change_view(pr.changes@[k as int]));
                    }
                    let line_r: Result<String, ExportError> = match &pr.changes[k].route {
                        Some(route) => {
                            proof {
                                assert(route@.prefix == p);
                            }
                            let t1 = route_text(route, addressor);
                            match t1 {
                                Ok(t1) => {
                                    let mut line = String::new();
                                    line.append("    ");
                                    line.append("sys.stdout.write(\"");
                                    line.append(nb);
                                    line.append(" ");
                                    line.append(t1.as_str());
                                    line.append("\\n\")\n");
                                    proof {
                                        lemma_request(a0, cur, *addressor, xs, p);
                                        let n1 = nets_of(*addressor, xs.push(p));
                                        assert(n1[xs.len() as int] == network_of(*addressor, p));
                                        assert(e.1 == Some(route@));
                                        assert(t1@ == announce_text(route@.as_path, route@.med, route@.community,
                                            n1[xs.len() as int], len));
                                        assert(line@ =~= announce_line("    "@, nb@, route@, n1[xs.len() as int], len));
                                        assert(line@ =~= change_line(nb@, e, n1[xs.len() as int], len));
                                    }
                                    Ok(line)
                                },
                                Err(x) => Err(x),
                            }
                        },
                        None => {
                            let n = addressor.prefix(p);
                            match n {
                                Ok((net, plen)) => {
                                    let mut line = String::new();
                                    line.append("    sys.stdout.write(\"");
                                    line.append(nb);
                                    line.append(" withdraw route ");
                                    push_ipv4_net(&mut line, net, plen);
                                    line.append("\\n\")\n");
                                    proof {
                                        lemma_request(a0, cur, *addressor, xs, p);
                                        let n1 = nets_of(*addressor, xs.push(p));
                                        assert(n1[xs.len() as int] == network_of(*addressor, p));
                                        assert(line@ =~= change_line(nb@, e, n1[xs.len() as int], len));
                                    }
                                    Ok(line)
                                },
                                Err(x) => Err(x),
                            }
                        },
                    };
                    proof {
                        lemma_request(a0, cur, *addressor, xs, p);
                    }
                    let line = match line_r {
                        Ok(l) => l,
                        Err(x) => {
                            proof {
                                lemma_group_prefix(h, t, a + 1);
                                lemma_extend_prefix_len(a0.assigned(), xs.push(p), group_prefixes(group(h, t)));
                            }
                            return Err(x);
                        },
                    };
                    addressor.assigned_fits();
                    proof {
                        let nxt = *addressor;
                        let n0 = nets_of(cur, xs);
                        let n1 = nets_of(nxt, xs.push(p));
                        let gb = group(hb, t);
                        let ga = group(ha, t);
                        let f = |i: int| change_line(nb@, gb[i], n1[i], len);
                        assert(Seq::new(ga.len(), f) =~= Seq::new(ga.len(), |i: int| change_line(nb@, ga[i], n0[i], len)));
                        lemma_concat_new(ga.len(), f);
                    }
                    out.append(line.as_str());
                },
                None => {
                    proof {
                        assert(group(hb, t) == group(ha, t));
                    }
                },
            }
            a = a + 1;
        }
        assert(h.take(h.len() as int) =~= h);
        let mut res = String::new();
        res.append("    time.sleep(");
        push_secs(&mut res, pause);
        res.append(")\n");
        res.append(out.as_str());
        res.append("    sys.stdout.flush()\n");
        addressor.assigned_fits();
        Ok(res)
    }
}

/// Insert a time into increasing times, unless it is there already.
fn insert_time(v: &mut Vec<u64>, t: u64)
    requires
        forall|a: int, b: int| 0 <= a < b < old(v)@.len() ==> old(v)@[a] < old(v)@[b],
    ensures
        forall|a: int, b: int| 0 <= a < b < final(v)@.len() ==> final(v)@[a] < final(v)@[b],
        final(v)@.to_set() == old(v)@.to_set().insert(t),
{
    let mut i: usize = 0;
    while i < v.len() && v[i] < t
        invariant
            i <= v@.len(),
            v@ == old(v)@,
            forall|k: int| 0 <= k < i ==> v@[k] < t,
        decreases v@.len() - i,
    {
        i = i + 1;
    }
    if i < v.len() && v[i] == t {
        assert(v@.to_set() =~= old(v)@.to_set().insert(t)) by {
            assert(v@.to_set().contains(t)) by {
                assert(v@[i as int] == t);
            }
        }
    } else {
        let ghost o = v@;
        v.insert(i, t);
        proof {
            let n = v@;
            assert forall|a: int, b: int| 0 <= a < b < n.len() implies n[a] < n[b] by {
                if a < i && b > i {
                    assert(n[b] == o[b - 1]);
                    if b - 1 > i {
                        assert(o[i as int] < o[b - 1]);
                    }
                } else if a == i {
                    assert(n[b] == o[b - 1]);
                    if b - 1 > i {
                        assert(o[i as int] < o[b - 1]);
                    }
                } else if a > i {
                    assert(n[a] == o[a - 1] && n[b] == o[b - 1]);
                }
            }
            assert forall|x: u64| n.to_set().contains(x) == o.to_set().insert(t).contains(x) by {
                if n.to_set().contains(x) {
                    let w = choose|w: int| 0 <= w < n.len() && n[w] == x;
                    if w < i {
                        assert(o[w] == x);
                    } else if w > i {
                        assert(o[w - 1] == x);
                    }
                }
                if o.to_set().contains(x) {
                    let w = choose|w: int| 0 <= w < o.len() && o[w] == x;
                    if w < i {
                        assert(n[w] == x);
                    } else {
                        assert(n[w + 1] == x);
                    }
                }
                if x == t {
                    assert(n[i as int] == t);
                }
            }
            assert(n.to_set() =~= o.to_set().insert(t));
        }
    }
}

/// The change times of the first `a` prefixes, and of the first `k` changes of prefix `a`.
pub open spec fn times_upto(h: History, a: int, k: int) -> Set<u64> {
    Set::new(|t: u64| exists|x: int, y: int| 0 <= x <= a && x < h.len() && !is_constant(h[x].1) && 0 <= y < h[x].1.len()
        && (x < a || y < k) && #[trigger] h[x].1[y].0 == t)
}

impl ExaBgpCfgGen {
    /// The times at which routes change, in increasing order.
    fn change_times_exec(&self) -> (ts: Vec<u64>)
        ensures
            times_of(ts@, self.history()),
    {
        proof { use_type_invariant(self); }
        let ghost h = self.history();
        let mut ts: Vec<u64> = Vec::new();
        let mut a: usize = 0;
        assert(ts@.to_set() =~= times_upto(h, 0, 0));
        while a < self.routes.len()
            invariant
                a <= h.len(),
                h == self.history(),
                forall|x: int, y: int| 0 <= x < y < ts@.len() ==> ts@[x] < ts@[y],
                ts@.to_set() == times_upto(h, a as int, 0),
            decreases h.len() - a,
        {
            let changes = &self.routes[a].changes;
            let ghost c = h[a as int].1;
            assert(c == changes_view(changes@));
            if !(changes.len() == 1 && changes[0].time == 0) {
                let mut k: usize = 0;
                assert(times_upto(h, a as int, 0) =~= times_upto(h, a as int, k as int));
                while k < changes.len()
                    invariant
                        a < h.len(),
                        k <= changes@.len(),
                        c == h[a as int].1,
                        c == changes_view(changes@),
                        !is_constant(c),
                        forall|x: int, y: int| 0 <= x < y < ts@.len() ==> ts@[x] < ts@[y],
                        ts@.to_set() == times_upto(h, a as int, k as int),
                    decreases changes@.len() - k,
                {
                    insert_time(&mut ts, changes[k].time);
                    proof {
                        assert(c[k as int].0 == changes@[k as int].time);
                        assert forall|t: u64| times_upto(h, a as int, k + 1).contains(t)
                            == times_upto(h, a as int, k as int).insert(changes@[k as int].time).contains(t) by {
                            if times_upto(h, a as int, k + 1).contains(t) {
                                let (x, y) = choose|x: int, y: int| 0 <= x <= a && x < h.len() && !is_constant(h[x].1)
                                    && 0 <= y < h[x].1.len() && (x < a || y < k + 1) && #[trigger] h[x].1[y].0 == t;
                                if !(x < a || y < k) {
                                    assert(y == k);
                                }
                            }
                            if t == changes@[k as int].time {
                                assert(h[a as int].1[k as int].0 == t);
                            }
                        }
                        assert(times_upto(h, a as int, k + 1) =~= times_upto(h, a as int, k as int).insert(changes@[k as int].time));
                    }
                    k = k + 1;
                }
                proof {
                    assert forall|t: u64| times_upto(h, a + 1, 0).contains(t) == times_upto(h, a as int, k as int).contains(t) by {
                        if times_upto(h, a as int, k as int).contains(t) {
                            let (x, y) = choose|x: int, y: int| 0 <= x <= a && x < h.len() && !is_constant(h[x].1)
                                && 0 <= y < h[x].1.len() && (x < a || y < k) && #[trigger] h[x].1[y].0 == t;
                            assert(h[x].1[y].0 == t);
                        }
                        if times_upto(h, a + 1, 0).contains(t) {
                            let (x, y) = choose|x: int, y: int| 0 <= x <= a + 1 && x < h.len() && !is_constant(h[x].1)
                                && 0 <= y < h[x].1.len() && (x < a + 1 || y < 0) && #[trigger] h[x].1[y].0 == t;
                            assert(h[x].1[y].0 == t);
                        }
                    }
                    assert(times_upto(h, a + 1, 0) =~= times_upto(h, a as int, k as int));
                }
            } else {
                proof {
                    assert(is_constant(c));
                    assert forall|t: u64| times_upto(h, a + 1, 0).contains(t) == times_upto(h, a as int, 0).contains(t) by {
                        if times_upto(h, a + 1, 0).contains(t) {
                            let (x, y) = choose|x: int, y: int| 0 <= x <= a + 1 && x < h.len() && !is_constant(h[x].1)
                                && 0 <= y < h[x].1.len() && (x < a + 1 || y < 0) && #[trigger] h[x].1[y].0 == t;
                            assert(h[x].1[y].0 == t);
                        }
                        if times_upto(h, a as int, 0).contains(t) {
                            let (x, y) = choose|x: int, y: int| 0 <= x <= a && x < h.len() && !is_constant(h[x].1)
                                && 0 <= y < h[x].1.len() && (x < a || y < 0) && #[trigger] h[x].1[y].0 == t;
                            assert(h[x].1[y].0 == t);
                        }
                    }
                    assert(times_upto(h, a + 1, 0) =~= times_upto(h, a as int, 0));
                }
            }
            a = a + 1;
        }
        proof {
            assert forall|t: u64| ts@.to_set().contains(t) == change_times(h).contains(t) by {
                if change_times(h).contains(t) {
                    let (x, y) = choose|x: int, y: int| 0 <= x < h.len() && !is_constant(h[x].1) && 0 <= y < h[x].1.len()
                        && #[trigger] h[x].1[y].0 == t;
                    assert(times_upto(h, a as int, 0).contains(t));
                }
                if ts@.to_set().contains(t) {
                    let (x, y) = choose|x: int, y: int| 0 <= x <= a && x < h.len() && !is_constant(h[x].1)
                        && 0 <= y < h[x].1.len() && (x < a || y < 0) && #[trigger] h[x].1[y].0 == t;
                    assert(h[x].1[y].0 == t);
                }
            }
            assert(ts@.to_set() =~= change_times(h));
        }
        ts
    }
}

/// The prefixes of the group of an earlier time are among those of the groups so far.
proof fn lemma_groups_contain(h: History, ts: Seq<u64>, k: int, j: int)
    requires
        0 <= j < k <= ts.len(),
    ensures
        forall|q: int| 0 <= q < group_prefixes(group(h, ts[j])).len()
            ==> groups_prefixes(h, ts.take(k)).contains(#[trigger] group_prefixes(group(h, ts[j]))[q]),
    decreases k,
{
    let t = ts.take(k);
    assert(t.drop_last() =~= ts.take(k - 1));
    assert(t.last() == ts[k - 1]);
    let pre = groups_prefixes(h, ts.take(k - 1));
    let g = group_prefixes(group(h, ts[k - 1]));
    assert(groups_prefixes(h, t) == pre + g);
    if j < k - 1 {
        lemma_groups_contain(h, ts, k - 1, j);
        assert forall|q: int| 0 <= q < group_prefixes(group(h, ts[j])).len()
            implies groups_prefixes(h, t).contains(#[trigger] group_prefixes(group(h, ts[j]))[q]) by {
            let x = group_prefixes(group(h, ts[j]))[q];
            let w = choose|w: int| 0 <= w < pre.len() && pre[w] == x;
            assert((pre + g)[w] == x);
        }
    } else {
        assert forall|q: int| 0 <= q < group_prefixes(group(h, ts[j])).len()
            implies groups_prefixes(h, t).contains(#[trigger] group_prefixes(group(h, ts[j]))[q]) by {
            assert((pre + g)[pre.len() + q] == g[q]);
        }
    }
}

/// The text of the changes at the first `k` times reads the same with an addressor that extends
/// one in which their prefixes have networks.
proof fn lemma_timed_stable(nb: Seq<char>, h: History, ts: Seq<u64>, k: int, a1: PrefixAddressor, a2: PrefixAddressor)
    requires
        0 <= k <= ts.len(),
        extends(a1, a2),
        all_assigned(a1, groups_prefixes(h, ts.take(k))),
    ensures
        Seq::new(k as nat, |j: int| group_part(nb, group(h, ts[j]), nets_of(a1, group_prefixes(group(h, ts[j]))),
            a1.prefix_len(), (ts[j] - previous_time(ts, j)) as nat))
        == Seq::new(k as nat, |j: int| group_part(nb, group(h, ts[j]), nets_of(a2, group_prefixes(group(h, ts[j]))),
            a2.prefix_len(), (ts[j] - previous_time(ts, j)) as nat)),
{
    assert forall|j: int| 0 <= j < k implies nets_of(a1, group_prefixes(group(h, ts[j])))
        == nets_of(a2, group_prefixes(group(h, ts[j]))) by {
        lemma_groups_contain(h, ts, k, j);
        let g = group_prefixes(group(h, ts[j]));
        assert forall|q: int| 0 <= q < g.len() implies a1.assigned().contains(#[trigger] g[q]) by {
            let x = g[q];
            let w = choose|w: int| 0 <= w < groups_prefixes(h, ts.take(k)).len() && groups_prefixes(h, ts.take(k))[w] == x;
        }
        lemma_nets_stable(a1, a2, g);
    }
    assert(Seq::new(k as nat, |j: int| group_part(nb, group(h, ts[j]), nets_of(a1, group_prefixes(group(h, ts[j]))),
            a1.prefix_len(), (ts[j] - previous_time(ts, j)) as nat))
        =~= Seq::new(k as nat, |j: int| group_part(nb, group(h, ts[j]), nets_of(a2, group_prefixes(group(h, ts[j]))),
            a2.prefix_len(), (ts[j] - previous_time(ts, j)) as nat)));
}

impl ExaBgpCfgGen {
    /// The changes at each of the times `ts`, in order.
    #[verifier::rlimit(40)]
    fn timed_section(&self, nb: &str, ts: &[u64], addressor: &mut PrefixAddressor) -> (r: Result<String, ExportError>)
        requires
            forall|x: int, y: int| 0 <= x < y < ts@.len() ==> ts@[x] < ts@[y],
        ensures
            final(addressor).base() == old(addressor).base(),
            final(addressor).prefix_len() == old(addressor).prefix_len(),
            final(addressor).block() == old(addressor).block(),
            final(addressor).capacity() == old(addressor).capacity(),
            final(addressor).assigned().no_duplicates(),
            r is Ok <==> extend_assigned(old(addressor).assigned(), groups_prefixes(self.history(), ts@)).len()
                <= old(addressor).capacity(),
            r matches Err(e) ==> e == ExportError::NotEnoughAddresses,
            r matches Ok(s) ==> s@ == timed_part(nb@, self.history(), ts@, *final(addressor))
                && final(addressor).assigned() == extend_assigned(old(addressor).assigned(), groups_prefixes(self.history(), ts@)),
    {
        let ghost h = self.history();
        let ghost a0 = *addressor;
        let ghost len = a0.prefix_len();
        addressor.assigned_fits();
        let mut out = String::new();
        let mut k: usize = 0;
        let mut prev: u64 = 0;
        assert(ts@.take(0) =~= Seq::<u64>::empty());
        assert(out@ =~= concat(Seq::new(0, |j: int| group_part(nb@, group(h, ts@[j]),
            nets_of(*addressor, group_prefixes(group(h, ts@[j]))), len, (ts@[j] - previous_time(ts@, j)) as nat))));
        while k < ts.len()
            invariant
                k <= ts@.len(),
                forall|x: int, y: int| 0 <= x < y < ts@.len() ==> ts@[x] < ts@[y],
                prev == previous_time(ts@, k as int),
                h == self.history(),
                a0 == *old(addressor),
                len == a0.prefix_len(),
                a0.assigned().no_duplicates(),
                addressor.base() == a0.base(),
                addressor.prefix_len() == a0.prefix_len(),
                addressor.block() == a0.block(),
                addressor.capacity() == a0.capacity(),
                addressor.assigned().no_duplicates(),
                addressor.assigned().len() <= addressor.capacity(),
                addressor.assigned() == extend_assigned(a0.assigned(), groups_prefixes(h, ts@.take(k as int))),
                out@ == concat(Seq::new(k as nat, |j: int| group_part(nb@, group(h, ts@[j]),
                    nets_of(*addressor, group_prefixes(group(h, ts@[j]))), len, (ts@[j] - previous_time(ts@, j)) as nat))),
            decreases ts@.len() - k,
        {
            let ghost cur = *addressor;
            let ghost tk = ts@.take(k + 1);
            proof {
                assert(tk.drop_last() =~= ts@.take(k as int));
                assert(tk.last() == ts@[k as int]);
                if k > 0 {
                    assert(ts@[k - 1] < ts@[k as int]);
                }
            }
            let t = ts[k];
            let g = self.group_section(nb, t, t - prev, addressor);
            proof {
                let gp = group_prefixes(group(h, t));
                lemma_extend_concat(a0.assigned(), groups_prefixes(h, ts@.take(k as int)), gp);
                lemma_groups_prefix(h, ts@, k + 1);
            }
            let g = match g {
                Ok(g) => g,
                Err(e) => {
                    proof {
                        lemma_extend_prefix_len(a0.assigned(), groups_prefixes(h, tk), groups_prefixes(h, ts@));
                    }
                    return Err(e);
                },
            };
            addressor.assigned_fits();
            proof {
                let nxt = *addressor;
                let gp = group_prefixes(group(h, t));
                lemma_extend_assigned(cur.assigned(), gp);
                assert(extends(cur, nxt));
                lemma_extend_assigned(a0.assigned(), groups_prefixes(h, ts@.take(k as int)));
                lemma_timed_stable(nb@, h, ts@, k as int, cur, nxt);
                lemma_concat_new(k as nat, |j: int| group_part(nb@, group(h, ts@[j]),
                    nets_of(nxt, group_prefixes(group(h, ts@[j]))), len, (ts@[j] - previous_time(ts@, j)) as nat));
            }
            out.append(g.as_str());
            prev = t;
            k = k + 1;
        }
        assert(ts@.take(ts@.len() as int) =~= ts@);
        Ok(out)
    }
}

/// `x` begins `x + y`.
proof fn lemma_prefix_of_concat(x: Seq<Prefix>, y: Seq<Prefix>)
    ensures
        is_prefix_of(x, x + y),
{
    assert((x + y).take(x.len() as int) =~= x);
}

impl ExaBgpCfgGen {
    /// The Python script that replays the history of the routes forever to the neighbors, whose
    /// addresses are `neighbor_addrs`: the routes that never change are announced once; then,
    /// in a loop, the changes at each time, ordered by time and each after a pause from the
    /// previous time, a pause of the repeat time, and the withdrawal of the prefixes that are
    /// not advertised at the start. Fails with `NotEnoughAddresses` if the prefixes do not fit
    /// the addressor.
    pub fn generate_script(&self, neighbor_addrs: &[u32], addressor: &mut PrefixAddressor)
        -> (r: Result<String, ExportError>)
        ensures
            final(addressor).base() == old(addressor).base(),
            final(addressor).prefix_len() == old(addressor).prefix_len(),
            final(addressor).block() == old(addressor).block(),
            final(addressor).capacity() == old(addressor).capacity(),
            exists|ts: Seq<u64>| times_of(ts, self.history()),
            forall|ts: Seq<u64>| times_of(ts, self.history()) ==> (r is Ok
                <==> extend_assigned(old(addressor).assigned(), script_requests(self.history(), ts)).len()
                    <= old(addressor).capacity()),
            r matches Err(e) ==> e == ExportError::NotEnoughAddresses,
            forall|ts: Seq<u64>| times_of(ts, self.history()) ==> (r matches Ok(s)
                ==> s@ == script_text(self.history(), neighbor_addrs@, ts, self.repeat_time_spec(), *final(addressor))
                && final(addressor).assigned() == extend_assigned(old(addressor).assigned(), script_requests(self.history(), ts))),
    {
        let ghost h = self.history();
        let ghost a0 = *addressor;
        addressor.assigned_fits();
        let ts = self.change_times_exec();
        let ghost c = route_view_prefixes(constant_routes(h));
        let ghost g = groups_prefixes(h, ts@);
        let ghost w = late_prefixes(h);
        proof {
            assert forall|ts2: Seq<u64>| times_of(ts2, h) implies ts2 == ts@ by {
                lemma_increasing_unique(ts2, ts@);
            }
            assert(script_requests(h, ts@) == c + g + w);
            lemma_extend_concat(a0.assigned(), c, g);
            lemma_extend_concat(a0.assigned(), c + g, w);
            lemma_prefix_of_concat(c, g + w);
            assert(c + (g + w) =~= c + g + w);
            lemma_prefix_of_concat(c + g, w);
            lemma_extend_prefix_len(a0.assigned(), c, c + g + w);
            lemma_extend_prefix_len(a0.assigned(), c + g, c + g + w);
        }
        let nb = neighbors_line(neighbor_addrs);
        let cs = match self.constant_section(nb.as_str(), addressor) {
            Ok(x) => x,
            Err(e) => {
                return Err(e);
            },
        };
        let ghost a1 = *addressor;
        let tp = match self.timed_section(nb.as_str(), ts.as_slice(), addressor) {
            Ok(x) => x,
            Err(e) => {
                return Err(e);
            },
        };
        let ghost a2 = *addressor;
        let lp = match self.late_section(addressor) {
            Ok(x) => x,
            Err(e) => {
                return Err(e);
            },
        };
        let ghost a3 = *addressor;
        let mut out = String::new();
        out.append("#!/usr/bin/env python3\n\nimport sys\nimport time\n\n\n");
        out.append(cs.as_str());
        out.append("while True:\n");
        out.append(tp.as_str());
        out.append("    time.sleep(");
        push_secs(&mut out, self.repeat_time);
        out.append(")\n");
        out.append(lp.as_str());
        proof {
            lemma_extend_concat(a1.assigned(), g, w);
            lemma_extend_assigned(a1.assigned(), g + w);
            assert(extends(a1, a3));
            lemma_extend_assigned(a0.assigned(), c);
            lemma_nets_stable(a1, a3, c);
            lemma_extend_assigned(a2.assigned(), w);
            assert(extends(a2, a3));
            lemma_extend_assigned(a1.assigned(), g);
            assert(ts@.take(ts@.len() as int) =~= ts@);
            lemma_timed_stable(nb@, h, ts@, ts@.len() as int, a2, a3);
            assert(out@ =~= script_text(h, neighbor_addrs@, ts@, self.repeat_time, a3));
        }
        Ok(out)
    }
}

/// Insert a router into routers ordered by id, unless it is there already.
fn insert_router(v: &mut Vec<RouterId>, x: RouterId)
    requires
        ids_increasing(old(v)@),
    ensures
        ids_increasing(final(v)@),
        final(v)@.to_set() == old(v)@.to_set().insert(x),
{
    let mut i: usize = 0;
    while i < v.len() && v[i].0 < x.0
        invariant
            i <= v@.len(),
            v@ == old(v)@,
            forall|k: int| 0 <= k < i ==> v@[k].0 < x.0,
        decreases v@.len() - i,
    {
        i = i + 1;
    }
    if i < v.len() && v[i].0 == x.0 {
        assert(v@[i as int] == x);
        assert(v@.to_set() =~= old(v)@.to_set().insert(x)) by {
            assert(v@.to_set().contains(x));
        }
    } else {
        let ghost o = v@;
        v.insert(i, x);
        proof {
            let n = v@;
            assert forall|a: int, b: int| 0 <= a < b < n.len() implies n[a].0 < n[b].0 by {
                if a < i && b > i {
                    assert(n[b] == o[b - 1]);
                    if b - 1 > i {
                        assert(o[i as int].0 < o[b - 1].0);
                    }
                } else if a == i {
                    assert(n[b] == o[b - 1]);
                    if b - 1 > i {
                        assert(o[i as int].0 < o[b - 1].0);
                    }
                } else if a > i {
                    assert(n[a] == o[a - 1] && n[b] == o[b - 1]);
                }
            }
            assert forall|y: RouterId| n.to_set().contains(y) == o.to_set().insert(x).contains(y) by {
                if n.to_set().contains(y) {
                    let w = choose|w: int| 0 <= w < n.len() && n[w] == y;
                    if w < i {
                        assert(o[w] == y);
                    } else if w > i {
                        assert(o[w - 1] == y);
                    }
                }
                if o.to_set().contains(y) {
                    let w = choose|w: int| 0 <= w < o.len() && o[w] == y;
                    if w < i {
                        assert(n[w] == y);
                    } else {
                        assert(n[w + 1] == y);
                    }
                }
                if y == x {
                    assert(n[i as int] == x);
                }
            }
            assert(n.to_set() =~= o.to_set().insert(x));
        }
    }
}

/// The history in which every route of `routes` is advertised from the start.
pub open spec fn initial_history(routes: Map<Prefix, BgpRouteView>) -> Map<Prefix, Map<u64, Option<BgpRouteView>>> {
    Map::new(|p: Prefix| routes.contains_key(p), |p: Prefix| Map::empty().insert(0u64, Some(routes[p])))
}

/// The sessions with the neighbors, for the router at `router_addr` that talks from
/// `local_address` in AS `as_id`, separated by newlines.
pub open spec fn sessions_text(addrs: Seq<u32>, router_addr: u32, local_address: u32, as_id: AsId) -> Seq<char> {
    join(addrs.map_values(|x: u32| neighbor_cfg_text(x, router_addr, local_address, as_id)), "\n"@)
}

impl ExaBgpCfgGen {
    /// A generator for the external router `router` that talks from `local_address`: each of
    /// its routes is advertised from the start, it has its sessions, the current time is the
    /// start and the repeat time is ten seconds.
    pub fn new(router: &ExternalRouter, local_address: u32) -> (g: ExaBgpCfgGen)
        ensures
            g.router_spec() == router.id_spec(),
            g.as_spec() == router.as_spec(),
            g.local_address_spec() == local_address,
            g.current_time_spec() == 0,
            g.repeat_time_spec() == TEN_SECONDS,
            g.neighbors_spec().to_set() == router.state().neighbors,
            history_map(g.history()) == initial_history(router.state().routes),
    {
        let mut g = ExaBgpCfgGen {
            router: router.router_id(),
            as_id: router.as_id(),
            routes: Vec::new(),
            neighbors: Vec::new(),
            local_address,
            current_time: 0,
            repeat_time: TEN_SECONDS,
        };
        let ns = router.neighbors();
        let mut i: usize = 0;
        let mut neighbors: Vec<RouterId> = Vec::new();
        assert(ns@.take(0).to_set() =~= Set::<RouterId>::empty());
        assert(neighbors@.to_set() =~= Set::<RouterId>::empty());
        while i < ns.len()
            invariant
                i <= ns@.len(),
                ids_increasing(neighbors@),
                neighbors@.to_set() == ns@.take(i as int).to_set(),
            decreases ns@.len() - i,
        {
            insert_router(&mut neighbors, ns[i]);
            assert(ns@.take(i + 1) =~= ns@.take(i as int).push(ns@[i as int]));
            assert(ns@.take(i + 1).to_set() =~= ns@.take(i as int).to_set().insert(ns@[i as int])) by {
                ns@.take(i as int).lemma_push_to_set_commute(ns@[i as int]);
            }
            i = i + 1;
        }
        assert(ns@.take(ns@.len() as int) =~= ns@);
        g.neighbors = neighbors;
        let routes = router.get_advertised_routes();
        let ghost es = crate::external_router::route_entries(routes@);
        let mut k: usize = 0;
        assert(history_map(g.history()) =~= initial_history(assoc_map(es.take(0)))) by {
            assert(g.history() =~= Seq::<(Prefix, Seq<(u64, Option<BgpRouteView>)>)>::empty());
        }
        while k < routes.len()
            invariant
                k <= routes@.len(),
                es == crate::external_router::route_entries(routes@),
                keys_distinct(es),
                g.router_spec() == router.id_spec(),
                g.as_spec() == router.as_spec(),
                g.local_address_spec() == local_address,
                g.current_time_spec() == 0,
                g.repeat_time_spec() == TEN_SECONDS,
                g.neighbors_spec().to_set() == router.state().neighbors,
                history_map(g.history()) == initial_history(assoc_map(es.take(k as int))),
            decreases routes@.len() - k,
        {
            let r = routes[k].clone();
            let ghost before = history_map(g.history());
            g.record(r.prefix, Some(r));
            proof {
                let tk = es.take(k as int);
                let tk1 = es.take(k + 1);
                assert(tk1 =~= tk.push(es[k as int]));
                assert(keys_distinct(tk)) by {
                    assert forall|x: int, y: int| 0 <= x < tk.len() && 0 <= y < tk.len() && x != y implies tk[x].0 != tk[y].0 by {
                        assert(tk[x] == es[x] && tk[y] == es[y]);
                    }
                }
                assert(!assoc_map(tk).contains_key(es[k as int].0)) by {
                    if assoc_map(tk).contains_key(es[k as int].0) {
                        let w = choose|w: int| 0 <= w < tk.len() && tk[w].0 == es[k as int].0;
                        assert(es[w].0 == es[k as int].0);
                    }
                }
                crate::assoc::lemma_assoc_push(tk, es[k as int]);
                assert(!before.contains_key(es[k as int].0));
                assert(history_map(g.history()) =~= initial_history(assoc_map(tk1)));
            }
            k = k + 1;
        }
        assert(es.take(es.len() as int) =~= es);
        g
    }

    /// Record a session with `neighbor` and give the sessions with all neighbors, whose
    /// addresses are `neighbor_addrs`, for the router at `router_addr`.
    pub fn establish_ebgp_session(&mut self, neighbor: RouterId, neighbor_addrs: &[u32], router_addr: u32) -> (r: String)
        ensures
            final(self).neighbors_spec().to_set() == old(self).neighbors_spec().to_set().insert(neighbor),
            final(self).history() == old(self).history(),
            final(self).router_spec() == old(self).router_spec(),
            final(self).as_spec() == old(self).as_spec(),
            final(self).local_address_spec() == old(self).local_address_spec(),
            final(self).current_time_spec() == old(self).current_time_spec(),
            final(self).repeat_time_spec() == old(self).repeat_time_spec(),
            r@ == sessions_text(neighbor_addrs@, router_addr, old(self).local_address_spec(), old(self).as_spec()),
    {
        proof { use_type_invariant(&*self); }
        let mut ns: Vec<RouterId> = Vec::new();
        std::mem::swap(&mut ns, &mut self.neighbors);
        insert_router(&mut ns, neighbor);
        self.neighbors = ns;
        self.generate_config(neighbor_addrs, router_addr)
    }

    /// The sessions with the neighbors, whose addresses are `neighbor_addrs`, for the router at
    /// `router_addr`, separated by newlines.
    pub fn generate_config(&self, neighbor_addrs: &[u32], router_addr: u32) -> (r: String)
        ensures
            r@ == sessions_text(neighbor_addrs@, router_addr, self.local_address_spec(), self.as_spec()),
    {
        let ghost parts = neighbor_addrs@.map_values(|x: u32| neighbor_cfg_text(x, router_addr, self.local_address, self.as_id));
        let mut s = String::new();
        let mut i: usize = 0;
        assert(parts.take(0) =~= Seq::<Seq<char>>::empty());
        while i < neighbor_addrs.len()
            invariant
                i <= neighbor_addrs@.len(),
                parts == neighbor_addrs@.map_values(|x: u32| neighbor_cfg_text(x, router_addr, self.local_address, self.as_id)),
                s@ == join(parts.take(i as int), "\n"@),
            decreases neighbor_addrs@.len() - i,
        {
            let ghost before = s@;
            proof {
                assert(parts.take(i + 1).drop_last() =~= parts.take(i as int));
                assert(parts.take(i + 1).last() == parts[i as int]);
            }
            if i > 0 {
                s.append("\n");
            }
            let cfg = neighbor_cfg(neighbor_addrs[i], router_addr, self.local_address, self.as_id);
            s.append(cfg.as_str());
            proof {
                if i == 0 {
                    assert(parts.take(1).len() == 1);
                    assert(s@ =~= parts[0]);
                } else {
                    assert(s@ =~= before + "\n"@ + parts[i as int]);
                }
            }
            i = i + 1;
        }
        assert(parts.take(neighbor_addrs@.len() as int) =~= parts);
        s
    }

    /// Advertise `route` from the current time on, and give the script that replays the
    /// history to the neighbors at `neighbor_addrs`.
    pub fn advertise_route(&mut self, neighbor_addrs: &[u32], addressor: &mut PrefixAddressor, route: &BgpRoute)
        -> (r: Result<String, ExportError>)
        ensures
            history_map(final(self).history()) == with_change(history_map(old(self).history()), route.prefix,
                old(self).current_time_spec(), Some(route@)),
            final(self).neighbors_spec() == old(self).neighbors_spec(),
            final(self).router_spec() == old(self).router_spec(),
            final(self).as_spec() == old(self).as_spec(),
            final(self).local_address_spec() == old(self).local_address_spec(),
            final(self).current_time_spec() == old(self).current_time_spec(),
            final(self).repeat_time_spec() == old(self).repeat_time_spec(),
            final(addressor).base() == old(addressor).base(),
            final(addressor).prefix_len() == old(addressor).prefix_len(),
            final(addressor).block() == old(addressor).block(),
            final(addressor).capacity() == old(addressor).capacity(),
            forall|ts: Seq<u64>| times_of(ts, final(self).history()) ==> (r is Ok
                <==> extend_assigned(old(addressor).assigned(), script_requests(final(self).history(), ts)).len()
                    <= old(addressor).capacity()),
            r matches Err(e) ==> e == ExportError::NotEnoughAddresses,
            forall|ts: Seq<u64>| times_of(ts, final(self).history()) ==> (r matches Ok(s)
                ==> s@ == script_text(final(self).history(), neighbor_addrs@, ts, final(self).repeat_time_spec(), *final(addressor))),
    {
        let r = route.clone();
        self.record(route.prefix, Some(r));
        self.generate_script(neighbor_addrs, addressor)
    }

    /// Withdraw the route of `prefix` from the current time on, and give the script that
    /// replays the history to the neighbors at `neighbor_addrs`.
    pub fn withdraw_route(&mut self, neighbor_addrs: &[u32], addressor: &mut PrefixAddressor, prefix: Prefix)
        -> (r: Result<String, ExportError>)
        ensures
            history_map(final(self).history()) == with_change(history_map(old(self).history()), prefix,
                old(self).current_time_spec(), None),
            final(self).neighbors_spec() == old(self).neighbors_spec(),
            final(self).router_spec() == old(self).router_spec(),
            final(self).as_spec() == old(self).as_spec(),
            final(self).local_address_spec() == old(self).local_address_spec(),
            final(self).current_time_spec() == old(self).current_time_spec(),
            final(self).repeat_time_spec() == old(self).repeat_time_spec(),
            final(addressor).base() == old(addressor).base(),
            final(addressor).prefix_len() == old(addressor).prefix_len(),
            final(addressor).block() == old(addressor).block(),
            final(addressor).capacity() == old(addressor).capacity(),
            forall|ts: Seq<u64>| times_of(ts, final(self).history()) ==> (r is Ok
                <==> extend_assigned(old(addressor).assigned(), script_requests(final(self).history(), ts)).len()
                    <= old(addressor).capacity()),
            r matches Err(e) ==> e == ExportError::NotEnoughAddresses,
            forall|ts: Seq<u64>| times_of(ts, final(self).history()) ==> (r matches Ok(s)
                ==> s@ == script_text(final(self).history(), neighbor_addrs@, ts, final(self).repeat_time_spec(), *final(addressor))),
    {
        self.record(prefix, None);
        self.generate_script(neighbor_addrs, addressor)
    }
}

/// The announcement of a route names its network, the AS path in brackets, the MED as metric
/// when the route has one, and the community as an extended community of the internal AS.
pub proof fn law_announce_text(path: Seq<AsId>, med: Option<u32>, community: Option<u32>, net: u32, len: u8)
    ensures
        is_infix("announce route "@ + ipv4_net_str(net, len) + " next-hop self as-path ["@ + as_list_str(path) + "]"@,
            announce_text(path, med, community, net, len)),
        med matches Some(m) ==> is_infix(" metric "@ + nat_str(m as nat), announce_text(path, med, community, net, len)),
        community matches Some(c) ==> is_infix(" extended-community ["@ + nat_str(INTERNAL_AS as nat) + ":"@
            + nat_str(c as nat) + "]"@, announce_text(path, med, community, net, len)),
{
    let t = announce_text(path, med, community, net, len);
    let e = Seq::<char>::empty();
    let a = "announce route "@ + ipv4_net_str(net, len) + " next-hop self as-path ["@ + as_list_str(path) + "]"@;
    let m = match med {
        Some(m) => " metric "@ + nat_str(m as nat),
        None => Seq::<char>::empty(),
    };
    let c = match community {
        Some(c) => " extended-community ["@ + nat_str(INTERNAL_AS as nat) + ":"@ + nat_str(c as nat) + "]"@,
        None => Seq::<char>::empty(),
    };
    assert(t =~= e + a + (m + c));
    lemma_infix_mid(e, a, m + c);
    assert(t =~= a + m + c);
    lemma_infix_mid(a, m, c);
    assert(t =~= (a + m) + c + e);
    lemma_infix_mid(a + m, c, e);
}

/// The session with a neighbor names the neighbor and the router, the local address, the AS of
/// the router as local AS and the internal AS as peer AS.
pub proof fn law_neighbor_cfg_text(neighbor_addr: u32, router_addr: u32, local_address: u32, as_id: AsId)
    ensures
        is_infix("neighbor "@ + ipv4_str(neighbor_addr) + " {\n    router-id "@ + ipv4_str(router_addr),
            neighbor_cfg_text(neighbor_addr, router_addr, local_address, as_id)),
        is_infix(";\n    local-address "@ + ipv4_str(local_address) + ";\n    local-as "@ + nat_str(as_id.0 as nat)
            + ";\n    peer-as "@ + nat_str(INTERNAL_AS as nat), neighbor_cfg_text(neighbor_addr, router_addr, local_address, as_id)),
{
    let t = neighbor_cfg_text(neighbor_addr, router_addr, local_address, as_id);
    let e = Seq::<char>::empty();
    let a = "neighbor "@ + ipv4_str(neighbor_addr) + " {\n    router-id "@ + ipv4_str(router_addr);
    let b = ";\n    local-address "@ + ipv4_str(local_address) + ";\n    local-as "@ + nat_str(as_id.0 as nat)
        + ";\n    peer-as "@ + nat_str(INTERNAL_AS as nat);
    let c = ";\n    hold-time 180;\n    family { ipv4 unicast; }\n}"@;
    assert(t =~= e + a + (b + c));
    lemma_infix_mid(e, a, b + c);
    assert(t =~= a + b + c);
    lemma_infix_mid(a, b, c);
}

/// Each round of the script pauses, before the changes at each time, for the time since the
/// previous change (or since the start), and pauses for the repeat time before starting over.
pub proof fn law_script_pauses(h: History, addrs: Seq<u32>, ts: Seq<u64>, repeat: u64, a: PrefixAddressor, k: int)
    requires
        0 <= k < ts.len(),
    ensures
        is_infix("    time.sleep("@ + secs_str((ts[k] - (if k == 0 { 0 } else { ts[k - 1] })) as nat) + ")\n"@,
            script_text(h, addrs, ts, repeat, a)),
        is_infix("    time.sleep("@ + secs_str(repeat as nat) + ")\n"@, script_text(h, addrs, ts, repeat, a)),
{
    let nb = neighbors_text(addrs);
    let len = a.prefix_len();
    let parts = Seq::new(ts.len(), |j: int| group_part(nb, group(h, ts[j]), nets_of(a, group_prefixes(group(h, ts[j]))),
        len, (ts[j] - previous_time(ts, j)) as nat));
    let tp = timed_part(nb, h, ts, a);
    assert(tp == concat(parts));
    lemma_concat_part(parts, k);
    let g = group(h, ts[k]);
    let sleep = "    time.sleep("@ + secs_str((ts[k] - previous_time(ts, k)) as nat) + ")\n"@;
    let body = concat(Seq::new(g.len(), |i: int| change_line(nb, g[i], nets_of(a, group_prefixes(g))[i], len)))
        + "    sys.stdout.flush()\n"@;
    assert(parts[k] =~= Seq::<char>::empty() + sleep + body);
    lemma_infix_mid(Seq::empty(), sleep, body);
    lemma_infix_trans(sleep, parts[k], tp);
    let head = "#!/usr/bin/env python3\n\nimport sys\nimport time\n\n\n"@
        + constant_part(nb, constant_routes(h), nets_of(a, route_view_prefixes(constant_routes(h))), len)
        + "while True:\n"@;
    let rep = "    time.sleep("@ + secs_str(repeat as nat) + ")\n"@;
    let late = late_part(late_prefixes(h), nets_of(a, late_prefixes(h)), len);
    let t = script_text(h, addrs, ts, repeat, a);
    assert(t =~= head + tp + (rep + late));
    lemma_infix_extend(sleep, tp, head, rep + late);
    assert(t =~= (head + tp) + rep + late);
    lemma_infix_mid(head + tp, rep, late);
}

} // verus!
