//! Configuration of route-map items and basic blocks for Cisco IOS.

use vstd::prelude::*;

use crate::export::common::{
    distinct, matched_as_path, matched_communities, matched_next_hops, nonempty_distinct, order,
    prefix_list, removed_communities, rm_match_as_path_list, rm_match_community_list,
    rm_match_prefix_list, rm_unset_community_list,
};
use crate::bgp::BgpRoute;
use crate::export::loopbacks::{
    has_right, injective, loopback_pairs, loopbacks_contains_left, loopbacks_contains_right,
    loopbacks_insert, loopbacks_new, loopbacks_remove_by_right, without_right,
};
use crate::export::{assigns, network_of, ExportError, PrefixAddressor};
use crate::route_map::{RouteMap, RouteMapDirection, RouteMapSet, RouteMapState};
use crate::text::{
    ipv4_net_str, ipv4_str, is_infix, join, lemma_infix_extend, lemma_infix_mid, lemma_infix_trans, lemma_join_part, nat_str, push_ipv4, push_ipv4_net,
    push_u64,
};
use crate::types::{AsId, BgpSessionType, LinkWeight, Prefix, RouterId};
use bimap::BiHashMap;

verus! {

/// The configuration sequence number of a route-map order.
pub open spec fn ord_str(o: i16) -> Seq<char> {
    nat_str((o + 32768) as nat)
}

/// The name of the route-map of one direction of a session.
pub open spec fn dir_name(name: Seq<char>, dir: RouteMapDirection) -> Seq<char> {
    match dir {
        RouteMapDirection::Incoming => name + "-in"@,
        RouteMapDirection::Outgoing => name + "-out"@,
    }
}

/// The lines of a prefix list, numbered from 1: one `permit` line for each of the first `n`
/// networks.
pub open spec fn pl_lines(list: Seq<char>, nets: Seq<u32>, len: u8, n: nat) -> Seq<char>
    decreases n,
{
    if n == 0 {
        Seq::empty()
    } else {
        pl_lines(list, nets, len, (n - 1) as nat) + "\nip prefix-list "@ + list + " seq "@
            + nat_str(n) + " permit "@ + ipv4_net_str(nets[n - 1], len)
    }
}

/// `as:community` for each of the first `n` communities, separated by spaces.
pub open spec fn comm_items(as_id: u32, cs: Seq<u32>, n: nat) -> Seq<char>
    decreases n,
{
    if n == 0 {
        Seq::empty()
    } else if n == 1 {
        nat_str(as_id as nat) + ":"@ + nat_str(cs[0] as nat)
    } else {
        comm_items(as_id, cs, (n - 1) as nat) + " "@ + nat_str(as_id as nat) + ":"@
            + nat_str(cs[n - 1] as nat)
    }
}

/// The configuration line of a single set action (empty for removing a community, which is done
/// with a community list).
pub open spec fn set_clause(as_id: u32, s: RouteMapSet) -> Seq<char> {
    match s {
        RouteMapSet::Weight(Some(w)) => "\n  set weight "@ + nat_str(w as nat),
        RouteMapSet::Weight(None) => "\n  set weight 100"@,
        RouteMapSet::LocalPref(Some(lp)) => "\n  set local-preference "@ + nat_str(lp as nat),
        RouteMapSet::LocalPref(None) => "\n  set local-preference 100"@,
        RouteMapSet::Med(Some(m)) => "\n  set metric "@ + nat_str(m as nat),
        RouteMapSet::Med(None) => "\n  set metric 0"@,
        RouteMapSet::SetCommunity(c) => "\n  set community "@ + nat_str(as_id as nat) + ":"@ + nat_str(c as nat),
        _ => Seq::empty(),
    }
}

/// The configuration lines of the first `n` set actions.
pub open spec fn set_clauses(as_id: u32, set: Seq<RouteMapSet>, n: nat) -> Seq<char>
    decreases n,
{
    if n == 0 {
        Seq::empty()
    } else {
        set_clauses(as_id, set, (n - 1) as nat) + set_clause(as_id, set[n - 1])
    }
}

/// `name-order`, the prefix of the names of all lists belonging to one route-map item.
pub open spec fn item_id(name: Seq<char>, o: i16) -> Seq<char> {
    name + "-"@ + ord_str(o)
}

/// `permit` or `deny`.
pub open spec fn state_str(s: RouteMapState) -> Seq<char> {
    match s {
        RouteMapState::Allow => "permit"@,
        RouteMapState::Deny => "deny"@,
    }
}

/// The statement that makes the previous item continue at `target`, if the previous item permits.
pub open spec fn update_last(name: Seq<char>, last: Option<(i16, RouteMapState)>, target: i16) -> Seq<char> {
    match last {
        Some((o, RouteMapState::Allow)) => "route-map "@ + name + " permit "@ + ord_str(o)
            + "\n  continue "@ + ord_str(target) + "\nexit\n"@,
        _ => Seq::empty(),
    }
}

/// The complete configuration of a route-map item named `name` (already carrying its direction),
/// where `nets` are the networks of the matched prefixes (of length `len`).
pub open spec fn rm_item_text(
    as_id: u32,
    name: Seq<char>,
    rm: RouteMap,
    nets: Option<Seq<u32>>,
    len: u8,
    last: Option<(i16, RouteMapState)>,
    next_item: i16,
) -> Seq<char> {
    let id = item_id(name, rm.order);
    let (pl, pl_match) = match nets {
        Some(n) => (pl_lines(id + "-pl"@, n, len, n.len()), "\n  match ip address "@ + id + "-pl"@),
        None => (Seq::empty(), Seq::empty()),
    };
    let (cl, cl_match) = match nonempty_distinct(matched_communities(rm.conds@)) {
        Some(cs) => ("\nip community-list standard "@ + id + "-cl permit "@ + comm_items(as_id, cs, cs.len()),
            "\n  match community "@ + id + "-cl"@),
        None => (Seq::empty(), Seq::empty()),
    };
    let ases = matched_as_path(rm.conds@);
    let (asl, asl_match) = if ases.len() > 0 {
        ("\nip as-path access-list "@ + id + "-asl permit "@ + "_"@ + nat_str(ases[0].0 as nat) + "_"@,
            "\n  match as-path "@ + id + "-asl"@)
    } else {
        (Seq::empty(), Seq::empty())
    };
    let (rmcl, rmcl_set) = match nonempty_distinct(removed_communities(rm.set@)) {
        Some(cs) => ("\nip community-list standard "@ + id + "-cl-rm permit "@ + comm_items(as_id, cs, cs.len()),
            "\n  set comm-list "@ + id + "-cl-rm delete"@),
        None => (Seq::empty(), Seq::empty()),
    };
    let cont = if rm.state == RouteMapState::Allow { "\n  continue "@ + ord_str(next_item) } else { Seq::empty() };
    "!"@ + pl + cl + asl + rmcl + "\nroute-map "@ + name + " "@ + state_str(rm.state) + " "@ + ord_str(rm.order)
        + pl_match + cl_match + asl_match + set_clauses(as_id, rm.set@, rm.set@.len()) + rmcl_set + cont
        + "\nexit\n"@ + update_last(name, last, rm.order)
}

/// The prefixes assigned after requesting networks for `ps` in order (ignoring capacity).
pub open spec fn extend_assigned(a: Seq<Prefix>, ps: Seq<Prefix>) -> Seq<Prefix>
    decreases ps.len(),
{
    if ps.len() == 0 {
        a
    } else {
        let e = extend_assigned(a, ps.drop_last());
        if e.contains(ps.last()) { e } else { e.push(ps.last()) }
    }
}

/// The position of an element in a sequence without duplicates.
pub proof fn lemma_index_of_unique<T>(s: Seq<T>, i: int)
    requires
        s.no_duplicates(),
        0 <= i < s.len(),
    ensures
        s.index_of(s[i]) == i,
{
    assert(s.contains(s[i]));
}

/// Appending to a sequence without duplicates keeps the position of the earlier elements.
pub proof fn lemma_index_of_push<T>(s: Seq<T>, x: T, y: T)
    requires
        s.push(x).no_duplicates(),
        s.contains(y),
    ensures
        s.push(x).index_of(y) == s.index_of(y),
{
    let i = choose|i: int| 0 <= i < s.len() && s[i] == y;
    assert(s.no_duplicates()) by {
        assert forall|a: int, b: int| 0 <= a < s.len() && 0 <= b < s.len() && a != b implies s[a] != s[b] by {
            assert(s.push(x)[a] == s[a] && s.push(x)[b] == s[b]);
        }
    }
    lemma_index_of_unique(s, i);
    assert(s.push(x)[i] == y);
    lemma_index_of_unique(s.push(x), i);
}

/// Request the networks of `ps`, in order. Succeeds if all of them fit into the addressor.
pub fn prefix_networks(addressor: &mut PrefixAddressor, ps: &Vec<Prefix>) -> (r: Result<Vec<u32>, ExportError>)
    ensures
        final(addressor).base() == old(addressor).base(),
        final(addressor).prefix_len() == old(addressor).prefix_len(),
        final(addressor).block() == old(addressor).block(),
        final(addressor).capacity() == old(addressor).capacity(),
        r is Ok <==> extend_assigned(old(addressor).assigned(), ps@).len() <= old(addressor).capacity(),
        r matches Err(e) ==> e == ExportError::NotEnoughAddresses,
        r matches Ok(nets) ==> {
            &&& final(addressor).assigned() == extend_assigned(old(addressor).assigned(), ps@)
            &&& nets@.len() == ps@.len()
            &&& forall|i: int| 0 <= i < ps@.len() ==> #[trigger] nets@[i]
                == final(addressor).net_addr(final(addressor).assigned().index_of(ps@[i]))
        },
{
    addressor.assigned_fits();
    let mut nets: Vec<u32> = Vec::new();
    let mut k: usize = 0;
    assert(ps@.take(0) =~= Seq::<Prefix>::empty());
    while k < ps.len()
        invariant
            k <= ps@.len(),
            addressor.base() == old(addressor).base(),
            addressor.prefix_len() == old(addressor).prefix_len(),
            addressor.block() == old(addressor).block(),
            addressor.capacity() == old(addressor).capacity(),
            addressor.assigned() == extend_assigned(old(addressor).assigned(), ps@.take(k as int)),
            addressor.assigned().no_duplicates(),
            addressor.assigned().len() <= addressor.capacity(),
            nets@.len() == k,
            forall|i: int| 0 <= i < k ==> addressor.assigned().contains(ps@[i]),
            forall|i: int| 0 <= i < k ==> #[trigger] nets@[i]
                == addressor.net_addr(addressor.assigned().index_of(ps@[i])),
        decreases ps@.len() - k,
    {
        let ghost before = addressor.assigned();
        assert(ps@.take(k + 1).drop_last() =~= ps@.take(k as int));
        let r = addressor.prefix(ps[k]);
        match r {
            Err(e) => {
                proof {
                    let p = ps@[k as int];
                    assert(!before.contains(p));
                    if before.len() < addressor.capacity() {
                        assert(addressor.assigned() == before.push(p));
                        assert(addressor.assigned().contains(p)) by {
                            assert(before.push(p)[before.len() as int] == p);
                        }
                    }
                    assert(extend_assigned(old(addressor).assigned(), ps@.take(k + 1)) == before.push(p));
                    lemma_extend_len(old(addressor).assigned(), ps@, k as int + 1);
                }
                return Err(e);
            },
            Ok(n) => {
                proof {
                    assert forall|i: int| 0 <= i < k implies addressor.assigned().contains(#[trigger] ps@[i]) by {
                        let j = choose|j: int| 0 <= j < before.len() && before[j] == ps@[i];
                        assert(addressor.assigned()[j] == ps@[i]);
                    }
                    if !before.contains(ps@[k as int]) {
                        assert forall|i: int| 0 <= i < k implies #[trigger] addressor.assigned().index_of(ps@[i]) == before.index_of(ps@[i]) by {
                            lemma_index_of_push(before, ps@[k as int], ps@[i]);
                        }
                    }
                }
                nets.push(n.0);
            },
        }
        k = k + 1;
    }
    assert(ps@.take(ps@.len() as int) =~= ps@);
    Ok(nets)
}

/// Extending by a prefix of the list never yields more prefixes than extending by all of it.
proof fn lemma_extend_len(a: Seq<Prefix>, ps: Seq<Prefix>, n: int)
    requires
        0 <= n <= ps.len(),
    ensures
        extend_assigned(a, ps.take(n)).len() <= extend_assigned(a, ps).len(),
    decreases ps.len() - n,
{
    if n < ps.len() {
        lemma_extend_len(a, ps, n + 1);
        assert(ps.take(n + 1).drop_last() =~= ps.take(n));
    } else {
        assert(ps.take(n) =~= ps);
    }
}

/// Append `name-order` to `s`.
fn push_item_id(s: &mut String, name: &String, o: i16)
    ensures
        final(s)@ == old(s)@ + item_id(name@, o),
{
    s.append(name.as_str());
    s.append("-");
    push_u64(s, order(o) as u64);
    assert(final(s)@ =~= old(s)@ + item_id(name@, o));
}

/// Append the lines of a prefix list to `s`.
fn push_pl_lines(s: &mut String, list: &String, nets: &Vec<u32>, len: u8)
    ensures
        final(s)@ == old(s)@ + pl_lines(list@, nets@, len, nets@.len()),
{
    let mut i: usize = 0;
    while i < nets.len()
        invariant
            i <= nets@.len(),
            s@ == old(s)@ + pl_lines(list@, nets@, len, i as nat),
        decreases nets@.len() - i,
    {
        s.append("\nip prefix-list ");
        s.append(list.as_str());
        s.append(" seq ");
        push_u64(s, (i + 1) as u64);
        s.append(" permit ");
        push_ipv4_net(s, nets[i], len);
        i = i + 1;
        assert(s@ =~= old(s)@ + pl_lines(list@, nets@, len, i as nat));
    }
}

/// Append `as:community` for each community, separated by spaces.
fn push_comm_items(s: &mut String, as_id: u32, cs: &Vec<u32>)
    ensures
        final(s)@ == old(s)@ + comm_items(as_id, cs@, cs@.len()),
{
    let mut i: usize = 0;
    while i < cs.len()
        invariant
            i <= cs@.len(),
            s@ == old(s)@ + comm_items(as_id, cs@, i as nat),
        decreases cs@.len() - i,
    {
        if i > 0 {
            s.append(" ");
        }
        push_u64(s, as_id as u64);
        s.append(":");
        push_u64(s, cs[i] as u64);
        i = i + 1;
        assert(s@ =~= old(s)@ + comm_items(as_id, cs@, i as nat));
    }
}

/// Append the configuration lines of all set actions.
fn push_set_clauses(s: &mut String, as_id: u32, set: &Vec<RouteMapSet>)
    ensures
        final(s)@ == old(s)@ + set_clauses(as_id, set@, set@.len()),
{
    let mut i: usize = 0;
    while i < set.len()
        invariant
            i <= set@.len(),
            s@ == old(s)@ + set_clauses(as_id, set@, i as nat),
        decreases set@.len() - i,
    {
        proof { reveal_strlit("\n  set weight 100"); }
        match set[i] {
            RouteMapSet::Weight(Some(w)) => {
                s.append("\n  set weight ");
                push_u64(s, w as u64);
            },
            RouteMapSet::Weight(None) => {
                s.append("\n  set weight 100");
            },
            RouteMapSet::LocalPref(Some(lp)) => {
                s.append("\n  set local-preference ");
                push_u64(s, lp as u64);
            },
            RouteMapSet::LocalPref(None) => {
                s.append("\n  set local-preference 100");
            },
            RouteMapSet::Med(Some(m)) => {
                s.append("\n  set metric ");
                push_u64(s, m as u64);
            },
            RouteMapSet::Med(None) => {
                s.append("\n  set metric 0");
            },
            RouteMapSet::SetCommunity(c) => {
                s.append("\n  set community ");
                push_u64(s, as_id as u64);
                s.append(":");
                push_u64(s, c as u64);
            },
            _ => {},
        }
        i = i + 1;
        assert(s@ =~= old(s)@ + set_clauses(as_id, set@, i as nat));
    }
}

/// `name` followed by the direction suffix.
fn full_name(name: &str, direction: RouteMapDirection) -> (r: String)
    ensures
        r@ == dir_name(name@, direction),
{
    let mut r = String::new();
    r.append(name);
    match direction {
        RouteMapDirection::Incoming => r.append("-in"),
        RouteMapDirection::Outgoing => r.append("-out"),
    }
    r
}

/// The networks of the prefixes `ps` in the final state of the addressor.
pub open spec fn nets_of(a: PrefixAddressor, ps: Seq<Prefix>) -> Seq<u32> {
    Seq::new(ps.len(), |i: int| a.net_addr(a.assigned().index_of(ps[i])) as u32)
}

/// The order and state of an optional route-map item.
pub open spec fn order_state(last: Option<&RouteMap>) -> Option<(i16, RouteMapState)> {
    match last {
        Some(l) => Some((l.order, l.state)),
        None => None,
    }
}

/// The route-map conditions and actions that the Cisco exporter can express.
pub open spec fn exportable(rm: RouteMap) -> bool {
    &&& matched_next_hops(rm.conds@).len() == 0
    &&& matched_as_path(rm.conds@).len() <= 1
    &&& forall|i: int| 0 <= i < rm.set@.len() ==> !(#[trigger] rm.set@[i] is NextHop) && !(rm.set@[i] is IgpCost)
}

/// Create the configuration of a BGP route-map item: the prefix list, community lists and AS-path
/// list it needs, and the item itself. `name` is the route-map name without direction.
///
/// An item that permits continues at `next_item`. If `last_rm` is given and permits, its
/// `continue` statement is updated to point to `rm`. Prefixes are given networks by `addressor`.
pub fn bgp_rm_item(
    addressor: &mut PrefixAddressor,
    as_id: AsId,
    name: &str,
    direction: RouteMapDirection,
    rm: &RouteMap,
    last_rm: Option<&RouteMap>,
    next_item: i16,
) -> (r: Result<String, ExportError>)
    requires
        exportable(*rm),
    ensures
        final(addressor).base() == old(addressor).base(),
        final(addressor).prefix_len() == old(addressor).prefix_len(),
        final(addressor).block() == old(addressor).block(),
        final(addressor).capacity() == old(addressor).capacity(),
        prefix_list(rm.conds@) is None ==> r is Ok && final(addressor).assigned() == old(addressor).assigned(),
        prefix_list(rm.conds@) matches Some(ps) ==> {
            &&& r is Ok <==> extend_assigned(old(addressor).assigned(), ps).len() <= old(addressor).capacity()
            &&& r is Ok ==> final(addressor).assigned() == extend_assigned(old(addressor).assigned(), ps)
        },
        r matches Err(e) ==> e == ExportError::NotEnoughAddresses,
        r matches Ok(s) ==> s@ == rm_item_text(
            as_id.0,
            dir_name(name@, direction),
            *rm,
            match prefix_list(rm.conds@) { Some(ps) => Some(nets_of(*final(addressor), ps)), None => None },
            final(addressor).prefix_len(),
            order_state(last_rm),
            next_item,
        ),
{
    let name = full_name(name, direction);
    let ghost id = item_id(name@, rm.order);

    // prefix list
    let mut pl = String::new();
    let mut pl_match = String::new();
    let ghost nets_spec: Option<Seq<u32>> = None;
    match rm_match_prefix_list(rm) {
        Some(prefixes) => {
            let nets = prefix_networks(addressor, &prefixes)?;
            let mut list = String::new();
            push_item_id(&mut list, &name, rm.order);
            list.append("-pl");
            push_pl_lines(&mut pl, &list, &nets, addressor.prefix_len_exec());
            pl_match.append("\n  match ip address ");
            pl_match.append(list.as_str());
            proof {
                assert(nets@ =~= nets_of(*addressor, prefixes@));
                nets_spec = Some(nets@);
            }
        },
        None => {},
    }

    // community list
    let mut cl = String::new();
    let mut cl_match = String::new();
    match rm_match_community_list(rm) {
        Some(communities) => {
            cl.append("\nip community-list standard ");
            push_item_id(&mut cl, &name, rm.order);
            cl.append("-cl permit ");
            push_comm_items(&mut cl, as_id.0, &communities);
            cl_match.append("\n  match community ");
            push_item_id(&mut cl_match, &name, rm.order);
            cl_match.append("-cl");
        },
        None => {},
    }

    // AS path list
    let mut asl = String::new();
    let mut asl_match = String::new();
    match rm_match_as_path_list(rm) {
        Some(rex) => {
            asl.append("\nip as-path access-list ");
            push_item_id(&mut asl, &name, rm.order);
            asl.append("-asl permit ");
            asl.append(rex.as_str());
            asl_match.append("\n  match as-path ");
            push_item_id(&mut asl_match, &name, rm.order);
            asl_match.append("-asl");
        },
        None => {},
    }

    // community list of removed communities
    let mut rmcl = String::new();
    let mut rmcl_set = String::new();
    match rm_unset_community_list(rm) {
        Some(communities) => {
            rmcl.append("\nip community-list standard ");
            push_item_id(&mut rmcl, &name, rm.order);
            rmcl.append("-cl-rm permit ");
            push_comm_items(&mut rmcl, as_id.0, &communities);
            rmcl_set.append("\n  set comm-list ");
            push_item_id(&mut rmcl_set, &name, rm.order);
            rmcl_set.append("-cl-rm delete");
        },
        None => {},
    }

    let mut cont = String::new();
    if rm.state.is_allow() {
        cont.append("\n  continue ");
        push_u64(&mut cont, order(next_item) as u64);
    }

    let mut update_last_cont = String::new();
    if let Some(last) = last_rm {
        if last.state.is_allow() {
            update_last_cont.append("route-map ");
            update_last_cont.append(name.as_str());
            update_last_cont.append(" permit ");
            push_u64(&mut update_last_cont, order(last.order) as u64);
            update_last_cont.append("\n  continue ");
            push_u64(&mut update_last_cont, order(rm.order) as u64);
            update_last_cont.append("\nexit\n");
        }
    }

    let mut out = String::new();
    out.append("!");
    out.append(pl.as_str());
    out.append(cl.as_str());
    out.append(asl.as_str());
    out.append(rmcl.as_str());
    out.append("\nroute-map ");
    out.append(name.as_str());
    out.append(" ");
    if rm.state.is_allow() {
        out.append("permit");
    } else {
        out.append("deny");
    }
    out.append(" ");
    push_u64(&mut out, order(rm.order) as u64);
    out.append(pl_match.as_str());
    out.append(cl_match.as_str());
    out.append(asl_match.as_str());
    push_set_clauses(&mut out, as_id.0, &rm.set);
    out.append(rmcl_set.as_str());
    out.append(cont.as_str());
    out.append("\nexit\n");
    out.append(update_last_cont.as_str());
    proof {
        let len = addressor.prefix_len();
        assert(pl@ == match nets_spec { Some(n) => pl_lines(id + "-pl"@, n, len, n.len()), None => Seq::<char>::empty() });
        assert(pl_match@ == match nets_spec { Some(n) => "\n  match ip address "@ + id + "-pl"@, None => Seq::<char>::empty() });
        assert(cl@ == match nonempty_distinct(matched_communities(rm.conds@)) {
            Some(cs) => "\nip community-list standard "@ + id + "-cl permit "@ + comm_items(as_id.0, cs, cs.len()),
            None => Seq::<char>::empty() });
        assert(cont@ == if rm.state == RouteMapState::Allow { "\n  continue "@ + ord_str(next_item) } else { Seq::<char>::empty() });
        assert(update_last_cont@ == update_last(name@, order_state(last_rm), rm.order));
        let ases = matched_as_path(rm.conds@);
        assert(asl@ == if ases.len() > 0 {
            "\nip as-path access-list "@ + id + "-asl permit "@ + "_"@ + nat_str(ases[0].0 as nat) + "_"@ } else { Seq::<char>::empty() });
        assert(asl_match@ == if ases.len() > 0 { "\n  match as-path "@ + id + "-asl"@ } else { Seq::<char>::empty() });
        assert(rmcl@ == match nonempty_distinct(removed_communities(rm.set@)) {
            Some(cs) => "\nip community-list standard "@ + id + "-cl-rm permit "@ + comm_items(as_id.0, cs, cs.len()),
            None => Seq::<char>::empty() });
        assert(rmcl_set@ == match nonempty_distinct(removed_communities(rm.set@)) {
            Some(cs) => "\n  set comm-list "@ + id + "-cl-rm delete"@,
            None => Seq::<char>::empty() });
        assert(cl_match@ == match nonempty_distinct(matched_communities(rm.conds@)) {
            Some(cs) => "\n  match community "@ + id + "-cl"@,
            None => Seq::<char>::empty() });
    }
    assert(out@ =~= rm_item_text(as_id.0, name@, *rm, nets_spec, addressor.prefix_len(), order_state(last_rm), next_item));
    Ok(out)
}

/// The commands that remove a route-map item named `name` (already carrying its direction) and
/// its lists.
pub open spec fn remove_rm_item_text(
    name: Seq<char>,
    rm: RouteMap,
    last: Option<(i16, RouteMapState)>,
    next_item: i16,
) -> Seq<char> {
    let id = item_id(name, rm.order);
    let pl = if prefix_list(rm.conds@) is Some { "\nno ip prefix-list "@ + id + "-pl"@ } else { Seq::empty() };
    let cl = if matched_communities(rm.conds@).len() > 0 { "\nno ip community-list standard "@ + id + "-cl"@ } else { Seq::empty() };
    let asl = if matched_as_path(rm.conds@).len() > 0 { "\nno ip as-path access-list "@ + id + "-asl"@ } else { Seq::empty() };
    let rmcl = if removed_communities(rm.set@).len() > 0 { "\nno ip community-list standard "@ + id + "-cl-rm"@ } else { Seq::empty() };
    "!"@ + pl + cl + asl + rmcl + "\nno route-map "@ + name + " "@ + state_str(rm.state) + " "@ + ord_str(rm.order)
        + "\n"@ + update_last(name, last, next_item)
}

/// The route-map conditions whose lists the Cisco exporter can remove: no next-hop match and at
/// most one AS on the path.
pub open spec fn removable(rm: RouteMap) -> bool {
    &&& matched_next_hops(rm.conds@).len() == 0
    &&& matched_as_path(rm.conds@).len() <= 1
}

/// Create the commands to remove a route-map item and its lists. If `last_rm` is given and
/// permits, its `continue` statement is updated to point to `next_item`.
pub fn bgp_remove_rm_item(
    name: &str,
    direction: RouteMapDirection,
    rm: &RouteMap,
    last_rm: Option<&RouteMap>,
    next_item: i16,
) -> (r: Result<String, ExportError>)
    requires
        removable(*rm),
    ensures
        r matches Ok(s) && s@ == remove_rm_item_text(dir_name(name@, direction), *rm, order_state(last_rm), next_item),
{
    let name = full_name(name, direction);
    let ghost id = item_id(name@, rm.order);
    let mut pl = String::new();
    if rm_match_prefix_list(rm).is_some() {
        pl.append("\nno ip prefix-list ");
        push_item_id(&mut pl, &name, rm.order);
        pl.append("-pl");
    }
    let mut cl = String::new();
    if rm_match_community_list(rm).is_some() {
        cl.append("\nno ip community-list standard ");
        push_item_id(&mut cl, &name, rm.order);
        cl.append("-cl");
    }
    let mut asl = String::new();
    if rm_match_as_path_list(rm).is_some() {
        asl.append("\nno ip as-path access-list ");
        push_item_id(&mut asl, &name, rm.order);
        asl.append("-asl");
    }
    let mut rmcl = String::new();
    if rm_unset_community_list(rm).is_some() {
        rmcl.append("\nno ip community-list standard ");
        push_item_id(&mut rmcl, &name, rm.order);
        rmcl.append("-cl-rm");
    }
    let mut last_cont = String::new();
    if let Some(last) = last_rm {
        if last.state.is_allow() {
            last_cont.append("route-map ");
            last_cont.append(name.as_str());
            last_cont.append(" permit ");
            push_u64(&mut last_cont, order(last.order) as u64);
            last_cont.append("\n  continue ");
            push_u64(&mut last_cont, order(next_item) as u64);
            last_cont.append("\nexit\n");
        }
    }
    proof {
        assert(pl@ == if prefix_list(rm.conds@) is Some { "\nno ip prefix-list "@ + id + "-pl"@ } else { Seq::<char>::empty() });
        assert(cl@ == if matched_communities(rm.conds@).len() > 0 { "\nno ip community-list standard "@ + id + "-cl"@ } else { Seq::<char>::empty() });
        assert(asl@ == if matched_as_path(rm.conds@).len() > 0 { "\nno ip as-path access-list "@ + id + "-asl"@ } else { Seq::<char>::empty() });
        assert(rmcl@ == if removed_communities(rm.set@).len() > 0 { "\nno ip community-list standard "@ + id + "-cl-rm"@ } else { Seq::<char>::empty() });
        assert(last_cont@ == update_last(name@, order_state(last_rm), next_item));
    }
    let mut out = String::new();
    out.append("!");
    out.append(pl.as_str());
    out.append(cl.as_str());
    out.append(asl.as_str());
    out.append(rmcl.as_str());
    out.append("\nno route-map ");
    out.append(name.as_str());
    out.append(" ");
    if rm.state.is_allow() {
        out.append("permit");
    } else {
        out.append("deny");
    }
    out.append(" ");
    push_u64(&mut out, order(rm.order) as u64);
    out.append("\n");
    out.append(last_cont.as_str());
    assert(out@ =~= remove_rm_item_text(name@, *rm, order_state(last_rm), next_item));
    Ok(out)
}

/// The OSPF block of a router.
pub open spec fn ospf_text(router_id: u32) -> Seq<char> {
    "!\nrouter ospf 10\n  router-id "@ + ipv4_str(router_id) + "\nexit\n"@
}

/// The OSPF block of a router.
pub fn ospf_cfg(router_id: u32) -> (r: String)
    ensures
        r@ == ospf_text(router_id),
{
    let mut s = String::new();
    s.append("!\nrouter ospf 10\n  router-id ");
    push_ipv4(&mut s, router_id);
    s.append("\nexit\n");
    s
}

/// The configuration of an interface. With both an OSPF cost and an area, the interface takes
/// part in OSPF and is shut down unless `no_shutdown`; otherwise it is only brought up.
pub open spec fn interface_text(name: Seq<char>, ip: u32, len: u8, cost: Option<LinkWeight>, area: Option<u32>,
    no_shutdown: bool) -> Seq<char>
{
    if cost is Some && area is Some {
        "!\ninterface "@ + name + "\n  "@ + (if no_shutdown { "no "@ } else { Seq::empty() })
            + "shutdown\n  ip address "@ + ipv4_net_str(ip, len) + "\n  ip ospf cost "@
            + nat_str(cost->0 as nat) + "\n  ip router ospf 10 area "@ + nat_str(area->0 as nat) + "\nexit\n"@
    } else {
        "!\ninterface "@ + name + "\n  no shutdown\n  ip address "@ + ipv4_net_str(ip, len) + "\nexit\n"@
    }
}

/// The configuration of an interface.
pub fn interface_cfg(iface_name: &str, ip: u32, pfx_len: u8, ospf_cost: Option<LinkWeight>, ospf_area: Option<u32>,
    no_shutdown: bool) -> (r: String)
    ensures
        r@ == interface_text(iface_name@, ip, pfx_len, ospf_cost, ospf_area, no_shutdown),
{
    let mut s = String::new();
    s.append("!\ninterface ");
    s.append(iface_name);
    match (ospf_cost, ospf_area) {
        (Some(cost), Some(area)) => {
            s.append("\n  ");
            if no_shutdown {
                s.append("no ");
            }
            s.append("shutdown\n  ip address ");
            push_ipv4_net(&mut s, ip, pfx_len);
            s.append("\n  ip ospf cost ");
            push_u64(&mut s, cost);
            s.append("\n  ip router ospf 10 area ");
            push_u64(&mut s, area as u64);
            s.append("\nexit\n");
            assert(s@ =~= interface_text(iface_name@, ip, pfx_len, ospf_cost, ospf_area, no_shutdown));
        },
        _ => {
            s.append("\n  no shutdown\n  ip address ");
            push_ipv4_net(&mut s, ip, pfx_len);
            s.append("\nexit\n");
            assert(s@ =~= interface_text(iface_name@, ip, pfx_len, ospf_cost, ospf_area, no_shutdown));
        },
    }
    s
}

/// `network <net>` for each advertised network.
pub open spec fn network_lines(nets: Seq<(u32, u8)>) -> Seq<Seq<char>> {
    nets.map_values(|n: (u32, u8)| "network "@ + ipv4_net_str(n.0, n.1))
}

/// The BGP block of a router, advertising the given networks.
pub open spec fn bgp_text(router_id: u32, as_id: AsId, advertise: Seq<(u32, u8)>) -> Seq<char> {
    "!\nrouter bgp "@ + nat_str(as_id.0 as nat) + "\n  router-id "@ + ipv4_str(router_id)
        + "\n  address-family ipv4 unicast\n    "@ + join(network_lines(advertise), "\n    "@)
        + "\n  exit\nexit\n"@
}

/// The BGP block of a router, advertising the given networks.
pub fn bgp_cfg(router_id: u32, as_id: AsId, advertise: &[(u32, u8)]) -> (r: String)
    ensures
        r@ == bgp_text(router_id, as_id, advertise@),
{
    let mut s = String::new();
    s.append("!\nrouter bgp ");
    push_u64(&mut s, as_id.0 as u64);
    s.append("\n  router-id ");
    push_ipv4(&mut s, router_id);
    s.append("\n  address-family ipv4 unicast\n    ");
    let ghost start = s@;
    let ghost parts = network_lines(advertise@);
    let mut i: usize = 0;
    assert(parts.take(0) =~= Seq::<Seq<char>>::empty());
    while i < advertise.len()
        invariant
            i <= advertise@.len(),
            parts == network_lines(advertise@),
            s@ == start + join(parts.take(i as int), "\n    "@),
        decreases advertise@.len() - i,
    {
        proof {
            assert(parts.take(i + 1).drop_last() =~= parts.take(i as int));
            assert(parts.take(i + 1).last() == parts[i as int]);
        }
        if i > 0 {
            s.append("\n    ");
        }
        let (net, len) = advertise[i];
        s.append("network ");
        push_ipv4_net(&mut s, net, len);
        proof {
            if i == 0 {
                assert(parts.take(1).len() == 1);
                assert(start + join(parts.take(0), "\n    "@) =~= start);
            }
        }
        i = i + 1;
    }
    assert(parts.take(advertise@.len() as int) =~= parts);
    s.append("\n  exit\nexit\n");
    s
}

/// The line that depends on the session type.
pub open spec fn session_line(ty: BgpSessionType) -> Seq<char> {
    match ty {
        BgpSessionType::IBgpClient => "route-reflector-client"@,
        BgpSessionType::IBgpPeer => "!"@,
        BgpSessionType::EBgp => "next-hop-self"@,
    }
}

/// The BGP neighbor block of a session, with its two route-maps that permit everything.
pub open spec fn neighbor_text(as_id: AsId, neighbor: u32, remote_as: AsId, source_iface: Seq<char>,
    rm_name: Seq<char>, ty: BgpSessionType) -> Seq<char>
{
    "!\nrouter bgp "@ + nat_str(as_id.0 as nat) + "\n  neighbor "@ + ipv4_str(neighbor) + " remote-as "@
        + nat_str(remote_as.0 as nat) + "\n    update-source "@ + source_iface
        + "\n    address-family ipv4 unicast\n      weight 100\n      route-map "@ + rm_name
        + "-in in\n      route-map "@ + rm_name + "-out out\n      "@ + session_line(ty)
        + "\n    exit\n  exit\nexit\n!\nroute-map "@ + rm_name + "-in permit 65535\nexit\n!\nroute-map "@
        + rm_name + "-out permit 65535\nexit\n"@
}

/// The BGP neighbor block of a session. An internal router uses its loopback as source
/// interface, an external one the interface towards the neighbor.
pub fn bgp_cfg_neighbor(as_id: AsId, neighbor: u32, remote_as: AsId, source_iface: &str, rm_name: &str,
    ty: BgpSessionType) -> (r: String)
    ensures
        r@ == neighbor_text(as_id, neighbor, remote_as, source_iface@, rm_name@, ty),
{
    let mut s = String::new();
    s.append("!\nrouter bgp ");
    push_u64(&mut s, as_id.0 as u64);
    s.append("\n  neighbor ");
    push_ipv4(&mut s, neighbor);
    s.append(" remote-as ");
    push_u64(&mut s, remote_as.0 as u64);
    s.append("\n    update-source ");
    s.append(source_iface);
    s.append("\n    address-family ipv4 unicast\n      weight 100\n      route-map ");
    s.append(rm_name);
    s.append("-in in\n      route-map ");
    s.append(rm_name);
    s.append("-out out\n      ");
    match ty {
        BgpSessionType::IBgpClient => s.append("route-reflector-client"),
        BgpSessionType::IBgpPeer => s.append("!"),
        BgpSessionType::EBgp => s.append("next-hop-self"),
    }
    s.append("\n    exit\n  exit\nexit\n!\nroute-map ");
    s.append(rm_name);
    s.append("-in permit 65535\nexit\n!\nroute-map ");
    s.append(rm_name);
    s.append("-out permit 65535\nexit\n");
    assert(s@ =~= neighbor_text(as_id, neighbor, remote_as, source_iface@, rm_name@, ty));
    s
}

/// The first host address of a network: the network address itself for networks of length 31
/// and 32, the next address otherwise.
pub open spec fn first_host(net: u32, len: u8) -> Option<u32> {
    if len >= 31 {
        Some(net)
    } else if net < u32::MAX {
        Some((net + 1) as u32)
    } else {
        None
    }
}

/// The name of a loopback interface.
pub open spec fn loopback_name(lo: u8) -> Seq<char> {
    "Loopback"@ + nat_str(lo as nat)
}

/// The AS path to prepend: the path without its first AS, separated by spaces.
pub open spec fn prepend_str(path: Seq<AsId>) -> Seq<char> {
    if path.len() <= 1 {
        Seq::empty()
    } else {
        join(path.skip(1).map_values(|a: AsId| nat_str(a.0 as nat)), " "@)
    }
}

/// The configuration that advertises the network `net/len` of a route from loopback `lo` with
/// address `ip`.
pub open spec fn advertise_text(as_id: u32, net: u32, len: u8, lo: u8, ip: u32, path: Seq<AsId>) -> Seq<char> {
    interface_text(loopback_name(lo), ip, len, None, None, true)
        + "!\nrouter bgp "@ + nat_str(as_id as nat) + "\n  address-family ipv4 unicast\n    network "@
        + ipv4_net_str(net, len) + "\n  exit\nexit\nroute-map neighbor-out permit "@ + nat_str(lo as nat)
        + "\n  match ip address "@ + ipv4_net_str(net, len) + "\n  set as-path prepend "@ + prepend_str(path)
        + "\nexit\n"@
}

/// The configuration that stops advertising the network `net/len` from loopback `lo`.
pub open spec fn withdraw_text(as_id: u32, lo: u8, net: u32, len: u8) -> Seq<char> {
    "!\nno interface Loopback"@ + nat_str(lo as nat) + "\nrouter bgp "@ + nat_str(as_id as nat)
        + "\n  address-family ipv4 unicast\n    no network "@ + ipv4_net_str(net, len)
        + "\n  exit\nexit\nno route-map neighbor-out permit "@ + nat_str(lo as nat) + "\n"@
}

/// The loopback that carries prefix `p`.
pub open spec fn loopback_of(m: Map<u8, u32>, p: u32) -> u8 {
    choose|l: u8| m.contains_key(l) && m[l] == p
}

/// `l` is the smallest loopback number from 1 on that is free.
pub open spec fn is_first_free(m: Map<u8, u32>, l: u8) -> bool {
    1 <= l && !m.contains_key(l) && forall|k: u8| 1 <= k < l ==> m.contains_key(k)
}

/// The smallest free loopback number from 1 on, if any.
pub open spec fn first_free(m: Map<u8, u32>) -> Option<u8> {
    if exists|l: u8| is_first_free(m, l) {
        Some(choose|l: u8| is_first_free(m, l))
    } else {
        None
    }
}

/// Configuration generator for Cisco IOS routers.
#[derive(Debug)]
pub struct CiscoCfgGen {
    ifaces: Vec<String>,
    router: RouterId,
    loopback_prefixes: BiHashMap<u8, u32>,
}

impl CiscoCfgGen {
    /// No two loopbacks carry the same prefix.
    #[verifier::type_invariant]
    spec fn loopbacks_unique(self) -> bool {
        injective(loopback_pairs(self.loopback_prefixes))
    }

    /// The prefix (by number) that each used loopback carries.
    pub closed spec fn loopbacks(&self) -> Map<u8, u32> {
        loopback_pairs(self.loopback_prefixes)
    }

    /// The names of the interfaces, by index.
    pub closed spec fn ifaces_spec(&self) -> Seq<Seq<char>> {
        self.ifaces@.map_values(|s: String| s@)
    }

    /// The router that is configured.
    pub closed spec fn router_spec(&self) -> RouterId {
        self.router
    }

    /// A generator for `router` with the given interface names and no loopback in use.
    pub fn new(router: RouterId, ifaces: Vec<String>) -> (r: Result<CiscoCfgGen, ExportError>)
        ensures
            r matches Ok(g) && g.router_spec() == router && g.ifaces_spec() == ifaces@.map_values(|s: String| s@)
                && g.loopbacks() == Map::<u8, u32>::empty(),
    {
        let m = loopbacks_new();
        proof {
            assert(injective(loopback_pairs(m)));
        }
        Ok(CiscoCfgGen { ifaces, router, loopback_prefixes: m })
    }

    /// The name of the interface with the given index.
    pub fn iface(&self, idx: usize) -> (r: Result<&str, ExportError>)
        ensures
            idx < self.ifaces_spec().len() ==> (r matches Ok(s) && s@ == self.ifaces_spec()[idx as int]),
            idx >= self.ifaces_spec().len() ==> r == Err::<&str, ExportError>(ExportError::NotEnoughInterfaces(self.router_spec())),
    {
        if idx < self.ifaces.len() {
            Ok(self.ifaces[idx].as_str())
        } else {
            Err(ExportError::NotEnoughInterfaces(self.router))
        }
    }

    /// Stop advertising the route for `prefix`, which an external router in AS `as_id`
    /// advertised from a loopback. Fails with `WithdrawUnadvertisedRoute` if no loopback carries
    /// the prefix, and with `NotEnoughAddresses` if the addressor has no network for it.
    pub fn withdraw_route(&mut self, as_id: AsId, addressor: &mut PrefixAddressor, prefix: Prefix)
        -> (r: Result<String, ExportError>)
        ensures
            final(self).router_spec() == old(self).router_spec(),
            final(self).ifaces_spec() == old(self).ifaces_spec(),
            !has_right(old(self).loopbacks(), prefix.0) ==> r == Err::<String, ExportError>(ExportError::WithdrawUnadvertisedRoute)
                && final(self).loopbacks() == old(self).loopbacks() && *final(addressor) == *old(addressor),
            has_right(old(self).loopbacks(), prefix.0) ==> {
                &&& final(self).loopbacks() == old(self).loopbacks().remove(loopback_of(old(self).loopbacks(), prefix.0))
                &&& assigns(*old(addressor), *final(addressor), prefix)
                &&& final(addressor).assigned().contains(prefix) ==> (r matches Ok(t) && t@ == withdraw_text(as_id.0,
                    loopback_of(old(self).loopbacks(), prefix.0), network_of(*final(addressor), prefix), final(addressor).prefix_len()))
                &&& !final(addressor).assigned().contains(prefix) ==> r == Err::<String, ExportError>(ExportError::NotEnoughAddresses)
            },
    {
        proof {
            use_type_invariant(&*self);
        }
        let ghost m0 = self.loopbacks();
        let mut m = loopbacks_new();
        std::mem::swap(&mut m, &mut self.loopback_prefixes);
        let removed = loopbacks_remove_by_right(&mut m, prefix.0);
        self.loopback_prefixes = m;
        let lo = match removed {
            Some((l, _)) => l,
            None => return Err(ExportError::WithdrawUnadvertisedRoute),
        };
        proof {
            let c = loopback_of(m0, prefix.0);
            assert(m0.contains_key(c) && m0[c] == prefix.0);
            assert(c == lo);
        }
        let (net, len) = match addressor.prefix(prefix) {
            Ok(n) => n,
            Err(e) => {
                assert(e == ExportError::NotEnoughAddresses);
                return Err(e);
            },
        };
        let mut s = String::new();
        s.append("!\nno interface Loopback");
        push_u64(&mut s, lo as u64);
        s.append("\nrouter bgp ");
        push_u64(&mut s, as_id.0 as u64);
        s.append("\n  address-family ipv4 unicast\n    no network ");
        push_ipv4_net(&mut s, net, len);
        s.append("\n  exit\nexit\nno route-map neighbor-out permit ");
        push_u64(&mut s, lo as u64);
        s.append("\n");
        assert(s@ =~= withdraw_text(as_id.0, lo, net, len));
        Ok(s)
    }

    /// The smallest free loopback number from 1 on.
    fn free_loopback(&self) -> (r: Option<u8>)
        ensures
            r == first_free(self.loopbacks()),
    {
        let ghost m = self.loopbacks();
        let mut lo: u8 = 1;
        loop
            invariant
                1 <= lo,
                m == self.loopbacks(),
                forall|k: u8| 1 <= k < lo ==> m.contains_key(k),
            decreases 255 - lo,
        {
            if !loopbacks_contains_left(&self.loopback_prefixes, lo) {
                proof {
                    assert(is_first_free(m, lo));
                    let c = choose|l: u8| is_first_free(m, l);
                    assert(c == lo) by {
                        if c < lo {
                            assert(m.contains_key(c));
                        } else if c > lo {
                            assert(m.contains_key(lo));
                        }
                    }
                }
                return Some(lo);
            }
            if lo == 255 {
                proof {
                    assert forall|l: u8| !is_first_free(m, l) by {
                        if 1 <= l {
                            assert(m.contains_key(l));
                        }
                    }
                }
                return None;
            }
            lo = lo + 1;
        }
    }
}

/// Append the AS path to prepend: the path without its first AS, separated by spaces.
fn push_prepend(s: &mut String, path: &Vec<AsId>)
    ensures
        final(s)@ == old(s)@ + prepend_str(path@),
{
    let ghost start = s@;
    if path.len() <= 1 {
        assert(s@ =~= start + prepend_str(path@));
        return;
    }
    let ghost parts = path@.skip(1).map_values(|a: AsId| nat_str(a.0 as nat));
    let mut i: usize = 1;
    assert(parts.take(0) =~= Seq::<Seq<char>>::empty());
    while i < path.len()
        invariant
            1 <= i <= path@.len(),
            parts == path@.skip(1).map_values(|a: AsId| nat_str(a.0 as nat)),
            s@ == start + join(parts.take(i - 1), " "@),
        decreases path@.len() - i,
    {
        let k: usize = i - 1;
        proof {
            assert(parts.take(k + 1).drop_last() =~= parts.take(k as int));
            assert(parts.take(k + 1).last() == parts[k as int]);
            assert(parts[k as int] == nat_str(path@[i as int].0 as nat));
        }
        if k > 0 {
            s.append(" ");
        }
        push_u64(s, path[i].0 as u64);
        proof {
            if k == 0 {
                assert(parts.take(1).len() == 1);
                assert(start + join(parts.take(0), " "@) =~= start);
            }
        }
        i = i + 1;
    }
    assert(parts.take(path@.len() - 1) =~= parts);
}

impl CiscoCfgGen {
    /// Advertise a route from an external router in AS `as_id`: a new loopback interface (the
    /// smallest free number from 1 on) carries the first host address of the prefix's network,
    /// BGP advertises the network, and a route-map item prepends the AS path without its first
    /// AS. A prefix that is advertised already is withdrawn first.
    pub fn advertise_route(&mut self, as_id: AsId, addressor: &mut PrefixAddressor, route: &BgpRoute)
        -> (r: Result<String, ExportError>)
        ensures
            final(self).router_spec() == old(self).router_spec(),
            final(self).ifaces_spec() == old(self).ifaces_spec(),
            ({
                let m0 = old(self).loopbacks();
                let p = route.prefix;
                let had = has_right(m0, p.0);
                let m1 = if had { m0.remove(loopback_of(m0, p.0)) } else { m0 };
                let ok = final(addressor).assigned().contains(p);
                let net = network_of(*final(addressor), p);
                let len = final(addressor).prefix_len();
                &&& !had && first_free(m0) is None ==> r == Err::<String, ExportError>(ExportError::NotEnoughLoopbacks(old(self).router_spec()))
                    && final(self).loopbacks() == m0 && *final(addressor) == *old(addressor)
                &&& (had || first_free(m0) is Some) ==> assigns(*old(addressor), *final(addressor), p)
                &&& had && !ok ==> r == Err::<String, ExportError>(ExportError::NotEnoughAddresses) && final(self).loopbacks() == m1
                &&& had && ok && first_free(m1) is None ==> r == Err::<String, ExportError>(ExportError::NotEnoughLoopbacks(old(self).router_spec()))
                    && final(self).loopbacks() == m1
                &&& !had && first_free(m0) is Some && !ok ==> r == Err::<String, ExportError>(ExportError::NotEnoughAddresses)
                    && final(self).loopbacks() == m0
                &&& ok && first_free(m1) is Some && first_host(net, len) is None ==> r == Err::<String, ExportError>(ExportError::NotEnoughAddresses)
                    && final(self).loopbacks() == m1
                &&& ok && first_free(m1) is Some && first_host(net, len) is Some ==> (r matches Ok(t)
                    && t@ == advertise_text(as_id.0, net, len, first_free(m1)->0, first_host(net, len)->0, route.as_path@)
                    && final(self).loopbacks() == m1.insert(first_free(m1)->0, p.0))
            }),
    {
        proof {
            use_type_invariant(&*self);
        }
        let p = route.prefix;
        let ghost m0 = self.loopbacks();
        if loopbacks_contains_right(&self.loopback_prefixes, p.0) {
            match self.withdraw_route(as_id, addressor, p) {
                Ok(_) => {},
                Err(e) => return Err(e),
            }
        }
        proof {
            use_type_invariant(&*self);
        }
        let ghost m1 = self.loopbacks();
        let ghost a1 = *addressor;
        let lo = match self.free_loopback() {
            Some(l) => l,
            None => return Err(ExportError::NotEnoughLoopbacks(self.router)),
        };
        let (net, len) = match addressor.prefix(p) {
            Ok(n) => n,
            Err(e) => {
                proof {
                    if has_right(m0, p.0) {
                        assert(a1.assigned().contains(p));
                    }
                }
                assert(e == ExportError::NotEnoughAddresses);
                return Err(e);
            },
        };
        proof {
            if has_right(m0, p.0) {
                assert(a1.assigned().contains(p));
                assert(addressor.assigned() == a1.assigned());
            }
        }
        let ip: u32 = if len >= 31 {
            net
        } else if net < u32::MAX {
            net + 1
        } else {
            return Err(ExportError::NotEnoughAddresses);
        };
        let mut name = String::new();
        name.append("Loopback");
        push_u64(&mut name, lo as u64);
        let mut s = interface_cfg(name.as_str(), ip, len, None, None, true);
        s.append("!\nrouter bgp ");
        push_u64(&mut s, as_id.0 as u64);
        s.append("\n  address-family ipv4 unicast\n    network ");
        push_ipv4_net(&mut s, net, len);
        s.append("\n  exit\nexit\nroute-map neighbor-out permit ");
        push_u64(&mut s, lo as u64);
        s.append("\n  match ip address ");
        push_ipv4_net(&mut s, net, len);
        s.append("\n  set as-path prepend ");
        push_prepend(&mut s, &route.as_path);
        s.append("\nexit\n");
        assert(s@ =~= advertise_text(as_id.0, net, len, lo, ip, route.as_path@));
        let mut m = loopbacks_new();
        std::mem::swap(&mut m, &mut self.loopback_prefixes);
        loopbacks_insert(&mut m, lo, p.0);
        proof {
            let mm = self.loopbacks();
            assert(!has_right(m1, p.0)) by {
                if has_right(m0, p.0) {
                    let c = loopback_of(m0, p.0);
                    assert(m1 == m0.remove(c));
                    if has_right(m1, p.0) {
                        let l = choose|l: u8| m1.contains_key(l) && m1[l] == p.0;
                        assert(m0.contains_key(l) && m0[l] == p.0 && l != c);
                    }
                }
            }
            assert(without_right(m1, p.0) =~= m1);
        }
        self.loopback_prefixes = m;
        Ok(s)
    }
}

/// Withdrawing a route that was just advertised frees its loopback: the loopbacks are as before
/// the advertisement.
pub proof fn law_withdraw_frees_loopback(m: Map<u8, u32>, p: u32, lo: u8)
    requires
        injective(m),
        !has_right(m, p),
        first_free(m) == Some(lo),
    ensures
        has_right(m.insert(lo, p), p),
        m.insert(lo, p).remove(loopback_of(m.insert(lo, p), p)) == m,
{
    let m1 = m.insert(lo, p);
    assert(is_first_free(m, lo)) by {
        assert(exists|l: u8| is_first_free(m, l));
    }
    assert(m1.contains_key(lo) && m1[lo] == p);
    let c = loopback_of(m1, p);
    assert(m1.contains_key(c) && m1[c] == p);
    assert(c == lo) by {
        if c != lo {
            assert(m.contains_key(c) && m[c] == p);
        }
    }
    assert(m1.remove(lo) =~= m);
}

/// The line of the set action `i` occurs among the lines of the first `n` actions.
proof fn lemma_set_clause_in(as_id: u32, set: Seq<RouteMapSet>, n: nat, i: int)
    requires
        0 <= i < n <= set.len(),
    ensures
        is_infix(set_clause(as_id, set[i]), set_clauses(as_id, set, n)),
    decreases n,
{
    let prev = set_clauses(as_id, set, (n - 1) as nat);
    if i == n - 1 {
        lemma_infix_mid(prev, set_clause(as_id, set[i]), Seq::empty());
        assert(prev + set_clause(as_id, set[i]) + Seq::<char>::empty() =~= set_clauses(as_id, set, n));
    } else {
        lemma_set_clause_in(as_id, set, (n - 1) as nat, i);
        lemma_infix_extend(set_clause(as_id, set[i]), prev, Seq::empty(), set_clause(as_id, set[n - 1]));
        assert(Seq::<char>::empty() + prev + set_clause(as_id, set[n - 1]) =~= set_clauses(as_id, set, n));
    }
}

/// The lines of the set actions occur in the text of a route-map item.
proof fn lemma_item_has_set_clauses(
    as_id: u32,
    name: Seq<char>,
    rm: RouteMap,
    nets: Option<Seq<u32>>,
    len: u8,
    last: Option<(i16, RouteMapState)>,
    next_item: i16,
)
    ensures
        is_infix(set_clauses(as_id, rm.set@, rm.set@.len()), rm_item_text(as_id, name, rm, nets, len, last, next_item)),
{
    let sc = set_clauses(as_id, rm.set@, rm.set@.len());
    let text = rm_item_text(as_id, name, rm, nets, len, last, next_item);
    let id = item_id(name, rm.order);
    let (pl, pl_match) = match nets {
        Some(n) => (pl_lines(id + "-pl"@, n, len, n.len()), "\n  match ip address "@ + id + "-pl"@),
        None => (Seq::<char>::empty(), Seq::<char>::empty()),
    };
    let (cl, cl_match) = match nonempty_distinct(matched_communities(rm.conds@)) {
        Some(cs) => ("\nip community-list standard "@ + id + "-cl permit "@ + comm_items(as_id, cs, cs.len()),
            "\n  match community "@ + id + "-cl"@),
        None => (Seq::<char>::empty(), Seq::<char>::empty()),
    };
    let ases = matched_as_path(rm.conds@);
    let (asl, asl_match) = if ases.len() > 0 {
        ("\nip as-path access-list "@ + id + "-asl permit "@ + "_"@ + nat_str(ases[0].0 as nat) + "_"@,
            "\n  match as-path "@ + id + "-asl"@)
    } else {
        (Seq::<char>::empty(), Seq::<char>::empty())
    };
    let (rmcl, rmcl_set) = match nonempty_distinct(removed_communities(rm.set@)) {
        Some(cs) => ("\nip community-list standard "@ + id + "-cl-rm permit "@ + comm_items(as_id, cs, cs.len()),
            "\n  set comm-list "@ + id + "-cl-rm delete"@),
        None => (Seq::<char>::empty(), Seq::<char>::empty()),
    };
    let cont = if rm.state == RouteMapState::Allow { "\n  continue "@ + ord_str(next_item) } else { Seq::<char>::empty() };
    let x = "!"@ + pl + cl + asl + rmcl + "\nroute-map "@ + name + " "@ + state_str(rm.state) + " "@
        + ord_str(rm.order) + pl_match + cl_match + asl_match;
    let z = rmcl_set + cont + "\nexit\n"@ + update_last(name, last, rm.order);
    assert(text =~= x + sc + z);
    lemma_infix_mid(x, sc, z);
}

/// Every set action of a route-map item is exported with its own IOS command: a weight as
/// `set weight`, a local preference as `set local-preference`, a MED as `set metric` (reset
/// values 100, 100 and 0), and an added community as `set community <as>:<community>`.
pub proof fn law_set_actions_exported(
    as_id: u32,
    name: Seq<char>,
    rm: RouteMap,
    nets: Option<Seq<u32>>,
    len: u8,
    last: Option<(i16, RouteMapState)>,
    next_item: i16,
    i: int,
)
    requires
        0 <= i < rm.set@.len(),
    ensures
        ({
            let text = rm_item_text(as_id, name, rm, nets, len, last, next_item);
            match rm.set@[i] {
                RouteMapSet::Weight(Some(w)) => is_infix("\n  set weight "@ + nat_str(w as nat), text),
                RouteMapSet::Weight(None) => is_infix("\n  set weight 100"@, text),
                RouteMapSet::LocalPref(Some(lp)) => is_infix("\n  set local-preference "@ + nat_str(lp as nat), text),
                RouteMapSet::LocalPref(None) => is_infix("\n  set local-preference 100"@, text),
                RouteMapSet::Med(Some(m)) => is_infix("\n  set metric "@ + nat_str(m as nat), text),
                RouteMapSet::Med(None) => is_infix("\n  set metric 0"@, text),
                RouteMapSet::SetCommunity(c) => is_infix("\n  set community "@ + nat_str(as_id as nat) + ":"@
                    + nat_str(c as nat), text),
                _ => true,
            }
        }),
{
    lemma_set_clause_in(as_id, rm.set@, rm.set@.len(), i);
    lemma_item_has_set_clauses(as_id, name, rm, nets, len, last, next_item);
    lemma_infix_trans(set_clause(as_id, rm.set@[i]), set_clauses(as_id, rm.set@, rm.set@.len()),
        rm_item_text(as_id, name, rm, nets, len, last, next_item));
}

/// The BGP neighbor block names the neighbor with the remote AS given for it, whatever the local
/// AS, inside the BGP process of the local AS.
#[verifier::rlimit(40)]
pub proof fn law_neighbor_remote_as(as_id: AsId, neighbor: u32, remote_as: AsId, source_iface: Seq<char>,
    rm_name: Seq<char>, ty: BgpSessionType)
    ensures
        is_infix("\n  neighbor "@ + ipv4_str(neighbor) + " remote-as "@ + nat_str(remote_as.0 as nat) + "\n"@,
            neighbor_text(as_id, neighbor, remote_as, source_iface, rm_name, ty)),
        is_infix("!\nrouter bgp "@ + nat_str(as_id.0 as nat) + "\n"@,
            neighbor_text(as_id, neighbor, remote_as, source_iface, rm_name, ty)),
{
    let t = neighbor_text(as_id, neighbor, remote_as, source_iface, rm_name, ty);
    let head = "!\nrouter bgp "@ + nat_str(as_id.0 as nat);
    let mid = "\n  neighbor "@ + ipv4_str(neighbor) + " remote-as "@ + nat_str(remote_as.0 as nat);
    let tail = "\n    update-source "@ + source_iface
        + "\n    address-family ipv4 unicast\n      weight 100\n      route-map "@ + rm_name
        + "-in in\n      route-map "@ + rm_name + "-out out\n      "@ + session_line(ty)
        + "\n    exit\n  exit\nexit\n!\nroute-map "@ + rm_name + "-in permit 65535\nexit\n!\nroute-map "@
        + rm_name + "-out permit 65535\nexit\n"@;
    assert(t =~= head + mid + tail);
    let line = mid + "\n"@;
    let rest = "    update-source "@ + tail.subrange(19, tail.len() as int);
    assert(tail =~= "\n"@ + rest) by {
        reveal_strlit("\n");
        reveal_strlit("\n    update-source ");
        reveal_strlit("    update-source ");
    }
    assert(t =~= head + line + rest);
    lemma_infix_mid(head, line, rest);
    let first = head + "\n"@;
    let rest2 = t.subrange(first.len() as int, t.len() as int);
    assert(t[head.len() as int] == '\n') by {
        reveal_strlit("\n  neighbor ");
        assert(mid[0] == '\n');
        assert(t[head.len() as int] == mid[0]);
    }
    assert(t =~= Seq::<char>::empty() + first + rest2) by {
        reveal_strlit("\n");
    }
    lemma_infix_mid(Seq::empty(), first, rest2);
}

/// The literals of an interface configuration, split at their line breaks.
proof fn lemma_interface_literals()
    ensures
        "shutdown\n  ip address "@ == "shutdown"@ + "\n"@ + "  ip address "@,
        "\n  ip ospf cost "@ == "\n"@ + "  ip ospf cost "@,
        "\n  ip router ospf 10 area "@ == "\n"@ + "  ip router ospf 10 area "@,
        "\nexit\n"@ == "\n"@ + "exit\n"@,
        "\n  "@ == "\n"@ + "  "@,
        "\n  no shutdown\n  ip address "@ == "\n"@ + "  no shutdown"@ + "\n"@ + "  ip address "@,
        "\n  no shutdown\n"@ == "\n"@ + "  no shutdown"@ + "\n"@,
        "\n  shutdown\n"@ == "\n"@ + "  "@ + "shutdown"@ + "\n"@,
        "  no shutdown"@ == "  "@ + "no "@ + "shutdown"@,
{
    assert("shutdown\n  ip address "@ =~= "shutdown"@ + "\n"@ + "  ip address "@) by {
        reveal_strlit("shutdown\n  ip address ");
        reveal_strlit("shutdown");
        reveal_strlit("\n");
        reveal_strlit("  ip address ");
    }
    assert("\n  ip ospf cost "@ =~= "\n"@ + "  ip ospf cost "@) by {
        reveal_strlit("\n  ip ospf cost ");
        reveal_strlit("\n");
        reveal_strlit("  ip ospf cost ");
    }
    assert("\n  ip router ospf 10 area "@ =~= "\n"@ + "  ip router ospf 10 area "@) by {
        reveal_strlit("\n  ip router ospf 10 area ");
        reveal_strlit("\n");
        reveal_strlit("  ip router ospf 10 area ");
    }
    assert("\nexit\n"@ =~= "\n"@ + "exit\n"@) by {
        reveal_strlit("\nexit\n");
        reveal_strlit("\n");
        reveal_strlit("exit\n");
    }
    assert("\n  "@ =~= "\n"@ + "  "@) by {
        reveal_strlit("\n  ");
        reveal_strlit("\n");
        reveal_strlit("  ");
    }
    assert("\n  no shutdown\n  ip address "@ =~= "\n"@ + "  no shutdown"@ + "\n"@ + "  ip address "@) by {
        reveal_strlit("\n  no shutdown\n  ip address ");
        reveal_strlit("\n");
        reveal_strlit("  no shutdown");
        reveal_strlit("  ip address ");
    }
    assert("\n  no shutdown\n"@ =~= "\n"@ + "  no shutdown"@ + "\n"@) by {
        reveal_strlit("\n  no shutdown\n");
        reveal_strlit("\n");
        reveal_strlit("  no shutdown");
    }
    assert("\n  shutdown\n"@ =~= "\n"@ + "  "@ + "shutdown"@ + "\n"@) by {
        reveal_strlit("\n  shutdown\n");
        reveal_strlit("\n");
        reveal_strlit("  ");
        reveal_strlit("shutdown");
    }
    assert("  no shutdown"@ =~= "  "@ + "no "@ + "shutdown"@) by {
        reveal_strlit("  no shutdown");
        reveal_strlit("  ");
        reveal_strlit("no ");
        reveal_strlit("shutdown");
    }
}

/// The configuration of an interface in OSPF, line by line.
proof fn lemma_interface_ospf_lines(name: Seq<char>, ip: u32, len: u8, c: LinkWeight, a: u32, no_shutdown: bool)
    ensures
        interface_text(name, ip, len, Some(c), Some(a), no_shutdown) == "!\ninterface "@ + name + "\n"@
            + ("  "@ + (if no_shutdown { "no "@ } else { Seq::<char>::empty() }) + "shutdown"@) + "\n"@
            + ("  ip address "@ + ipv4_net_str(ip, len)) + "\n"@ + ("  ip ospf cost "@ + nat_str(c as nat)) + "\n"@
            + ("  ip router ospf 10 area "@ + nat_str(a as nat)) + "\n"@ + "exit\n"@,
{
    lemma_interface_literals();
    assert(interface_text(name, ip, len, Some(c), Some(a), no_shutdown) =~= "!\ninterface "@ + name + "\n"@
        + ("  "@ + (if no_shutdown { "no "@ } else { Seq::<char>::empty() }) + "shutdown"@) + "\n"@
        + ("  ip address "@ + ipv4_net_str(ip, len)) + "\n"@ + ("  ip ospf cost "@ + nat_str(c as nat)) + "\n"@
        + ("  ip router ospf 10 area "@ + nat_str(a as nat)) + "\n"@ + "exit\n"@);
}

/// The configuration of an interface outside OSPF, line by line.
proof fn lemma_interface_plain_lines(name: Seq<char>, ip: u32, len: u8, cost: Option<LinkWeight>, area: Option<u32>,
    no_shutdown: bool)
    requires
        !(cost is Some && area is Some),
    ensures
        interface_text(name, ip, len, cost, area, no_shutdown) == "!\ninterface "@ + name + "\n"@ + "  no shutdown"@
            + "\n"@ + ("  ip address "@ + ipv4_net_str(ip, len)) + "\n"@ + "exit\n"@,
{
    lemma_interface_literals();
    assert(interface_text(name, ip, len, cost, area, no_shutdown) =~= "!\ninterface "@ + name + "\n"@ + "  no shutdown"@
        + "\n"@ + ("  ip address "@ + ipv4_net_str(ip, len)) + "\n"@ + "exit\n"@);
}

/// `"\n" + l + "\n"` occurs in `x + "\n" + l + "\n" + y`.
proof fn lemma_line_in(x: Seq<char>, l: Seq<char>, y: Seq<char>)
    ensures
        is_infix("\n"@ + l + "\n"@, x + "\n"@ + l + "\n"@ + y),
{
    lemma_infix_mid(x, "\n"@ + l + "\n"@, y);
    assert(x + ("\n"@ + l + "\n"@) + y =~= x + "\n"@ + l + "\n"@ + y);
}

/// In `h + "\n" + l1 + "\n" + l2 + ... + "\n" + l5`, with `h` ending the first line, each line
/// `li` occurs between line breaks.
proof fn lemma_lines5(h: Seq<char>, l1: Seq<char>, l2: Seq<char>, l3: Seq<char>, l4: Seq<char>, l5: Seq<char>)
    ensures
        is_infix("\n"@ + l1 + "\n"@, h + "\n"@ + l1 + "\n"@ + l2 + "\n"@ + l3 + "\n"@ + l4 + "\n"@ + l5),
        is_infix("\n"@ + l2 + "\n"@, h + "\n"@ + l1 + "\n"@ + l2 + "\n"@ + l3 + "\n"@ + l4 + "\n"@ + l5),
        is_infix("\n"@ + l3 + "\n"@, h + "\n"@ + l1 + "\n"@ + l2 + "\n"@ + l3 + "\n"@ + l4 + "\n"@ + l5),
        is_infix("\n"@ + l4 + "\n"@, h + "\n"@ + l1 + "\n"@ + l2 + "\n"@ + l3 + "\n"@ + l4 + "\n"@ + l5),
{
    let n = "\n"@;
    let t = h + n + l1 + n + l2 + n + l3 + n + l4 + n + l5;
    assert(t =~= h + n + l1 + n + (l2 + n + l3 + n + l4 + n + l5));
    lemma_line_in(h, l1, l2 + n + l3 + n + l4 + n + l5);
    assert(t =~= (h + n + l1) + n + l2 + n + (l3 + n + l4 + n + l5));
    lemma_line_in(h + n + l1, l2, l3 + n + l4 + n + l5);
    assert(t =~= (h + n + l1 + n + l2) + n + l3 + n + (l4 + n + l5));
    lemma_line_in(h + n + l1 + n + l2, l3, l4 + n + l5);
    assert(t =~= (h + n + l1 + n + l2 + n + l3) + n + l4 + n + l5);
    lemma_line_in(h + n + l1 + n + l2 + n + l3, l4, l5);
}

/// `x + l` begins with... `l` occurs at the end of a line: `x + l + "\n" + y` holds `l + "\n"`.
proof fn lemma_head_in(l: Seq<char>, y: Seq<char>)
    ensures
        is_infix(l + "\n"@, l + "\n"@ + y),
{
    lemma_infix_mid(Seq::empty(), l + "\n"@, y);
    assert(Seq::<char>::empty() + (l + "\n"@) + y =~= l + "\n"@ + y);
}

/// In `h + "\n" + l1 + "\n" + l2 + "\n" + l3`, each of `l1` and `l2` occurs between line breaks.
proof fn lemma_lines3(h: Seq<char>, l1: Seq<char>, l2: Seq<char>, l3: Seq<char>)
    ensures
        is_infix("\n"@ + l1 + "\n"@, h + "\n"@ + l1 + "\n"@ + l2 + "\n"@ + l3),
        is_infix("\n"@ + l2 + "\n"@, h + "\n"@ + l1 + "\n"@ + l2 + "\n"@ + l3),
{
    let n = "\n"@;
    let t = h + n + l1 + n + l2 + n + l3;
    assert(t =~= h + n + l1 + n + (l2 + n + l3));
    lemma_line_in(h, l1, l2 + n + l3);
    assert(t =~= (h + n + l1) + n + l2 + n + l3);
    lemma_line_in(h + n + l1, l2, l3);
}

/// The lines of the configuration of an interface in OSPF.
proof fn lemma_interface_ospf_infixes(name: Seq<char>, ip: u32, len: u8, c: LinkWeight, a: u32, no_shutdown: bool)
    ensures
        is_infix("!\ninterface "@ + name + "\n"@, interface_text(name, ip, len, Some(c), Some(a), no_shutdown)),
        is_infix("\n"@ + ("  ip address "@ + ipv4_net_str(ip, len)) + "\n"@, interface_text(name, ip, len, Some(c), Some(a), no_shutdown)),
        is_infix("\n"@ + ("  ip ospf cost "@ + nat_str(c as nat)) + "\n"@, interface_text(name, ip, len, Some(c), Some(a), no_shutdown)),
        is_infix("\n"@ + ("  ip router ospf 10 area "@ + nat_str(a as nat)) + "\n"@,
            interface_text(name, ip, len, Some(c), Some(a), no_shutdown)),
        is_infix("\n"@ + ("  "@ + (if no_shutdown { "no "@ } else { Seq::<char>::empty() }) + "shutdown"@) + "\n"@,
            interface_text(name, ip, len, Some(c), Some(a), no_shutdown)),
{
    let h = "!\ninterface "@ + name;
    let sd = "  "@ + (if no_shutdown { "no "@ } else { Seq::<char>::empty() }) + "shutdown"@;
    let addr = "  ip address "@ + ipv4_net_str(ip, len);
    let cl = "  ip ospf cost "@ + nat_str(c as nat);
    let al = "  ip router ospf 10 area "@ + nat_str(a as nat);
    lemma_interface_ospf_lines(name, ip, len, c, a, no_shutdown);
    lemma_lines5(h, sd, addr, cl, al, "exit\n"@);
    let rest = sd + "\n"@ + addr + "\n"@ + cl + "\n"@ + al + "\n"@ + "exit\n"@;
    lemma_head_in(h, rest);
    assert(h + "\n"@ + rest =~= h + "\n"@ + sd + "\n"@ + addr + "\n"@ + cl + "\n"@ + al + "\n"@ + "exit\n"@);
}

/// The lines of the configuration of an interface outside OSPF.
proof fn lemma_interface_plain_infixes(name: Seq<char>, ip: u32, len: u8, cost: Option<LinkWeight>, area: Option<u32>,
    no_shutdown: bool)
    requires
        !(cost is Some && area is Some),
    ensures
        is_infix("!\ninterface "@ + name + "\n"@, interface_text(name, ip, len, cost, area, no_shutdown)),
        is_infix("\n"@ + ("  ip address "@ + ipv4_net_str(ip, len)) + "\n"@, interface_text(name, ip, len, cost, area, no_shutdown)),
        is_infix("\n"@ + "  no shutdown"@ + "\n"@, interface_text(name, ip, len, cost, area, no_shutdown)),
{
    let h = "!\ninterface "@ + name;
    let addr = "  ip address "@ + ipv4_net_str(ip, len);
    lemma_interface_plain_lines(name, ip, len, cost, area, no_shutdown);
    lemma_lines3(h, "  no shutdown"@, addr, "exit\n"@);
    let rest = "  no shutdown"@ + "\n"@ + addr + "\n"@ + "exit\n"@;
    lemma_head_in(h, rest);
    assert(h + "\n"@ + rest =~= h + "\n"@ + "  no shutdown"@ + "\n"@ + addr + "\n"@ + "exit\n"@);
}

/// The configuration of an interface names the interface, gives its address and, for an
/// interface in OSPF, its cost and area, and shuts it down exactly when asked to; an interface
/// outside OSPF is always brought up.
pub proof fn law_interface_text(name: Seq<char>, ip: u32, len: u8, cost: Option<LinkWeight>, area: Option<u32>,
    no_shutdown: bool)
    ensures
        is_infix("!\ninterface "@ + name + "\n"@, interface_text(name, ip, len, cost, area, no_shutdown)),
        is_infix("\n"@ + ("  ip address "@ + ipv4_net_str(ip, len)) + "\n"@, interface_text(name, ip, len, cost, area, no_shutdown)),
        (cost is Some && area is Some) ==> is_infix("\n"@ + ("  ip ospf cost "@ + nat_str(cost->0 as nat)) + "\n"@,
            interface_text(name, ip, len, cost, area, no_shutdown)),
        (cost is Some && area is Some) ==> is_infix("\n"@ + ("  ip router ospf 10 area "@ + nat_str(area->0 as nat)) + "\n"@,
            interface_text(name, ip, len, cost, area, no_shutdown)),
        (cost is Some && area is Some && !no_shutdown) ==> is_infix("\n"@ + ("  "@ + "shutdown"@) + "\n"@,
            interface_text(name, ip, len, cost, area, no_shutdown)),
        !(cost is Some && area is Some && !no_shutdown) ==> is_infix("\n"@ + "  no shutdown"@ + "\n"@,
            interface_text(name, ip, len, cost, area, no_shutdown)),
{
    lemma_interface_literals();
    if cost is Some && area is Some {
        lemma_interface_ospf_infixes(name, ip, len, cost->0, area->0, no_shutdown);
        if no_shutdown {
            assert("  "@ + "no "@ + "shutdown"@ == "  no shutdown"@);
        } else {
            assert("  "@ + Seq::<char>::empty() + "shutdown"@ =~= "  "@ + "shutdown"@);
        }
    } else {
        lemma_interface_plain_infixes(name, ip, len, cost, area, no_shutdown);
    }
}

/// The advertisement of a route from an external router brings up the loopback with the host
/// address, advertises the network in the router's AS, and prepends the AS path without its
/// first AS in the route-map item numbered after the loopback.
pub proof fn law_advertise_text(as_id: u32, net: u32, len: u8, lo: u8, ip: u32, path: Seq<AsId>)
    ensures
        is_infix(interface_text("Loopback"@ + nat_str(lo as nat), ip, len, None, None, true),
            advertise_text(as_id, net, len, lo, ip, path)),
        is_infix("!\nrouter bgp "@ + nat_str(as_id as nat) + "\n  address-family ipv4 unicast\n    network "@
            + ipv4_net_str(net, len), advertise_text(as_id, net, len, lo, ip, path)),
        is_infix("\n  exit\nexit\nroute-map neighbor-out permit "@ + nat_str(lo as nat) + "\n  match ip address "@
            + ipv4_net_str(net, len), advertise_text(as_id, net, len, lo, ip, path)),
        is_infix("\n  set as-path prepend "@ + prepend_str(path) + "\nexit\n"@, advertise_text(as_id, net, len, lo, ip, path)),
{
    let t = advertise_text(as_id, net, len, lo, ip, path);
    let e = Seq::<char>::empty();
    let i = interface_text(loopback_name(lo), ip, len, None, None, true);
    let b = "!\nrouter bgp "@ + nat_str(as_id as nat) + "\n  address-family ipv4 unicast\n    network "@
        + ipv4_net_str(net, len);
    let r = "\n  exit\nexit\nroute-map neighbor-out permit "@ + nat_str(lo as nat) + "\n  match ip address "@
        + ipv4_net_str(net, len);
    let p = "\n  set as-path prepend "@ + prepend_str(path) + "\nexit\n"@;
    assert(t =~= e + i + (b + r + p));
    lemma_infix_mid(e, i, b + r + p);
    assert(t =~= i + b + (r + p));
    lemma_infix_mid(i, b, r + p);
    assert(t =~= (i + b) + r + p);
    lemma_infix_mid(i + b, r, p);
    assert(t =~= (i + b + r) + p + e);
    lemma_infix_mid(i + b + r, p, e);
}

/// Stopping an advertisement removes the loopback, the network and the route-map item numbered
/// after the loopback.
pub proof fn law_withdraw_text(as_id: u32, lo: u8, net: u32, len: u8)
    ensures
        is_infix("!\nno interface Loopback"@ + nat_str(lo as nat), withdraw_text(as_id, lo, net, len)),
        is_infix("\nrouter bgp "@ + nat_str(as_id as nat) + "\n  address-family ipv4 unicast\n    no network "@
            + ipv4_net_str(net, len), withdraw_text(as_id, lo, net, len)),
        is_infix("\n  exit\nexit\nno route-map neighbor-out permit "@ + nat_str(lo as nat) + "\n"@,
            withdraw_text(as_id, lo, net, len)),
{
    let t = withdraw_text(as_id, lo, net, len);
    let e = Seq::<char>::empty();
    let a = "!\nno interface Loopback"@ + nat_str(lo as nat);
    let b = "\nrouter bgp "@ + nat_str(as_id as nat) + "\n  address-family ipv4 unicast\n    no network "@
        + ipv4_net_str(net, len);
    let c = "\n  exit\nexit\nno route-map neighbor-out permit "@ + nat_str(lo as nat) + "\n"@;
    assert(t =~= e + a + (b + c));
    lemma_infix_mid(e, a, b + c);
    assert(t =~= a + b + c);
    lemma_infix_mid(a, b, c);
    assert(t =~= (a + b) + c + e);
    lemma_infix_mid(a + b, c, e);
}

/// The BGP block runs in the given AS with the given router id and advertises every given
/// network.
pub proof fn law_bgp_text(router_id: u32, as_id: AsId, advertise: Seq<(u32, u8)>, i: int)
    requires
        0 <= i < advertise.len(),
    ensures
        is_infix("!\nrouter bgp "@ + nat_str(as_id.0 as nat) + "\n  router-id "@ + ipv4_str(router_id),
            bgp_text(router_id, as_id, advertise)),
        is_infix("network "@ + ipv4_net_str(advertise[i].0, advertise[i].1), bgp_text(router_id, as_id, advertise)),
{
    let t = bgp_text(router_id, as_id, advertise);
    let e = Seq::<char>::empty();
    let a = "!\nrouter bgp "@ + nat_str(as_id.0 as nat) + "\n  router-id "@ + ipv4_str(router_id);
    let j = join(network_lines(advertise), "\n    "@);
    let b = "\n  address-family ipv4 unicast\n    "@;
    let c = "\n  exit\nexit\n"@;
    assert(t =~= e + a + (b + j + c));
    lemma_infix_mid(e, a, b + j + c);
    lemma_join_part(network_lines(advertise), "\n    "@, i);
    assert(t =~= (a + b) + j + c);
    lemma_infix_extend(network_lines(advertise)[i], j, a + b, c);
}

/// The OSPF block runs OSPF with the given router id.
pub proof fn law_ospf_text(router_id: u32)
    ensures
        is_infix("\n  router-id "@ + ipv4_str(router_id) + "\n"@, ospf_text(router_id)),
        is_infix("!\nrouter ospf 10"@, ospf_text(router_id)),
{
    let t = ospf_text(router_id);
    let e = Seq::<char>::empty();
    assert(t =~= "!\nrouter ospf 10\n  router-id "@ + ipv4_str(router_id) + "\nexit\n"@);
    let l = "\n  router-id "@ + ipv4_str(router_id) + "\n"@;
    assert(t =~= "!\nrouter ospf 10"@ + l + "exit\n"@) by {
        reveal_strlit("!\nrouter ospf 10\n  router-id ");
        reveal_strlit("!\nrouter ospf 10");
        reveal_strlit("\n  router-id ");
        reveal_strlit("\nexit\n");
        reveal_strlit("\n");
        reveal_strlit("exit\n");
    }
    lemma_infix_mid("!\nrouter ospf 10"@, l, "exit\n"@);
    lemma_infix_mid(e, "!\nrouter ospf 10"@, l + "exit\n"@);
    assert(e + "!\nrouter ospf 10"@ + (l + "exit\n"@) =~= t);
}

/// The prefix list permits each network, numbered from 1.
pub proof fn law_pl_lines(list: Seq<char>, nets: Seq<u32>, len: u8, n: nat, i: int)
    requires
        0 <= i < n,
    ensures
        is_infix("\nip prefix-list "@ + list + " seq "@ + nat_str((i + 1) as nat) + " permit "@ + ipv4_net_str(nets[i], len),
            pl_lines(list, nets, len, n)),
    decreases n,
{
    let prev = pl_lines(list, nets, len, (n - 1) as nat);
    let last = "\nip prefix-list "@ + list + " seq "@ + nat_str(n) + " permit "@ + ipv4_net_str(nets[n - 1], len);
    assert(pl_lines(list, nets, len, n) =~= prev + last);
    if i == n - 1 {
        lemma_infix_mid(prev, last, Seq::empty());
        assert(prev + last + Seq::<char>::empty() =~= prev + last);
    } else {
        law_pl_lines(list, nets, len, (n - 1) as nat, i);
        lemma_infix_extend("\nip prefix-list "@ + list + " seq "@ + nat_str((i + 1) as nat) + " permit "@
            + ipv4_net_str(nets[i], len), prev, Seq::empty(), last);
        assert(Seq::<char>::empty() + prev + last =~= prev + last);
    }
}

/// The community list names each community of the first `n` as `as:community`.
pub proof fn law_comm_items(as_id: u32, cs: Seq<u32>, n: nat, i: int)
    requires
        0 <= i < n,
    ensures
        is_infix(nat_str(as_id as nat) + ":"@ + nat_str(cs[i] as nat), comm_items(as_id, cs, n)),
    decreases n,
{
    let item = nat_str(as_id as nat) + ":"@ + nat_str(cs[i] as nat);
    if n == 1 {
        lemma_infix_mid(Seq::empty(), item, Seq::empty());
        assert(Seq::<char>::empty() + item + Seq::<char>::empty() =~= comm_items(as_id, cs, n));
    } else {
        let prev = comm_items(as_id, cs, (n - 1) as nat);
        let last = nat_str(as_id as nat) + ":"@ + nat_str(cs[n - 1] as nat);
        assert(comm_items(as_id, cs, n) =~= prev + " "@ + last);
        if i == n - 1 {
            lemma_infix_mid(prev + " "@, last, Seq::empty());
            assert(prev + " "@ + last + Seq::<char>::empty() =~= prev + " "@ + last);
        } else {
            law_comm_items(as_id, cs, (n - 1) as nat, i);
            lemma_infix_extend(item, prev, Seq::empty(), " "@ + last);
            assert(Seq::<char>::empty() + prev + (" "@ + last) =~= prev + " "@ + last);
        }
    }
}

} // verus!
