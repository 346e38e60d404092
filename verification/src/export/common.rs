//! Extraction of the lists that a route-map item matches on or removes, shared by the
//! configuration generators.

use vstd::prelude::*;

use crate::route_map::{RouteMap, RouteMapMatch, RouteMapMatchAsPath, RouteMapSet};
use crate::types::{AsId, Prefix, RouterId};

verus! {

/// Translate the signed order of a route-map item into the unsigned sequence number used in the
/// router configuration (shifting the range of `i16` onto the range of `u16`).
pub fn order(old: i16) -> (r: u16)
    ensures
        r == old + 32768,
{
    ((old as i32) + 32768) as u16
}

/// The prefixes that a route must have to satisfy every prefix condition: `None` if there is no
/// prefix condition, otherwise the prefixes of the first prefix condition (in their order) that
/// also appear in every later one.
pub open spec fn prefix_list(conds: Seq<RouteMapMatch>) -> Option<Seq<Prefix>>
    decreases conds.len(),
{
    if conds.len() == 0 {
        None
    } else {
        let acc = prefix_list(conds.drop_last());
        match conds.last() {
            RouteMapMatch::Prefix(pl) => match acc {
                None => Some(pl.items()),
                Some(a) => Some(a.filter(|p: Prefix| pl.items().contains(p))),
            },
            _ => acc,
        }
    }
}

/// The distinct elements of `s`, in the order of their first occurrence.
pub open spec fn distinct<T>(s: Seq<T>) -> Seq<T>
    decreases s.len(),
{
    if s.len() == 0 {
        Seq::empty()
    } else {
        let d = distinct(s.drop_last());
        if d.contains(s.last()) { d } else { d.push(s.last()) }
    }
}

/// The communities that the conditions require, in order of appearance (with repetitions).
pub open spec fn matched_communities(conds: Seq<RouteMapMatch>) -> Seq<u32>
    decreases conds.len(),
{
    if conds.len() == 0 {
        Seq::empty()
    } else {
        let acc = matched_communities(conds.drop_last());
        match conds.last() {
            RouteMapMatch::Community(c) => acc.push(c),
            _ => acc,
        }
    }
}

/// The ASes that the AS path must contain, in order of appearance.
pub open spec fn matched_as_path(conds: Seq<RouteMapMatch>) -> Seq<AsId>
    decreases conds.len(),
{
    if conds.len() == 0 {
        Seq::empty()
    } else {
        let acc = matched_as_path(conds.drop_last());
        match conds.last() {
            RouteMapMatch::AsPath(RouteMapMatchAsPath::Contains(a)) => acc.push(a),
            _ => acc,
        }
    }
}

/// The next-hops that the conditions require, in order of appearance.
pub open spec fn matched_next_hops(conds: Seq<RouteMapMatch>) -> Seq<RouterId>
    decreases conds.len(),
{
    if conds.len() == 0 {
        Seq::empty()
    } else {
        let acc = matched_next_hops(conds.drop_last());
        match conds.last() {
            RouteMapMatch::NextHop(r) => acc.push(r),
            _ => acc,
        }
    }
}

/// The communities that the actions remove, in order of appearance (with repetitions).
pub open spec fn removed_communities(set: Seq<RouteMapSet>) -> Seq<u32>
    decreases set.len(),
{
    if set.len() == 0 {
        Seq::empty()
    } else {
        let acc = removed_communities(set.drop_last());
        match set.last() {
            RouteMapSet::DelCommunity(c) => acc.push(c),
            _ => acc,
        }
    }
}

/// The distinct elements of a non-empty list, or `None` for an empty one.
pub open spec fn nonempty_distinct(s: Seq<u32>) -> Option<Seq<u32>> {
    if s.len() == 0 { None } else { Some(distinct(s)) }
}

/// Membership test on a vector of numbers.
fn vec_contains(v: &Vec<u32>, x: u32) -> (b: bool)
    ensures
        b == v@.contains(x),
{
    let mut i: usize = 0;
    while i < v.len()
        invariant
            i <= v@.len(),
            forall|j: int| 0 <= j < i ==> v@[j] != x,
        decreases v@.len() - i,
    {
        if v[i] == x {
            return true;
        }
        i = i + 1;
    }
    false
}

/// Extract the list of prefixes that is matched in the route-map.
pub fn rm_match_prefix_list(rm: &RouteMap) -> (r: Option<Vec<Prefix>>)
    ensures
        r matches Some(v) ==> prefix_list(rm.conds@) == Some(v@),
        r is None ==> prefix_list(rm.conds@) is None,
{
    let mut prefixes: Option<Vec<Prefix>> = None;
    let mut i: usize = 0;
    while i < rm.conds.len()
        invariant
            i <= rm.conds@.len(),
            prefixes matches Some(v) ==> prefix_list(rm.conds@.take(i as int)) == Some(v@),
            prefixes is None ==> prefix_list(rm.conds@.take(i as int)) is None,
        decreases rm.conds@.len() - i,
    {
        assert(rm.conds@.take(i + 1).drop_last() =~= rm.conds@.take(i as int));
        match &rm.conds[i] {
            RouteMapMatch::Prefix(pl) => {
                match prefixes {
                    None => {
                        let mut v: Vec<Prefix> = Vec::new();
                        let mut k: usize = 0;
                        while k < pl.len()
                            invariant
                                k <= pl.items().len(),
                                v@ == pl.items().take(k as int),
                            decreases pl.items().len() - k,
                        {
                            v.push(pl.get(k));
                            k = k + 1;
                            assert(v@ =~= pl.items().take(k as int));
                        }
                        assert(pl.items().take(pl.items().len() as int) =~= pl.items());
                        prefixes = Some(v);
                    },
                    Some(old) => {
                        let ghost pred = |p: Prefix| pl.items().contains(p);
                        let mut v: Vec<Prefix> = Vec::new();
                        let mut k: usize = 0;
                        while k < old.len()
                            invariant
                                k <= old@.len(),
                                v@ == old@.take(k as int).filter(pred),
                                pred == (|p: Prefix| pl.items().contains(p)),
                            decreases old@.len() - k,
                        {
                            proof {
                                reveal_with_fuel(Seq::<_>::filter, 1);
                                assert(old@.take(k + 1).drop_last() =~= old@.take(k as int));
                            }
                            if pl.contains(old[k]) {
                                v.push(old[k]);
                            }
                            k = k + 1;
                        }
                        assert(old@.take(old@.len() as int) =~= old@);
                        prefixes = Some(v);
                    },
                }
            },
            _ => {},
        }
        i = i + 1;
    }
    assert(rm.conds@.take(rm.conds@.len() as int) =~= rm.conds@);
    prefixes
}

/// The distinct communities that a route must carry to match the route-map, or `None` if it does
/// not match on communities.
pub fn rm_match_community_list(rm: &RouteMap) -> (r: Option<Vec<u32>>)
    ensures
        r matches Some(v) ==> nonempty_distinct(matched_communities(rm.conds@)) == Some(v@),
        r is None ==> nonempty_distinct(matched_communities(rm.conds@)) is None,
{
    let mut communities: Vec<u32> = Vec::new();
    let mut i: usize = 0;
    while i < rm.conds.len()
        invariant
            i <= rm.conds@.len(),
            communities@ == distinct(matched_communities(rm.conds@.take(i as int))),
            communities@.len() == 0 <==> matched_communities(rm.conds@.take(i as int)).len() == 0,
        decreases rm.conds@.len() - i,
    {
        assert(rm.conds@.take(i + 1).drop_last() =~= rm.conds@.take(i as int));
        match &rm.conds[i] {
            RouteMapMatch::Community(c) => {
                let ghost m = matched_communities(rm.conds@.take(i as int));
                assert(m.push(*c).drop_last() =~= m);
                if !vec_contains(&communities, *c) {
                    communities.push(*c);
                }
            },
            _ => {},
        }
        i = i + 1;
    }
    assert(rm.conds@.take(rm.conds@.len() as int) =~= rm.conds@);
    if communities.len() == 0 {
        None
    } else {
        Some(communities)
    }
}

/// The AS-path regular expression that the route-map matches on: `_<as>_` if the route-map
/// requires one AS on the path, `None` if it requires none. More than one AS is not supported.
pub fn rm_match_as_path_list(rm: &RouteMap) -> (r: Option<String>)
    requires
        matched_as_path(rm.conds@).len() <= 1,
    ensures
        matched_as_path(rm.conds@).len() == 0 ==> r is None,
        matched_as_path(rm.conds@).len() == 1 ==> (r matches Some(s)
            && s@ == "_"@ + crate::text::nat_str(matched_as_path(rm.conds@)[0].0 as nat) + "_"@),
{
    let mut found: Option<AsId> = None;
    let mut i: usize = 0;
    while i < rm.conds.len()
        invariant
            i <= rm.conds@.len(),
            matched_as_path(rm.conds@.take(i as int)).len() == 0 ==> found is None,
            matched_as_path(rm.conds@.take(i as int)).len() > 0 ==> found == Some(matched_as_path(rm.conds@.take(i as int))[0]),
            matched_as_path(rm.conds@.take(i as int)).len() <= matched_as_path(rm.conds@).len(),
        decreases rm.conds@.len() - i,
    {
        assert(rm.conds@.take(i + 1).drop_last() =~= rm.conds@.take(i as int));
        proof { lemma_as_path_prefix(rm.conds@, i as int + 1); }
        if let RouteMapMatch::AsPath(RouteMapMatchAsPath::Contains(a)) = &rm.conds[i] {
            if found.is_none() {
                found = Some(*a);
            }
        }
        i = i + 1;
    }
    assert(rm.conds@.take(rm.conds@.len() as int) =~= rm.conds@);
    match found {
        None => None,
        Some(a) => {
            let mut s = String::new();
            s.append("_");
            crate::text::push_u64(&mut s, a.0 as u64);
            s.append("_");
            Some(s)
        },
    }
}

/// The ASes required by a prefix of the conditions are at most those required by all of them.
proof fn lemma_as_path_prefix(conds: Seq<RouteMapMatch>, n: int)
    requires
        0 <= n <= conds.len(),
    ensures
        matched_as_path(conds.take(n)).len() <= matched_as_path(conds).len(),
    decreases conds.len() - n,
{
    if n < conds.len() {
        lemma_as_path_prefix(conds, n + 1);
        assert(conds.take(n + 1).drop_last() =~= conds.take(n));
    } else {
        assert(conds.take(n) =~= conds);
    }
}

/// The next-hop that the route-map matches on, if any. All next-hop conditions of the item must
/// name the same router.
pub fn rm_match_next_hop(rm: &RouteMap) -> (r: Option<RouterId>)
    requires
        forall|i: int, j: int| 0 <= i < matched_next_hops(rm.conds@).len() && 0 <= j < matched_next_hops(rm.conds@).len()
            ==> matched_next_hops(rm.conds@)[i] == matched_next_hops(rm.conds@)[j],
    ensures
        matched_next_hops(rm.conds@).len() == 0 ==> r is None,
        matched_next_hops(rm.conds@).len() > 0 ==> r == Some(matched_next_hops(rm.conds@)[0]),
{
    let mut next_hop: Option<RouterId> = None;
    let mut i: usize = 0;
    while i < rm.conds.len()
        invariant
            i <= rm.conds@.len(),
            matched_next_hops(rm.conds@.take(i as int)).len() == 0 ==> next_hop is None,
            matched_next_hops(rm.conds@.take(i as int)).len() > 0 ==> next_hop == Some(matched_next_hops(rm.conds@.take(i as int))[0]),
            matched_next_hops(rm.conds@.take(i as int)).len() > 0 ==> matched_next_hops(rm.conds@.take(i as int))[0] == matched_next_hops(rm.conds@)[0],
        decreases rm.conds@.len() - i,
    {
        assert(rm.conds@.take(i + 1).drop_last() =~= rm.conds@.take(i as int));
        proof { lemma_next_hops_prefix(rm.conds@, i as int + 1); }
        if let RouteMapMatch::NextHop(nh) = &rm.conds[i] {
            if next_hop.is_none() {
                next_hop = Some(*nh);
            }
        }
        i = i + 1;
    }
    assert(rm.conds@.take(rm.conds@.len() as int) =~= rm.conds@);
    next_hop
}

/// The next-hops required by a prefix of the conditions are a prefix of those of all of them.
proof fn lemma_next_hops_prefix(conds: Seq<RouteMapMatch>, n: int)
    requires
        0 <= n <= conds.len(),
    ensures
        matched_next_hops(conds.take(n)).len() <= matched_next_hops(conds).len(),
        forall|k: int| 0 <= k < matched_next_hops(conds.take(n)).len()
            ==> matched_next_hops(conds.take(n))[k] == matched_next_hops(conds)[k],
    decreases conds.len() - n,
{
    if n < conds.len() {
        lemma_next_hops_prefix(conds, n + 1);
        assert(conds.take(n + 1).drop_last() =~= conds.take(n));
    } else {
        assert(conds.take(n) =~= conds);
    }
}

/// The distinct communities that the route-map removes from a route, or `None` if it removes none.
pub fn rm_unset_community_list(rm: &RouteMap) -> (r: Option<Vec<u32>>)
    ensures
        r matches Some(v) ==> nonempty_distinct(removed_communities(rm.set@)) == Some(v@),
        r is None ==> nonempty_distinct(removed_communities(rm.set@)) is None,
{
    let mut communities: Vec<u32> = Vec::new();
    let mut i: usize = 0;
    while i < rm.set.len()
        invariant
            i <= rm.set@.len(),
            communities@ == distinct(removed_communities(rm.set@.take(i as int))),
            communities@.len() == 0 <==> removed_communities(rm.set@.take(i as int)).len() == 0,
        decreases rm.set@.len() - i,
    {
        assert(rm.set@.take(i + 1).drop_last() =~= rm.set@.take(i as int));
        if let RouteMapSet::DelCommunity(c) = rm.set[i] {
            let ghost m = removed_communities(rm.set@.take(i as int));
            assert(m.push(c).drop_last() =~= m);
            if !vec_contains(&communities, c) {
                communities.push(c);
            }
        }
        i = i + 1;
    }
    assert(rm.set@.take(rm.set@.len() as int) =~= rm.set@);
    if communities.len() == 0 {
        None
    } else {
        Some(communities)
    }
}

} // verus!
