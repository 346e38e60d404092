//! The global forwarding state: the next hops of every router for every prefix, with queries for
//! routes, black holes, terminals and the routers that forward to a given router.
//!
//! A router whose only next hop is the pseudo-router `TO_DST_ID` is a terminal: it delivers the
//! packets itself (an external router that advertises the prefix).

use vstd::prelude::*;
use vstd::std_specs::cmp::PartialEqSpecImpl;

use crate::assoc::{assoc_map, keys_distinct, lemma_assoc_index, lemma_assoc_key, lemma_assoc_len,
    lemma_assoc_push, lemma_assoc_remove, lemma_assoc_update};
use crate::types::{same_routers, FwDelta, NetworkError, Prefix, RouterId, TO_DST_ID};

verus! {

/// The abstract forwarding state: the next hops stored for a router and a prefix.
pub type FwMap = Map<(RouterId, Prefix), Seq<RouterId>>;

/// The pseudo-router that stands for the destination.
pub open spec fn to_dst() -> RouterId {
    RouterId(TO_DST_ID)
}

/// The next hops stored for `router` and `prefix` (empty if none).
pub open spec fn stored_hops(fw: FwMap, router: RouterId, prefix: Prefix) -> Seq<RouterId> {
    if fw.contains_key((router, prefix)) {
        fw[(router, prefix)]
    } else {
        Seq::empty()
    }
}

/// The router is a terminal for the prefix: its only next hop is the destination.
pub open spec fn is_terminal_spec(fw: FwMap, router: RouterId, prefix: Prefix) -> bool {
    stored_hops(fw, router, prefix) == seq![to_dst()]
}

/// The next hops towards other routers: empty for terminals.
pub open spec fn next_hops(fw: FwMap, router: RouterId, prefix: Prefix) -> Seq<RouterId> {
    if is_terminal_spec(fw, router, prefix) {
        Seq::empty()
    } else {
        stored_hops(fw, router, prefix)
    }
}

/// The routers that have `router` among their stored next hops for `prefix`.
pub open spec fn prev_hops(fw: FwMap, router: RouterId, prefix: Prefix) -> Set<RouterId> {
    Set::new(|x: RouterId| stored_hops(fw, x, prefix).contains(router))
}

/// An entry of the forwarding state.
#[derive(Debug)]
struct FwEntry {
    router: RouterId,
    prefix: Prefix,
    next_hops: Vec<RouterId>,
}

/// The abstract value of an entry: its key and its next hops.
spec fn entry_view(e: FwEntry) -> ((RouterId, Prefix), Seq<RouterId>) {
    ((e.router, e.prefix), e.next_hops@)
}

/// The abstract values of the entries.
spec fn entry_views(s: Seq<FwEntry>) -> Seq<((RouterId, Prefix), Seq<RouterId>)> {
    s.map_values(|e: FwEntry| entry_view(e))
}

/// The forwarding state: for each router and prefix, a non-empty list of next hops.
#[derive(Debug)]
pub struct ForwardingState {
    entries: Vec<FwEntry>,
}

impl View for ForwardingState {
    type V = FwMap;

    closed spec fn view(&self) -> FwMap {
        assoc_map(entry_views(self.entries@))
    }
}

impl ForwardingState {
    /// Keys are unique and no list of next hops is empty.
    #[verifier::type_invariant]
    spec fn well_formed(self) -> bool {
        &&& keys_distinct(entry_views(self.entries@))
        &&& forall|i: int| 0 <= i < self.entries@.len() ==> #[trigger] self.entries@[i].next_hops@.len() > 0
    }

    /// An empty forwarding state.
    pub fn new() -> (s: ForwardingState)
        ensures
            s@ == FwMap::empty(),
    {
        let s = ForwardingState { entries: Vec::new() };
        assert(s@ =~= FwMap::empty());
        s
    }

    /// Index of the entry of `router` and `prefix`.
    fn find(&self, router: RouterId, prefix: Prefix) -> (r: Option<usize>)
        ensures
            match r {
                Some(i) => i < self.entries@.len() && self.entries@[i as int].router == router
                    && self.entries@[i as int].prefix == prefix
                    && self@.contains_key((router, prefix))
                    && self@[(router, prefix)] == self.entries@[i as int].next_hops@,
                None => !self@.contains_key((router, prefix)),
            },
    {
        proof {
            use_type_invariant(self);
        }
        let ghost s = entry_views(self.entries@);
        let mut i: usize = 0;
        while i < self.entries.len()
            invariant
                i <= self.entries@.len(),
                s == entry_views(self.entries@),
                keys_distinct(s),
                forall|j: int| 0 <= j < i ==> (#[trigger] s[j]).0 != (router, prefix),
            decreases self.entries@.len() - i,
        {
            let e = &self.entries[i];
            proof {
                assert(s[i as int] == entry_view(self.entries@[i as int]));
            }
            if e.router.0 == router.0 && e.prefix.0 == prefix.0 {
                proof {
                    lemma_assoc_index(s, i as int);
                }
                return Some(i);
            }
            i = i + 1;
        }
        proof {
            if self@.contains_key((router, prefix)) {
                let j = lemma_assoc_key(s, (router, prefix));
            }
        }
        None
    }

    /// The next hops of `router` for `prefix`. The result is empty both for routers that drop the
    /// packets and for terminals (use `is_black_hole` to tell them apart).
    pub fn get_next_hops(&self, router: RouterId, prefix: Prefix) -> (r: &[RouterId])
        ensures
            r@ == next_hops(self@, router, prefix),
    {
        match self.find(router, prefix) {
            Some(i) => {
                let nh = self.entries[i].next_hops.as_slice();
                if nh.len() == 1 && nh[0].0 == TO_DST_ID {
                    assert(nh@ =~= seq![to_dst()]);
                    &[]
                } else {
                    assert(!(nh@ =~= seq![to_dst()]) ==> nh@ != seq![to_dst()]);
                    nh
                }
            },
            None => &[],
        }
    }
}

impl ForwardingState {
    /// Whether `router` drops the packets for `prefix`: it has no next hop and is no terminal.
    pub fn is_black_hole(&self, router: RouterId, prefix: Prefix) -> (b: bool)
        ensures
            b == (stored_hops(self@, router, prefix).len() == 0),
            b ==> next_hops(self@, router, prefix).len() == 0,
    {
        proof {
            use_type_invariant(self);
        }
        match self.find(router, prefix) {
            Some(i) => {
                assert(self.entries@[i as int].next_hops@.len() > 0);
                false
            },
            None => true,
        }
    }

    /// Set the next hops of `source` for `prefix`. An empty list removes the entry. A router that
    /// becomes a terminal gets the single next hop `TO_DST_ID`.
    pub fn update(&mut self, source: RouterId, prefix: Prefix, next_hops: Vec<RouterId>)
        ensures
            next_hops@.len() == 0 ==> final(self)@ == old(self)@.remove((source, prefix)),
            next_hops@.len() > 0 ==> final(self)@ == old(self)@.insert((source, prefix), next_hops@),
    {
        proof {
            use_type_invariant(&*self);
        }
        let ghost s = entry_views(self.entries@);
        let found = self.find(source, prefix);
        let mut v: Vec<FwEntry> = Vec::new();
        std::mem::swap(&mut v, &mut self.entries);
        if next_hops.len() == 0 {
            if let Some(i) = found {
                proof {
                    lemma_assoc_remove(s, i as int);
                    assert(entry_views(v@.remove(i as int)) =~= s.remove(i as int));
                    assert forall|j: int| 0 <= j < v@.remove(i as int).len()
                        implies #[trigger] v@.remove(i as int)[j].next_hops@.len() > 0 by {
                        assert(v@.remove(i as int)[j] == v@[if j < i { j } else { j + 1 }]);
                    }
                }
                v.remove(i);
            } else {
                assert(old(self)@.remove((source, prefix)) =~= old(self)@);
            }
        } else {
            match found {
                Some(i) => {
                    let ghost nh = next_hops@;
                    proof {
                        lemma_assoc_update(s, i as int, nh);
                        assert(s[i as int].0 == (source, prefix));
                    }
                    let e = FwEntry { router: source, prefix, next_hops };
                    v.set(i, e);
                    proof {
                        assert(entry_views(v@) =~= s.update(i as int, (s[i as int].0, nh)));
                    }
                },
                None => {
                    let e = FwEntry { router: source, prefix, next_hops };
                    proof {
                        lemma_assoc_push(s, entry_view(e));
                    }
                    v.push(e);
                    proof {
                        assert(entry_views(v@) =~= s.push(entry_view(e)));
                    }
                },
            }
        }
        self.entries = v;
    }

    /// The routers that have `router` among their next hops for `prefix`, each once.
    pub fn get_prev_hops(&self, router: RouterId, prefix: Prefix) -> (r: Vec<RouterId>)
        ensures
            r@.no_duplicates(),
            r@.to_set() == prev_hops(self@, router, prefix),
    {
        proof {
            use_type_invariant(self);
        }
        let ghost s = entry_views(self.entries@);
        let mut r: Vec<RouterId> = Vec::new();
        let mut i: usize = 0;
        while i < self.entries.len()
            invariant
                i <= self.entries@.len(),
                s == entry_views(self.entries@),
                keys_distinct(s),
                r@.no_duplicates(),
                forall|x: RouterId| r@.contains(x) <==> exists|j: int| 0 <= j < i && (#[trigger] s[j]).0 == (x, prefix)
                    && s[j].1.contains(router),
            decreases self.entries@.len() - i,
        {
            let e = &self.entries[i];
            proof {
                assert(s[i as int] == entry_view(self.entries@[i as int]));
            }
            if e.prefix.0 == prefix.0 && contains_router(&e.next_hops, router) {
                proof {
                    assert forall|y: int| 0 <= y < r@.len() implies r@[y] != e.router by {
                        let x = r@[y];
                        assert(r@.contains(x));
                        let j = choose|j: int| 0 <= j < i && (#[trigger] s[j]).0 == (x, prefix) && s[j].1.contains(router);
                        assert(s[j].0 != s[i as int].0);
                    }
                    assert forall|x: RouterId| r@.push(e.router).contains(x) <==> exists|j: int| 0 <= j < i + 1
                        && (#[trigger] s[j]).0 == (x, prefix) && s[j].1.contains(router) by {
                        if x == e.router {
                            assert(r@.push(e.router)[r@.len() as int] == x);
                        }
                        if r@.push(e.router).contains(x) && x != e.router {
                            let y = choose|y: int| 0 <= y < r@.push(e.router).len() && r@.push(e.router)[y] == x;
                            assert(r@[y] == x);
                        }
                        if r@.contains(x) {
                            let y = choose|y: int| 0 <= y < r@.len() && r@[y] == x;
                            assert(r@.push(e.router)[y] == x);
                        }
                    }
                }
                r.push(e.router);
            } else {
                proof {
                    assert forall|x: RouterId| r@.contains(x) <==> exists|j: int| 0 <= j < i + 1
                        && (#[trigger] s[j]).0 == (x, prefix) && s[j].1.contains(router) by {
                        if exists|j: int| 0 <= j < i + 1 && (#[trigger] s[j]).0 == (x, prefix) && s[j].1.contains(router) {
                            let j = choose|j: int| 0 <= j < i + 1 && (#[trigger] s[j]).0 == (x, prefix) && s[j].1.contains(router);
                            assert(j != i);
                        }
                    }
                }
            }
            i = i + 1;
        }
        proof {
            let m = self@;
            assert forall|x: RouterId| #[trigger] r@.to_set().contains(x) == prev_hops(m, router, prefix).contains(x) by {
                if r@.contains(x) {
                    let j = choose|j: int| 0 <= j < s.len() && (#[trigger] s[j]).0 == (x, prefix) && s[j].1.contains(router);
                    lemma_assoc_index(s, j);
                }
                if prev_hops(m, router, prefix).contains(x) {
                    assert(m.contains_key((x, prefix)));
                    let j = lemma_assoc_key(s, (x, prefix));
                    assert(s[j].0 == (x, prefix) && s[j].1.contains(router));
                }
            }
            assert(r@.to_set() =~= prev_hops(m, router, prefix));
        }
        r
    }

    /// The routers that are terminals for `prefix` or have the destination among their next hops,
    /// each once.
    pub fn get_terminals(&self, prefix: Prefix) -> (r: Vec<RouterId>)
        ensures
            r@.no_duplicates(),
            r@.to_set() == prev_hops(self@, to_dst(), prefix),
    {
        self.get_prev_hops(RouterId(TO_DST_ID), prefix)
    }

    /// Whether `router` has the destination among its next hops for `prefix`.
    pub fn is_terminal(&self, router: RouterId, prefix: Prefix) -> (b: bool)
        ensures
            b == stored_hops(self@, router, prefix).contains(to_dst()),
    {
        match self.find(router, prefix) {
            Some(i) => contains_router(&self.entries[i].next_hops, RouterId(TO_DST_ID)),
            None => false,
        }
    }
}

/// Whether `x` occurs in `v`.
pub fn contains_router(v: &Vec<RouterId>, x: RouterId) -> (b: bool)
    ensures
        b == v@.contains(x),
{
    let mut i: usize = 0;
    while i < v.len()
        invariant
            i <= v@.len(),
            forall|j: int| 0 <= j < i ==> v@[j] != x,
        decreases v@.len() - i,
    {
        if v[i].0 == x.0 {
            assert(v@[i as int] == x);
            return true;
        }
        i = i + 1;
    }
    false
}

/// A forwarding path: each router is followed by one of its next hops.
pub open spec fn is_fw_path(fw: FwMap, prefix: Prefix, path: Seq<RouterId>) -> bool {
    path.len() > 0 && forall|i: int| 0 <= i < path.len() - 1
        ==> next_hops(fw, #[trigger] path[i], prefix).contains(path[i + 1])
}

/// Packets for `prefix` at `from` can be forwarded to `to`.
pub open spec fn reachable(fw: FwMap, prefix: Prefix, from: RouterId, to: RouterId) -> bool {
    exists|path: Seq<RouterId>| #[trigger] is_fw_path(fw, prefix, path) && path[0] == from && path.last() == to
}

/// A router reaches itself.
proof fn lemma_reach_self(fw: FwMap, prefix: Prefix, x: RouterId)
    ensures
        reachable(fw, prefix, x, x),
{
    let path = seq![x];
    assert(is_fw_path(fw, prefix, path));
}

/// What a router reaches, reaches the next hops too.
proof fn lemma_reach_step(fw: FwMap, prefix: Prefix, from: RouterId, x: RouterId, y: RouterId)
    requires
        reachable(fw, prefix, from, x),
        next_hops(fw, x, prefix).contains(y),
    ensures
        reachable(fw, prefix, from, y),
{
    let path = choose|path: Seq<RouterId>| #[trigger] is_fw_path(fw, prefix, path) && path[0] == from && path.last() == x;
    let q = path.push(y);
    assert forall|i: int| 0 <= i < q.len() - 1 implies next_hops(fw, #[trigger] q[i], prefix).contains(q[i + 1]) by {
        if i < path.len() - 1 {
            assert(q[i] == path[i] && q[i + 1] == path[i + 1]);
        } else {
            assert(q[i] == x && q[i + 1] == y);
        }
    }
    assert(is_fw_path(fw, prefix, q));
}

/// A set of routers that holds `from` and the next hops of each of its routers holds every router
/// that `from` reaches.
proof fn lemma_closed_holds_reach(fw: FwMap, prefix: Prefix, from: RouterId, set: Seq<RouterId>, to: RouterId)
    requires
        set.contains(from),
        forall|x: RouterId, y: RouterId| #![trigger set.contains(x), next_hops(fw, x, prefix).contains(y)]
            set.contains(x) && next_hops(fw, x, prefix).contains(y) ==> set.contains(y),
        reachable(fw, prefix, from, to),
    ensures
        set.contains(to),
{
    let path = choose|path: Seq<RouterId>| #[trigger] is_fw_path(fw, prefix, path) && path[0] == from && path.last() == to;
    lemma_path_in_closed(fw, prefix, path, set, path.len() - 1);
}

/// Every router of a forwarding path that starts in a closed set is in the set.
proof fn lemma_path_in_closed(fw: FwMap, prefix: Prefix, path: Seq<RouterId>, set: Seq<RouterId>, i: int)
    requires
        is_fw_path(fw, prefix, path),
        set.contains(path[0]),
        forall|x: RouterId, y: RouterId| #![trigger set.contains(x), next_hops(fw, x, prefix).contains(y)]
            set.contains(x) && next_hops(fw, x, prefix).contains(y) ==> set.contains(y),
        0 <= i < path.len(),
    ensures
        set.contains(path[i]),
    decreases i,
{
    if i > 0 {
        lemma_path_in_closed(fw, prefix, path, set, i - 1);
        assert(next_hops(fw, path[i - 1], prefix).contains(path[i - 1 + 1]));
    }
}

/// The entries for `prefix` of routers not yet in `seen`.
pub open spec fn unvisited(fw: FwMap, prefix: Prefix, seen: Seq<RouterId>) -> Set<(RouterId, Prefix)> {
    Set::new(|k: (RouterId, Prefix)| fw.contains_key(k) && k.1 == prefix && !seen.contains(k.0))
}

impl ForwardingState {
    /// The routers on any forwarding path from `router` towards `prefix`, each once, `router`
    /// included. Forwarding loops and black holes do not stop the search.
    pub fn get_nodes_along_paths(&self, router: RouterId, prefix: Prefix) -> (r: Vec<RouterId>)
        ensures
            r@.no_duplicates(),
            r@.contains(router),
            forall|x: RouterId| r@.contains(x) <==> reachable(self@, prefix, router, x),
    {
        proof {
            use_type_invariant(self);
            lemma_assoc_len(entry_views(self.entries@));
        }
        let ghost fw = self@;
        let mut result: Vec<RouterId> = Vec::new();
        let mut to_visit: Vec<RouterId> = Vec::new();
        to_visit.push(router);
        proof {
            lemma_reach_self(fw, prefix, router);
            assert(to_visit@[0] == router);
        }
        while to_visit.len() > 0
            invariant
                fw == self@,
                fw.dom().finite(),
                result@.no_duplicates(),
                forall|x: RouterId| #[trigger] result@.contains(x) ==> reachable(fw, prefix, router, x),
                forall|x: RouterId| #[trigger] to_visit@.contains(x) ==> reachable(fw, prefix, router, x),
                result@.contains(router) || to_visit@.contains(router),
                forall|x: RouterId, y: RouterId| #![trigger result@.contains(x), next_hops(fw, x, prefix).contains(y)]
                    result@.contains(x) && next_hops(fw, x, prefix).contains(y)
                    ==> result@.contains(y) || to_visit@.contains(y),
            decreases unvisited(fw, prefix, result@).len(), to_visit@.len(),
        {
            let ghost old_result = result@;
            let ghost old_visit = to_visit@;
            let cur = to_visit.pop().unwrap();
            proof {
                assert(old_visit == to_visit@.push(cur));
                assert(old_visit[old_visit.len() - 1] == cur);
                assert forall|x: RouterId| old_visit.contains(x) implies to_visit@.contains(x) || x == cur by {
                    let j = choose|j: int| 0 <= j < old_visit.len() && old_visit[j] == x;
                    if j < to_visit@.len() {
                        assert(to_visit@[j] == x);
                    }
                }
                assert forall|x: RouterId| to_visit@.contains(x) implies old_visit.contains(x) by {
                    let j = choose|j: int| 0 <= j < to_visit@.len() && to_visit@[j] == x;
                    assert(old_visit[j] == x);
                }
                assert(old_visit.contains(cur));
                assert(reachable(fw, prefix, router, cur));
                assert forall|x: RouterId| #[trigger] to_visit@.contains(x) implies reachable(fw, prefix, router, x) by {
                    assert(old_visit.contains(x));
                }
                assert(unvisited(fw, prefix, result@).subset_of(fw.dom()));
                vstd::set_lib::lemma_len_subset(unvisited(fw, prefix, result@), fw.dom());
            }
            if !contains_router(&result, cur) {
                proof {
                    assert forall|a: int, b: int| 0 <= a < result@.push(cur).len() && 0 <= b < result@.push(cur).len() && a != b
                        implies result@.push(cur)[a] != result@.push(cur)[b] by {
                        if a < result@.len() && b < result@.len() {
                        } else if a < result@.len() {
                            assert(result@.contains(result@[a]));
                        } else {
                            assert(result@.contains(result@[b]));
                        }
                    }
                }
                result.push(cur);
                proof {
                    assert forall|x: RouterId| #[trigger] result@.contains(x) implies old_result.contains(x) || x == cur by {
                        let j = choose|j: int| 0 <= j < result@.len() && result@[j] == x;
                        if j < old_result.len() {
                            assert(old_result[j] == x);
                        }
                    }
                    assert forall|x: RouterId| old_result.contains(x) implies #[trigger] result@.contains(x) by {
                        let j = choose|j: int| 0 <= j < old_result.len() && old_result[j] == x;
                        assert(result@[j] == x);
                    }
                    assert(result@[old_result.len() as int] == cur);
                    if fw.contains_key((cur, prefix)) {
                        assert(unvisited(fw, prefix, old_result).contains((cur, prefix)));
                        assert(unvisited(fw, prefix, result@) =~= unvisited(fw, prefix, old_result).remove((cur, prefix)));
                    } else {
                        assert(unvisited(fw, prefix, result@) =~= unvisited(fw, prefix, old_result));
                    }
                }
                let nhs = self.get_next_hops(cur, prefix);
                let ghost start_len = to_visit@.len();
                let mut j: usize = 0;
                while j < nhs.len()
                    invariant
                        fw == self@,
                        nhs@ == next_hops(fw, cur, prefix),
                        j <= nhs@.len(),
                        to_visit@.len() <= start_len + j,
                        result@.contains(cur),
                        reachable(fw, prefix, router, cur),
                        forall|x: RouterId| #[trigger] to_visit@.contains(x) ==> reachable(fw, prefix, router, x),
                        forall|x: RouterId| old_visit.contains(x) ==> #[trigger] to_visit@.contains(x) || x == cur,
                        forall|jj: int| 0 <= jj < j ==> result@.contains(#[trigger] nhs@[jj]) || to_visit@.contains(nhs@[jj]),
                    decreases nhs@.len() - j,
                {
                    let nh = nhs[j];
                    if !contains_router(&result, nh) {
                        proof {
                            assert(nhs@.contains(nh));
                            lemma_reach_step(fw, prefix, router, cur, nh);
                        }
                        let ghost before = to_visit@;
                        assert(forall|x: RouterId| #[trigger] before.contains(x) ==> reachable(fw, prefix, router, x));
                        to_visit.push(nh);
                        proof {
                            assert forall|x: RouterId| #[trigger] to_visit@.contains(x) implies reachable(fw, prefix, router, x) by {
                                let k = choose|k: int| 0 <= k < to_visit@.len() && to_visit@[k] == x;
                                if k < before.len() {
                                    assert(before[k] == x);
                                    assert(before.contains(x));
                                }
                            }
                            assert forall|x: RouterId| before.contains(x) implies #[trigger] to_visit@.contains(x) by {
                                let k = choose|k: int| 0 <= k < before.len() && before[k] == x;
                                assert(to_visit@[k] == x);
                            }
                            assert(to_visit@[before.len() as int] == nh);
                        }
                    }
                    j = j + 1;
                }
                proof {
                    assert forall|x: RouterId, y: RouterId| #![trigger result@.contains(x), next_hops(fw, x, prefix).contains(y)]
                        result@.contains(x) && next_hops(fw, x, prefix).contains(y)
                        implies result@.contains(y) || to_visit@.contains(y) by {
                        if x == cur {
                            let jj = choose|jj: int| 0 <= jj < nhs@.len() && nhs@[jj] == y;
                            assert(result@.contains(nhs@[jj]) || to_visit@.contains(nhs@[jj]));
                        } else {
                            assert(old_result.contains(x));
                            assert(old_result.contains(y) || old_visit.contains(y));
                        }
                    }
                }
            }
        }
        proof {
            assert forall|x: RouterId| reachable(fw, prefix, router, x) implies result@.contains(x) by {
                lemma_closed_holds_reach(fw, prefix, router, result@, x);
            }
            lemma_reach_self(fw, prefix, router);
        }
        result
    }
}

/// Why a route query failed.
pub enum RouteFailure {
    /// A forwarding loop: from the first router on the loop back to it.
    Loop(Seq<RouterId>),
    /// A router without next hops.
    BlackHole(Seq<RouterId>),
}

/// The result of a route query: all forwarding paths, or the first failure.
pub type RouteOutcome = Result<Seq<Seq<RouterId>>, RouteFailure>;

/// The position of `x` in `path`.
pub open spec fn position(path: Seq<RouterId>, x: RouterId) -> int {
    choose|i: int| 0 <= i < path.len() && path[i] == x
}

/// The forwarding paths from the last router of `path` (reached along `path`), explored depth
/// first with the next hops in their stored order. A router without next hops is a black hole; a
/// next hop already on the path closes a loop. `fuel` bounds the depth of the exploration.
pub open spec fn route_from(fw: FwMap, prefix: Prefix, path: Seq<RouterId>, fuel: nat) -> RouteOutcome
    decreases fuel, 0nat,
{
    let cur = path.last();
    let nhs = stored_hops(fw, cur, prefix);
    if nhs.len() == 0 {
        Err(RouteFailure::BlackHole(seq![cur]))
    } else if nhs == seq![to_dst()] {
        Ok(seq![seq![cur]])
    } else if fuel == 0 {
        Ok(Seq::empty())
    } else {
        route_via(fw, prefix, path, nhs, 0, (fuel - 1) as nat)
    }
}

/// The forwarding paths from the last router of `path` through its next hops `nhs[i..]`.
pub open spec fn route_via(fw: FwMap, prefix: Prefix, path: Seq<RouterId>, nhs: Seq<RouterId>, i: int, fuel: nat)
    -> RouteOutcome
    decreases fuel, (nhs.len() - i) as nat,
{
    if i < 0 || i >= nhs.len() {
        Ok(Seq::empty())
    } else {
        let nh = nhs[i];
        if path.contains(nh) {
            Err(RouteFailure::Loop(path.subrange(position(path, nh), path.len() as int).push(nh)))
        } else {
            match route_from(fw, prefix, path.push(nh), fuel) {
                Err(e) => Err(e),
                Ok(sub) => match route_via(fw, prefix, path, nhs, i + 1, fuel) {
                    Err(e) => Err(e),
                    Ok(rest) => Ok(sub.map_values(|q: Seq<RouterId>| seq![path.last()] + q) + rest),
                },
            }
        }
    }
}

/// The paths of a route query.
pub open spec fn paths_view(v: Seq<Vec<RouterId>>) -> Seq<Seq<RouterId>> {
    v.map_values(|q: Vec<RouterId>| q@)
}

/// The executable result of a route query matches its abstract outcome.
pub open spec fn route_matches(r: Result<Vec<Vec<RouterId>>, NetworkError>, o: RouteOutcome) -> bool {
    match o {
        Ok(ps) => r matches Ok(v) && paths_view(v@) == ps,
        Err(RouteFailure::Loop(l)) => r matches Err(NetworkError::ForwardingLoop(v)) && v@ == l,
        Err(RouteFailure::BlackHole(b)) => r matches Err(NetworkError::ForwardingBlackHole(v)) && v@ == b,
    }
}

/// A path without repetitions whose routers all have an entry for the prefix is no longer than
/// the number of entries.
proof fn lemma_path_bound(fw: FwMap, prefix: Prefix, path: Seq<RouterId>)
    requires
        fw.dom().finite(),
        path.no_duplicates(),
        forall|i: int| 0 <= i < path.len() ==> fw.contains_key((#[trigger] path[i], prefix)),
    ensures
        path.len() <= fw.dom().len(),
{
    let ks = path.map_values(|x: RouterId| (x, prefix));
    assert(ks.no_duplicates()) by {
        assert forall|i: int, j: int| 0 <= i < ks.len() && 0 <= j < ks.len() && i != j implies ks[i] != ks[j] by {
            assert(ks[i] == (path[i], prefix));
            assert(ks[j] == (path[j], prefix));
        }
    }
    ks.unique_seq_to_set();
    assert forall|k: (RouterId, Prefix)| ks.to_set().contains(k) implies fw.dom().contains(k) by {
        let i = choose|i: int| 0 <= i < ks.len() && ks[i] == k;
        assert(ks[i] == (path[i], prefix));
    }
    vstd::set_lib::lemma_len_subset(ks.to_set(), fw.dom());
}

/// The route query from `path` with enough fuel: no router repeats on the path, every router but
/// the last has an entry, and the fuel covers every router that could still be added.
pub open spec fn fuel_suffices(fw: FwMap, prefix: Prefix, path: Seq<RouterId>, fuel: nat) -> bool {
    &&& fw.dom().finite()
    &&& path.len() > 0
    &&& path.no_duplicates()
    &&& forall|i: int| 0 <= i < path.len() - 1 ==> fw.contains_key((#[trigger] path[i], prefix))
    &&& path.len() + fuel >= fw.dom().len() + 2
}

/// Enough fuel gives the full route: any two amounts of fuel that suffice give the same outcome,
/// so the bounded search that `get_route` runs is the unbounded one.
pub proof fn law_route_fuel_suffices(fw: FwMap, prefix: Prefix, path: Seq<RouterId>, f1: nat, f2: nat)
    requires
        fuel_suffices(fw, prefix, path, f1),
        fuel_suffices(fw, prefix, path, f2),
    ensures
        route_from(fw, prefix, path, f1) == route_from(fw, prefix, path, f2),
    decreases f1, 0nat,
{
    let cur = path.last();
    let nhs = stored_hops(fw, cur, prefix);
    if nhs.len() == 0 {
    } else if nhs == seq![to_dst()] {
    } else {
        assert(fw.contains_key((cur, prefix)));
        assert forall|i: int| 0 <= i < path.len() implies fw.contains_key((#[trigger] path[i], prefix)) by {
            if i == path.len() - 1 {
                assert(path[i] == cur);
            }
        }
        lemma_path_bound(fw, prefix, path);
        lemma_route_via_fuel(fw, prefix, path, nhs, 0, (f1 - 1) as nat, (f2 - 1) as nat);
    }
}

/// The fuel step of `law_route_fuel_suffices` for the next hops `nhs[i..]`.
proof fn lemma_route_via_fuel(fw: FwMap, prefix: Prefix, path: Seq<RouterId>, nhs: Seq<RouterId>, i: int,
    f1: nat, f2: nat)
    requires
        fw.dom().finite(),
        path.len() > 0,
        path.no_duplicates(),
        forall|j: int| 0 <= j < path.len() ==> fw.contains_key((#[trigger] path[j], prefix)),
        path.len() + f1 >= fw.dom().len() + 1,
        path.len() + f2 >= fw.dom().len() + 1,
    ensures
        route_via(fw, prefix, path, nhs, i, f1) == route_via(fw, prefix, path, nhs, i, f2),
    decreases f1, (nhs.len() - i) as nat,
{
    if 0 <= i < nhs.len() {
        let nh = nhs[i];
        if !path.contains(nh) {
            let p2 = path.push(nh);
            assert(p2.no_duplicates()) by {
                assert forall|a: int, b: int| 0 <= a < p2.len() && 0 <= b < p2.len() && a != b
                    implies p2[a] != p2[b] by {
                    if a == path.len() as int {
                        assert(p2[b] == path[b]);
                    } else if b == path.len() as int {
                        assert(p2[a] == path[a]);
                    } else {
                        assert(p2[a] == path[a] && p2[b] == path[b]);
                    }
                }
            }
            assert forall|j: int| 0 <= j < p2.len() - 1 implies fw.contains_key((#[trigger] p2[j], prefix)) by {
                assert(p2[j] == path[j]);
            }
            law_route_fuel_suffices(fw, prefix, p2, f1, f2);
            lemma_route_via_fuel(fw, prefix, path, nhs, i + 1, f1, f2);
        }
    }
}

/// `q` is a walk along stored next hops that ends at a router without next hops: each router
/// before the last forwards to the next one and is not a terminal.
pub open spec fn walk_to_black_hole(fw: FwMap, prefix: Prefix, q: Seq<RouterId>) -> bool {
    &&& q.len() > 0
    &&& forall|j: int| 0 <= j < q.len() - 1 ==> #[trigger] stored_hops(fw, q[j], prefix).contains(q[j + 1])
        && stored_hops(fw, q[j], prefix) != seq![to_dst()]
    &&& stored_hops(fw, q.last(), prefix).len() == 0
}

/// A router without next hops that can be reached from the last router of `path` along the
/// next hops makes the route query fail: it reports a black hole or a loop, never paths.
pub proof fn law_reachable_black_hole_fails(fw: FwMap, prefix: Prefix, path: Seq<RouterId>, fuel: nat,
    q: Seq<RouterId>)
    requires
        fuel_suffices(fw, prefix, path, fuel),
        walk_to_black_hole(fw, prefix, q),
        q[0] == path.last(),
    ensures
        route_from(fw, prefix, path, fuel) is Err,
    decreases q.len(), 1nat, 0nat,
{
    let cur = path.last();
    let nhs = stored_hops(fw, cur, prefix);
    if nhs.len() == 0 {
    } else {
        assert(q.len() > 1);
        assert(nhs.contains(q[1]) && nhs != seq![to_dst()]);
        assert(fw.contains_key((cur, prefix)));
        assert forall|i: int| 0 <= i < path.len() implies fw.contains_key((#[trigger] path[i], prefix)) by {
            if i == path.len() - 1 {
                assert(path[i] == cur);
            }
        }
        lemma_path_bound(fw, prefix, path);
        let idx = choose|idx: int| 0 <= idx < nhs.len() && nhs[idx] == q[1];
        lemma_black_hole_via(fw, prefix, path, nhs, 0, (fuel - 1) as nat, q, idx);
    }
}

/// The step of `law_reachable_black_hole_fails` for the next hops `nhs[i..]`, among which
/// `nhs[idx]` is the second router of the walk.
proof fn lemma_black_hole_via(fw: FwMap, prefix: Prefix, path: Seq<RouterId>, nhs: Seq<RouterId>, i: int,
    fuel: nat, q: Seq<RouterId>, idx: int)
    requires
        fw.dom().finite(),
        path.len() > 0,
        path.no_duplicates(),
        forall|j: int| 0 <= j < path.len() ==> fw.contains_key((#[trigger] path[j], prefix)),
        path.len() + fuel >= fw.dom().len() + 1,
        walk_to_black_hole(fw, prefix, q),
        q.len() > 1,
        q[0] == path.last(),
        0 <= i <= idx < nhs.len(),
        nhs[idx] == q[1],
    ensures
        route_via(fw, prefix, path, nhs, i, fuel) is Err,
    decreases q.len(), 0nat, nhs.len() - i,
{
    let nh = nhs[i];
    if !path.contains(nh) {
        let p2 = path.push(nh);
        assert(p2.no_duplicates()) by {
            assert forall|a: int, b: int| 0 <= a < p2.len() && 0 <= b < p2.len() && a != b
                implies p2[a] != p2[b] by {
                if a == path.len() as int {
                    assert(p2[b] == path[b]);
                } else if b == path.len() as int {
                    assert(p2[a] == path[a]);
                } else {
                    assert(p2[a] == path[a] && p2[b] == path[b]);
                }
            }
        }
        assert forall|j: int| 0 <= j < p2.len() - 1 implies fw.contains_key((#[trigger] p2[j], prefix)) by {
            assert(p2[j] == path[j]);
        }
        if i == idx {
            let q2 = q.subrange(1, q.len() as int);
            assert forall|j: int| 0 <= j < q2.len() - 1 implies #[trigger] stored_hops(fw, q2[j], prefix).contains(q2[j + 1])
                && stored_hops(fw, q2[j], prefix) != seq![to_dst()] by {
                assert(q2[j] == q[j + 1] && q2[j + 1] == q[j + 1 + 1]);
            }
            assert(q2.last() == q.last());
            law_reachable_black_hole_fails(fw, prefix, p2, fuel, q2);
        } else {
            match route_from(fw, prefix, p2, fuel) {
                Err(_) => {},
                Ok(_) => {
                    lemma_black_hole_via(fw, prefix, path, nhs, i + 1, fuel, q, idx);
                },
            }
        }
    }
}

/// Prepend `cur` to every path of `paths` and append them to `acc`.
fn append_prefixed(acc: &mut Vec<Vec<RouterId>>, cur: RouterId, paths: Vec<Vec<RouterId>>)
    ensures
        paths_view(final(acc)@) == paths_view(old(acc)@) + paths_view(paths@).map_values(|q: Seq<RouterId>| seq![cur] + q),
{
    let ghost start = paths_view(acc@);
    let ghost add = paths_view(paths@).map_values(|q: Seq<RouterId>| seq![cur] + q);
    let mut i: usize = 0;
    while i < paths.len()
        invariant
            i <= paths@.len(),
            add == paths_view(paths@).map_values(|q: Seq<RouterId>| seq![cur] + q),
            paths_view(acc@) == start + add.take(i as int),
        decreases paths@.len() - i,
    {
        let q = &paths[i];
        let mut q2: Vec<RouterId> = Vec::new();
        q2.push(cur);
        let mut k: usize = 0;
        while k < q.len()
            invariant
                k <= q@.len(),
                q2@ == seq![cur] + q@.take(k as int),
            decreases q@.len() - k,
        {
            q2.push(q[k]);
            k = k + 1;
            assert(q2@ =~= seq![cur] + q@.take(k as int));
        }
        assert(q@.take(q@.len() as int) =~= q@);
        let ghost before = acc@;
        acc.push(q2);
        proof {
            assert(add[i as int] == seq![cur] + paths@[i as int]@);
            assert(paths_view(acc@) =~= paths_view(before).push(q2@));
            assert(add.take(i + 1) =~= add.take(i as int).push(add[i as int]));
        }
        i = i + 1;
    }
    assert(add.take(paths@.len() as int) =~= add);
}

impl ForwardingState {
    /// All forwarding paths from `source` towards `prefix`, in depth-first order of the next hops;
    /// or the first forwarding loop or black hole that the exploration meets.
    pub fn get_route(&self, source: RouterId, prefix: Prefix) -> (r: Result<Vec<Vec<RouterId>>, NetworkError>)
        ensures
            route_matches(r, route_from(self@, prefix, seq![source], (self@.dom().len() + 1) as nat)),
    {
        proof {
            use_type_invariant(self);
            lemma_assoc_len(entry_views(self.entries@));
        }
        let mut path: Vec<RouterId> = Vec::new();
        path.push(source);
        proof {
            assert(path@ =~= seq![source]);
        }
        self.get_route_recursive(prefix, &mut path, Ghost((self@.dom().len() + 1) as nat))
    }

    /// The paths from the last router of `path`, which has been reached along `path`.
    fn get_route_recursive(&self, prefix: Prefix, path: &mut Vec<RouterId>, Ghost(fuel): Ghost<nat>)
        -> (r: Result<Vec<Vec<RouterId>>, NetworkError>)
        requires
            old(path)@.len() > 0,
            old(path)@.no_duplicates(),
            self@.dom().finite(),
            forall|i: int| 0 <= i < old(path)@.len() - 1 ==> self@.contains_key((#[trigger] old(path)@[i], prefix)),
            old(path)@.len() + fuel == self@.dom().len() + 2,
        ensures
            final(path)@ == old(path)@,
            route_matches(r, route_from(self@, prefix, old(path)@, fuel)),
        decreases fuel,
    {
        let ghost fw = self@;
        let ghost p0 = path@;
        let cur = path[path.len() - 1];
        let idx = self.find(cur, prefix);
        let nhs: &[RouterId] = match idx {
            Some(i) => self.entries[i].next_hops.as_slice(),
            None => &[],
        };
        assert(nhs@ == stored_hops(fw, cur, prefix));
        if nhs.len() == 0 {
            let mut b: Vec<RouterId> = Vec::new();
            b.push(cur);
            assert(b@ =~= seq![cur]);
            return Err(NetworkError::ForwardingBlackHole(b));
        }
        if nhs.len() == 1 && nhs[0].0 == TO_DST_ID {
            let mut q: Vec<RouterId> = Vec::new();
            q.push(cur);
            let mut v: Vec<Vec<RouterId>> = Vec::new();
            v.push(q);
            assert(nhs@ =~= seq![to_dst()]);
            assert(paths_view(v@) =~= seq![seq![cur]]);
            return Ok(v);
        }
        assert(nhs@ != seq![to_dst()]) by {
            if nhs@ == seq![to_dst()] {
                assert(nhs@[0] == to_dst());
            }
        }
        proof {
            assert forall|i: int| 0 <= i < p0.len() implies fw.contains_key((#[trigger] p0[i], prefix)) by {
                if i == p0.len() - 1 {
                    assert(p0[i] == cur);
                }
            }
            lemma_path_bound(fw, prefix, p0);
        }
        let ghost f1: nat = (fuel - 1) as nat;
        let mut fw_paths: Vec<Vec<RouterId>> = Vec::new();
        let mut j: usize = 0;
        while j < nhs.len()
            invariant
                fw == self@,
                fw.dom().finite(),
                p0.len() > 0,
                p0.no_duplicates(),
                cur == p0.last(),
                fuel > 0,
                f1 == fuel - 1,
                p0.len() + fuel == fw.dom().len() + 2,
                forall|i: int| 0 <= i < p0.len() ==> fw.contains_key((#[trigger] p0[i], prefix)),
                path@ == p0,
                p0 == old(path)@,
                nhs@ == stored_hops(fw, cur, prefix),
                nhs@.len() > 0,
                nhs@ != seq![to_dst()],
                route_from(fw, prefix, p0, fuel) == route_via(fw, prefix, p0, nhs@, 0, f1),
                j <= nhs@.len(),
                route_via(fw, prefix, p0, nhs@, 0, f1) == match route_via(fw, prefix, p0, nhs@, j as int, f1) {
                    Ok(rest) => Ok(paths_view(fw_paths@) + rest),
                    Err(e) => Err::<Seq<Seq<RouterId>>, RouteFailure>(e),
                },
            decreases nhs@.len() - j,
        {
            let nh = nhs[j];
            if contains_router(path, nh) {
                let first = position_of(path, nh);
                let mut l: Vec<RouterId> = Vec::new();
                let mut k: usize = first;
                while k < path.len()
                    invariant
                        first <= k <= path@.len(),
                        l@ == path@.subrange(first as int, k as int),
                    decreases path@.len() - k,
                {
                    l.push(path[k]);
                    k = k + 1;
                    assert(l@ =~= path@.subrange(first as int, k as int));
                }
                l.push(nh);
                proof {
                    assert(first as int == position(p0, nh)) by {
                        let q = position(p0, nh);
                        assert(0 <= q < p0.len() && p0[q] == nh);
                    }
                }
                return Err(NetworkError::ForwardingLoop(l));
            }
            path.push(nh);
            proof {
                assert forall|i: int| 0 <= i < path@.len() - 1 implies fw.contains_key((#[trigger] path@[i], prefix)) by {
                    assert(path@[i] == p0[i]);
                }
                assert forall|a: int, b: int| 0 <= a < path@.len() && 0 <= b < path@.len() && a != b
                    implies path@[a] != path@[b] by {
                    if a < p0.len() && b < p0.len() {
                        assert(path@[a] == p0[a] && path@[b] == p0[b]);
                    } else if a < p0.len() {
                        assert(path@[a] == p0[a]);
                        assert(p0.contains(p0[a]));
                    } else {
                        assert(path@[b] == p0[b]);
                        assert(p0.contains(p0[b]));
                    }
                }
            }
            let sub = self.get_route_recursive(prefix, path, Ghost(f1));
            let _ = path.pop();
            proof {
                assert(path@ =~= p0);
            }
            match sub {
                Err(e) => {
                    return Err(e);
                },
                Ok(paths) => {
                    let ghost acc0 = paths_view(fw_paths@);
                    append_prefixed(&mut fw_paths, cur, paths);
                    proof {
                        let sv = paths_view(paths@).map_values(|q: Seq<RouterId>| seq![cur] + q);
                        assert(sv =~= paths_view(paths@).map_values(|q: Seq<RouterId>| seq![p0.last()] + q));
                        match route_via(fw, prefix, p0, nhs@, j + 1, f1) {
                            Ok(rest) => {
                                assert(acc0 + (sv + rest) =~= (acc0 + sv) + rest);
                            },
                            Err(e) => {},
                        }
                    }
                },
            }
            j = j + 1;
        }
        proof {
            assert(paths_view(fw_paths@) + Seq::<Seq<RouterId>>::empty() =~= paths_view(fw_paths@));
        }
        Ok(fw_paths)
    }
}

/// The position of the first occurrence of `x` in `v`.
fn position_of(v: &Vec<RouterId>, x: RouterId) -> (i: usize)
    requires
        v@.contains(x),
    ensures
        i < v@.len(),
        v@[i as int] == x,
        forall|j: int| 0 <= j < i ==> v@[j] != x,
{
    let mut i: usize = 0;
    while i < v.len()
        invariant
            i <= v@.len(),
            v@.contains(x),
            forall|j: int| 0 <= j < i ==> v@[j] != x,
        decreases v@.len() - i,
    {
        if v[i].0 == x.0 {
            assert(v@[i as int] == x);
            return i;
        }
        i = i + 1;
    }
    proof {
        let k = choose|k: int| 0 <= k < v@.len() && v@[k] == x;
        assert(v@[k] != x);
    }
    0
}

/// The two states store different next hops for `router` and `prefix`.
pub open spec fn fw_differs(a: FwMap, b: FwMap, router: RouterId, prefix: Prefix) -> bool {
    stored_hops(a, router, prefix) != stored_hops(b, router, prefix)
}

/// `d` is the list of differences from `a` to `b`: one entry `(router, delta)` for each router
/// and prefix whose next hops differ, with the next hops of `a` as old and those of `b` as new.
pub open spec fn is_fw_diff(a: FwMap, b: FwMap, d: Seq<(RouterId, FwDelta)>) -> bool {
    &&& forall|i: int| 0 <= i < d.len() ==> {
        let (r, x) = #[trigger] d[i];
        stored_hops(a, r, x.prefix) == x.old@ && stored_hops(b, r, x.prefix) == x.new@ && x.old@ != x.new@
    }
    &&& forall|i: int, j: int| 0 <= i < d.len() && 0 <= j < d.len() && i != j
        ==> (d[i].0, d[i].1.prefix) != (d[j].0, d[j].1.prefix)
    &&& forall|r: RouterId, p: Prefix| #[trigger] fw_differs(a, b, r, p)
        ==> exists|i: int| 0 <= i < d.len() && d[i].0 == r && d[i].1.prefix == p
}

/// Copy a list of routers.
fn copy_routers(v: &Vec<RouterId>) -> (r: Vec<RouterId>)
    ensures
        r@ == v@,
{
    let mut r: Vec<RouterId> = Vec::new();
    let mut i: usize = 0;
    while i < v.len()
        invariant
            i <= v@.len(),
            r@ == v@.take(i as int),
        decreases v@.len() - i,
    {
        r.push(v[i]);
        i = i + 1;
        assert(r@ =~= v@.take(i as int));
    }
    assert(v@.take(v@.len() as int) =~= v@);
    r
}

/// `d` holds a difference for `router` and `prefix`.
pub open spec fn has_delta(d: Seq<(RouterId, FwDelta)>, router: RouterId, prefix: Prefix) -> bool {
    exists|k: int| 0 <= k < d.len() && d[k].0 == router && d[k].1.prefix == prefix
}

/// Appending keeps every difference that was there.
proof fn lemma_has_delta_push(d: Seq<(RouterId, FwDelta)>, x: (RouterId, FwDelta))
    ensures
        forall|r: RouterId, p: Prefix| #[trigger] has_delta(d, r, p) ==> has_delta(d.push(x), r, p),
        has_delta(d.push(x), x.0, x.1.prefix),
{
    assert forall|r: RouterId, p: Prefix| #[trigger] has_delta(d, r, p) implies has_delta(d.push(x), r, p) by {
        let k = choose|k: int| 0 <= k < d.len() && d[k].0 == r && d[k].1.prefix == p;
        assert(d.push(x)[k] == d[k]);
    }
    assert(d.push(x)[d.len() as int] == x);
}

impl ForwardingState {
    /// The differences from this state to `other`: for each router and prefix whose next hops
    /// differ, the router and the change from the next hops here to those in `other`.
    pub fn diff(&self, other: &ForwardingState) -> (d: Vec<(RouterId, FwDelta)>)
        ensures
            is_fw_diff(self@, other@, d@),
    {
        proof {
            use_type_invariant(self);
            use_type_invariant(other);
        }
        let ghost a = self@;
        let ghost b = other@;
        let ghost sa = entry_views(self.entries@);
        let ghost sb = entry_views(other.entries@);
        let mut d: Vec<(RouterId, FwDelta)> = Vec::new();
        let mut i: usize = 0;
        while i < self.entries.len()
            invariant
                i <= sa.len(),
                sa == entry_views(self.entries@), sb == entry_views(other.entries@),
                a == self@, b == other@,
                keys_distinct(sa), keys_distinct(sb),
                forall|k: int| 0 <= k < d@.len() ==> {
                    let (r, x) = #[trigger] d@[k];
                    stored_hops(a, r, x.prefix) == x.old@ && stored_hops(b, r, x.prefix) == x.new@ && x.old@ != x.new@
                        && exists|idx: int| 0 <= idx < i && sa[idx].0 == (r, x.prefix)
                },
                forall|k: int, l: int| 0 <= k < d@.len() && 0 <= l < d@.len() && k != l
                    ==> (d@[k].0, d@[k].1.prefix) != (d@[l].0, d@[l].1.prefix),
                forall|idx: int| 0 <= idx < i && fw_differs(a, b, sa[idx].0.0, sa[idx].0.1)
                    ==> #[trigger] has_delta(d@, sa[idx].0.0, sa[idx].0.1),
            decreases sa.len() - i,
        {
            let e = &self.entries[i];
            proof {
                assert(sa[i as int] == entry_view(self.entries@[i as int]));
                lemma_assoc_index(sa, i as int);
            }
            let theirs: Vec<RouterId> = match other.find(e.router, e.prefix) {
                Some(j) => copy_routers(&other.entries[j].next_hops),
                None => Vec::new(),
            };
            assert(theirs@ == stored_hops(b, e.router, e.prefix));
            let ghost before = d@;
            if !same_routers(&e.next_hops, &theirs) {
                let delta = FwDelta { prefix: e.prefix, old: copy_routers(&e.next_hops), new: theirs };
                proof {
                    assert forall|k: int| 0 <= k < before.len() implies (before[k].0, before[k].1.prefix) != (e.router, e.prefix) by {
                        let (r, x) = before[k];
                        let idx = choose|idx: int| 0 <= idx < i && sa[idx].0 == (r, x.prefix);
                        assert(sa[idx].0 != sa[i as int].0);
                    }
                    lemma_has_delta_push(before, (e.router, delta));
                }
                d.push((e.router, delta));
                proof {
                    assert forall|k: int| 0 <= k < d@.len() implies {
                        let (r, x) = #[trigger] d@[k];
                        stored_hops(a, r, x.prefix) == x.old@ && stored_hops(b, r, x.prefix) == x.new@ && x.old@ != x.new@
                            && exists|idx: int| 0 <= idx < i + 1 && sa[idx].0 == (r, x.prefix)
                    } by {
                        if k < before.len() {
                            assert(d@[k] == before[k]);
                            let (r, x) = before[k];
                            let idx = choose|idx: int| 0 <= idx < i && sa[idx].0 == (r, x.prefix);
                        } else {
                            assert(sa[i as int].0 == (e.router, e.prefix));
                        }
                    }
                    assert forall|k: int, l: int| 0 <= k < d@.len() && 0 <= l < d@.len() && k != l
                        implies (d@[k].0, d@[k].1.prefix) != (d@[l].0, d@[l].1.prefix) by {
                        if k < before.len() {
                            assert(d@[k] == before[k]);
                        }
                        if l < before.len() {
                            assert(d@[l] == before[l]);
                        }
                    }
                }
            } else {
                proof {
                    assert forall|k: int| 0 <= k < d@.len() implies {
                        let (r, x) = #[trigger] d@[k];
                        stored_hops(a, r, x.prefix) == x.old@ && stored_hops(b, r, x.prefix) == x.new@ && x.old@ != x.new@
                            && exists|idx: int| 0 <= idx < i + 1 && sa[idx].0 == (r, x.prefix)
                    } by {
                        let (r, x) = d@[k];
                        let idx = choose|idx: int| 0 <= idx < i && sa[idx].0 == (r, x.prefix);
                    }
                }
            }
            proof {
                assert forall|idx: int| 0 <= idx < i + 1 && fw_differs(a, b, sa[idx].0.0, sa[idx].0.1)
                    implies #[trigger] has_delta(d@, sa[idx].0.0, sa[idx].0.1) by {
                    if idx < i {
                        assert(has_delta(before, sa[idx].0.0, sa[idx].0.1));
                    }
                }
            }
            i = i + 1;
        }
        let ghost n1 = d@.len();
        let mut i: usize = 0;
        while i < other.entries.len()
            invariant
                i <= sb.len(),
                n1 <= d@.len(),
                sa == entry_views(self.entries@), sb == entry_views(other.entries@),
                a == self@, b == other@,
                keys_distinct(sa), keys_distinct(sb),
                forall|k: int| 0 <= k < other.entries@.len() ==> #[trigger] other.entries@[k].next_hops@.len() > 0,
                forall|k: int| 0 <= k < d@.len() ==> {
                    let (r, x) = #[trigger] d@[k];
                    stored_hops(a, r, x.prefix) == x.old@ && stored_hops(b, r, x.prefix) == x.new@ && x.old@ != x.new@
                },
                forall|k: int| 0 <= k < n1 ==> a.contains_key(((#[trigger] d@[k]).0, d@[k].1.prefix)),
                forall|k: int| n1 <= k < d@.len() ==> !a.contains_key(((#[trigger] d@[k]).0, d@[k].1.prefix))
                    && exists|idx: int| 0 <= idx < i && sb[idx].0 == (d@[k].0, d@[k].1.prefix),
                forall|k: int, l: int| 0 <= k < d@.len() && 0 <= l < d@.len() && k != l
                    ==> (d@[k].0, d@[k].1.prefix) != (d@[l].0, d@[l].1.prefix),
                forall|idx: int| 0 <= idx < sa.len() && fw_differs(a, b, sa[idx].0.0, sa[idx].0.1)
                    ==> #[trigger] has_delta(d@, sa[idx].0.0, sa[idx].0.1),
                forall|idx: int| 0 <= idx < i && !a.contains_key(sb[idx].0)
                    ==> #[trigger] has_delta(d@, sb[idx].0.0, sb[idx].0.1),
            decreases sb.len() - i,
        {
            let e = &other.entries[i];
            proof {
                assert(sb[i as int] == entry_view(other.entries@[i as int]));
                lemma_assoc_index(sb, i as int);
            }
            let ghost before = d@;
            if self.find(e.router, e.prefix).is_none() {
                let delta = FwDelta { prefix: e.prefix, old: Vec::new(), new: copy_routers(&e.next_hops) };
                proof {
                    assert(other.entries@[i as int].next_hops@.len() > 0);
                    assert(delta.old@ != delta.new@) by {
                        assert(delta.old@.len() == 0);
                    }
                    assert forall|k: int| 0 <= k < before.len() implies (before[k].0, before[k].1.prefix) != (e.router, e.prefix) by {
                        if k < n1 {
                            assert(a.contains_key((before[k].0, before[k].1.prefix)));
                        } else {
                            let idx = choose|idx: int| 0 <= idx < i && sb[idx].0 == (before[k].0, before[k].1.prefix);
                            assert(sb[idx].0 != sb[i as int].0);
                        }
                    }
                    lemma_has_delta_push(before, (e.router, delta));
                }
                d.push((e.router, delta));
                proof {
                    assert forall|k: int| 0 <= k < d@.len() implies {
                        let (r, x) = #[trigger] d@[k];
                        stored_hops(a, r, x.prefix) == x.old@ && stored_hops(b, r, x.prefix) == x.new@ && x.old@ != x.new@
                    } by {
                        if k < before.len() {
                            assert(d@[k] == before[k]);
                        }
                    }
                    assert forall|k: int| 0 <= k < n1 implies a.contains_key(((#[trigger] d@[k]).0, d@[k].1.prefix)) by {
                        assert(d@[k] == before[k]);
                    }
                    assert forall|k: int| n1 <= k < d@.len() implies !a.contains_key(((#[trigger] d@[k]).0, d@[k].1.prefix))
                        && exists|idx: int| 0 <= idx < i + 1 && sb[idx].0 == (d@[k].0, d@[k].1.prefix) by {
                        if k < before.len() {
                            assert(d@[k] == before[k]);
                            let idx = choose|idx: int| 0 <= idx < i && sb[idx].0 == (before[k].0, before[k].1.prefix);
                        } else {
                            assert(sb[i as int].0 == (e.router, e.prefix));
                        }
                    }
                    assert forall|k: int, l: int| 0 <= k < d@.len() && 0 <= l < d@.len() && k != l
                        implies (d@[k].0, d@[k].1.prefix) != (d@[l].0, d@[l].1.prefix) by {
                        if k < before.len() {
                            assert(d@[k] == before[k]);
                        }
                        if l < before.len() {
                            assert(d@[l] == before[l]);
                        }
                    }
                }
            } else {
                proof {
                    assert forall|k: int| n1 <= k < d@.len() implies !a.contains_key(((#[trigger] d@[k]).0, d@[k].1.prefix))
                        && exists|idx: int| 0 <= idx < i + 1 && sb[idx].0 == (d@[k].0, d@[k].1.prefix) by {
                        let idx = choose|idx: int| 0 <= idx < i && sb[idx].0 == (d@[k].0, d@[k].1.prefix);
                    }
                }
            }
            proof {
                assert forall|idx: int| 0 <= idx < sa.len() && fw_differs(a, b, sa[idx].0.0, sa[idx].0.1)
                    implies #[trigger] has_delta(d@, sa[idx].0.0, sa[idx].0.1) by {
                    assert(has_delta(before, sa[idx].0.0, sa[idx].0.1));
                }
                assert forall|idx: int| 0 <= idx < i + 1 && !a.contains_key(sb[idx].0)
                    implies #[trigger] has_delta(d@, sb[idx].0.0, sb[idx].0.1) by {
                    if idx < i {
                        assert(has_delta(before, sb[idx].0.0, sb[idx].0.1));
                    }
                }
            }
            i = i + 1;
        }
        proof {
            assert forall|r: RouterId, p: Prefix| #[trigger] fw_differs(a, b, r, p)
                implies exists|k: int| 0 <= k < d@.len() && d@[k].0 == r && d@[k].1.prefix == p by {
                if a.contains_key((r, p)) {
                    let idx = lemma_assoc_key(sa, (r, p));
                    assert(fw_differs(a, b, sa[idx].0.0, sa[idx].0.1));
                    assert(has_delta(d@, r, p));
                } else {
                    assert(b.contains_key((r, p)));
                    let idx = lemma_assoc_key(sb, (r, p));
                    assert(!a.contains_key(sb[idx].0));
                    assert(has_delta(d@, sb[idx].0.0, sb[idx].0.1));
                    assert(sb[idx].0.0 == r && sb[idx].0.1 == p);
                }
            }
        }
        d
    }
}

impl PartialEq for ForwardingState {
    fn eq(&self, other: &Self) -> (r: bool) {
        proof {
            use_type_invariant(self);
            use_type_invariant(other);
        }
        let ghost a = self@;
        let ghost b = other@;
        let ghost sa = entry_views(self.entries@);
        let ghost sb = entry_views(other.entries@);
        let mut i: usize = 0;
        while i < self.entries.len()
            invariant
                i <= sa.len(),
                sa == entry_views(self.entries@),
                a == self@, b == other@,
                keys_distinct(sa),
                forall|idx: int| 0 <= idx < i ==> b.contains_key((#[trigger] sa[idx]).0) && b[sa[idx].0] == sa[idx].1,
            decreases sa.len() - i,
        {
            let e = &self.entries[i];
            proof {
                assert(sa[i as int] == entry_view(self.entries@[i as int]));
            }
            match other.find(e.router, e.prefix) {
                Some(j) => {
                    if !same_routers(&e.next_hops, &other.entries[j].next_hops) {
                        proof {
                            lemma_assoc_index(sa, i as int);
                        }
                        return false;
                    }
                },
                None => {
                    proof {
                        lemma_assoc_index(sa, i as int);
                    }
                    return false;
                },
            }
            i = i + 1;
        }
        let mut j: usize = 0;
        while j < other.entries.len()
            invariant
                j <= sb.len(),
                sb == entry_views(other.entries@),
                a == self@, b == other@,
                forall|idx: int| 0 <= idx < j ==> a.contains_key((#[trigger] sb[idx]).0),
            decreases sb.len() - j,
        {
            let e = &other.entries[j];
            proof {
                assert(sb[j as int] == entry_view(other.entries@[j as int]));
            }
            if self.find(e.router, e.prefix).is_none() {
                return false;
            }
            j = j + 1;
        }
        proof {
            assert forall|k: (RouterId, Prefix)| #[trigger] a.contains_key(k) == b.contains_key(k) by {
                if a.contains_key(k) {
                    let idx = lemma_assoc_key(sa, k);
                    assert(b.contains_key(sa[idx].0));
                }
                if b.contains_key(k) {
                    let idx = choose|idx: int| 0 <= idx < sb.len() && sb[idx].0 == k;
                    assert(a.contains_key(sb[idx].0));
                }
            }
            assert forall|k: (RouterId, Prefix)| #[trigger] a.contains_key(k) implies a[k] == b[k] by {
                let idx = lemma_assoc_key(sa, k);
                assert(b.contains_key(sa[idx].0) && b[sa[idx].0] == sa[idx].1);
            }
            assert(a =~= b);
        }
        true
    }
}

impl PartialEqSpecImpl for ForwardingState {
    open spec fn obeys_eq_spec() -> bool {
        true
    }

    open spec fn eq_spec(&self, other: &Self) -> bool {
        self@ == other@
    }
}

/// A route towards `prefix`: a forwarding path that ends at a terminal.
pub open spec fn is_route(fw: FwMap, prefix: Prefix, q: Seq<RouterId>) -> bool {
    is_fw_path(fw, prefix, q) && is_terminal_spec(fw, q.last(), prefix)
}

/// Every path that a successful route query returns starts at the queried router, follows the
/// next hops and ends at a terminal.
pub proof fn law_routes_are_paths(fw: FwMap, prefix: Prefix, path: Seq<RouterId>, fuel: nat)
    requires
        path.len() > 0,
        route_from(fw, prefix, path, fuel) is Ok,
    ensures
        forall|i: int| 0 <= i < (route_from(fw, prefix, path, fuel)->Ok_0).len() ==> {
            let q = #[trigger] (route_from(fw, prefix, path, fuel)->Ok_0)[i];
            q[0] == path.last() && is_route(fw, prefix, q)
        },
    decreases fuel, 0nat,
{
    let cur = path.last();
    let nhs = stored_hops(fw, cur, prefix);
    if nhs.len() == 0 {
    } else if nhs == seq![to_dst()] {
        let q = seq![cur];
        assert(is_fw_path(fw, prefix, q));
    } else if fuel == 0 {
    } else {
        lemma_routes_via(fw, prefix, path, nhs, 0, (fuel - 1) as nat);
    }
}

/// The paths through the next hops `nhs[i..]` of the last router of `path` are routes from it.
proof fn lemma_routes_via(fw: FwMap, prefix: Prefix, path: Seq<RouterId>, nhs: Seq<RouterId>, i: int, fuel: nat)
    requires
        path.len() > 0,
        nhs == stored_hops(fw, path.last(), prefix),
        nhs != seq![to_dst()],
        route_via(fw, prefix, path, nhs, i, fuel) is Ok,
    ensures
        forall|k: int| 0 <= k < (route_via(fw, prefix, path, nhs, i, fuel)->Ok_0).len() ==> {
            let q = #[trigger] (route_via(fw, prefix, path, nhs, i, fuel)->Ok_0)[k];
            q[0] == path.last() && is_route(fw, prefix, q)
        },
    decreases fuel, (nhs.len() - i) as nat,
{
    if i < 0 || i >= nhs.len() {
    } else {
        let nh = nhs[i];
        let cur = path.last();
        if !path.contains(nh) {
            let sub = route_from(fw, prefix, path.push(nh), fuel)->Ok_0;
            law_routes_are_paths(fw, prefix, path.push(nh), fuel);
            lemma_routes_via(fw, prefix, path, nhs, i + 1, fuel);
            let rest = route_via(fw, prefix, path, nhs, i + 1, fuel)->Ok_0;
            let pre = sub.map_values(|q: Seq<RouterId>| seq![cur] + q);
            let all = route_via(fw, prefix, path, nhs, i, fuel)->Ok_0;
            assert(all == pre + rest);
            assert forall|k: int| 0 <= k < all.len() implies {
                let q = #[trigger] all[k];
                q[0] == cur && is_route(fw, prefix, q)
            } by {
                if k < pre.len() {
                    let q1 = sub[k];
                    assert(q1[0] == path.push(nh).last() && is_route(fw, prefix, q1));
                    let q = seq![cur] + q1;
                    assert(all[k] == q);
                    assert(next_hops(fw, cur, prefix) == nhs);
                    assert(nhs.contains(nh)) by {
                        assert(nhs[i] == nh);
                    }
                    assert forall|j: int| 0 <= j < q.len() - 1 implies next_hops(fw, #[trigger] q[j], prefix).contains(q[j + 1]) by {
                        if j == 0 {
                            assert(q[0] == cur && q[1] == q1[0]);
                        } else {
                            assert(q[j] == q1[j - 1] && q[j + 1] == q1[j - 1 + 1]);
                        }
                    }
                    assert(q.last() == q1.last());
                } else {
                    assert(all[k] == rest[k - pre.len()]);
                }
            }
        }
    }
}

/// Reading the next hops after setting them gives what was set, unless the router became a
/// terminal.
pub proof fn law_update_then_next_hops(fw: FwMap, router: RouterId, prefix: Prefix, hops: Seq<RouterId>)
    requires
        hops.len() > 0,
    ensures
        next_hops(fw.insert((router, prefix), hops), router, prefix)
            == if hops == seq![to_dst()] { Seq::<RouterId>::empty() } else { hops },
        next_hops(fw.remove((router, prefix)), router, prefix) == Seq::<RouterId>::empty(),
{
}

/// A router is among the terminals of a prefix exactly when the destination is among its next
/// hops.
pub proof fn law_terminals(fw: FwMap, router: RouterId, prefix: Prefix)
    ensures
        prev_hops(fw, to_dst(), prefix).contains(router) == stored_hops(fw, router, prefix).contains(to_dst()),
{
}

impl Clone for ForwardingState {
    fn clone(&self) -> (r: Self)
        ensures
            r@ == self@,
    {
        proof {
            use_type_invariant(self);
        }
        let mut entries: Vec<FwEntry> = Vec::new();
        let mut i: usize = 0;
        while i < self.entries.len()
            invariant
                i <= self.entries@.len(),
                entries@.len() == i,
                forall|j: int| 0 <= j < i ==> entry_view(#[trigger] entries@[j]) == entry_view(self.entries@[j]),
                forall|j: int| 0 <= j < self.entries@.len() ==> #[trigger] self.entries@[j].next_hops@.len() > 0,
                keys_distinct(entry_views(self.entries@)),
            decreases self.entries@.len() - i,
        {
            let e = &self.entries[i];
            entries.push(FwEntry { router: e.router, prefix: e.prefix, next_hops: copy_routers(&e.next_hops) });
            i = i + 1;
        }
        assert(entry_views(entries@) =~= entry_views(self.entries@));
        proof {
            assert forall|j: int| 0 <= j < entries@.len() implies #[trigger] entries@[j].next_hops@.len() > 0 by {
                assert(entry_view(entries@[j]) == entry_view(self.entries@[j]));
            }
        }
        ForwardingState { entries }
    }
}

/// Every router on a route that a successful query returns is among the routers along the
/// forwarding paths from the queried router.
pub proof fn law_routes_within_reach(fw: FwMap, prefix: Prefix, source: RouterId, fuel: nat, i: int, j: int)
    requires
        route_from(fw, prefix, seq![source], fuel) is Ok,
        0 <= i < (route_from(fw, prefix, seq![source], fuel)->Ok_0).len(),
        0 <= j < (route_from(fw, prefix, seq![source], fuel)->Ok_0)[i].len(),
    ensures
        reachable(fw, prefix, source, (route_from(fw, prefix, seq![source], fuel)->Ok_0)[i][j]),
{
    let q = (route_from(fw, prefix, seq![source], fuel)->Ok_0)[i];
    law_routes_are_paths(fw, prefix, seq![source], fuel);
    assert(q[0] == source && is_route(fw, prefix, q));
    let w = q.take(j + 1);
    assert forall|k: int| 0 <= k < w.len() - 1 implies next_hops(fw, #[trigger] w[k], prefix).contains(w[k + 1]) by {
        assert(w[k] == q[k] && w[k + 1] == q[k + 1]);
        assert(next_hops(fw, q[k], prefix).contains(q[k + 1]));
    }
    assert(is_fw_path(fw, prefix, w));
    assert(w[0] == source && w.last() == q[j]);
}

} // verus!
