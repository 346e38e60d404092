//! Route-maps: ordered match-and-set rules applied to BGP routes on a session.

use vstd::prelude::*;
use vstd::std_specs::cmp::PartialEqSpecImpl;

use crate::types::{AsId, LinkWeight, Prefix, RouterId};

verus! {

/// A set of prefixes. The prefixes are kept in the order in which they were first inserted, and
/// no prefix occurs twice.
#[derive(Debug)]
pub struct PrefixSet {
    items: Vec<Prefix>,
}

impl PrefixSet {
    /// No prefix occurs twice.
    #[verifier::type_invariant]
    pub closed spec fn wf(&self) -> bool {
        self.items@.no_duplicates()
    }

    /// The prefixes in insertion order.
    pub closed spec fn items(&self) -> Seq<Prefix> {
        self.items@
    }

    /// Create an empty set.
    pub fn new() -> (s: PrefixSet)
        ensures
            s.items() == Seq::<Prefix>::empty(),
    {
        PrefixSet { items: Vec::new() }
    }

    /// Number of prefixes in the set.
    pub fn len(&self) -> (n: usize)
        ensures
            n == self.items().len(),
    {
        self.items.len()
    }

    /// The prefix at position `i` (in insertion order).
    pub fn get(&self, i: usize) -> (p: Prefix)
        requires
            i < self.items().len(),
        ensures
            p == self.items()[i as int],
    {
        self.items[i]
    }

    /// Check whether the prefix is in the set.
    pub fn contains(&self, p: Prefix) -> (b: bool)
        ensures
            b == self.items().contains(p),
    {
        let mut i: usize = 0;
        while i < self.items.len()
            invariant
                i <= self.items@.len(),
                forall|j: int| 0 <= j < i ==> self.items@[j] != p,
            decreases self.items@.len() - i,
        {
            if self.items[i] == p {
                return true;
            }
            i = i + 1;
        }
        false
    }

    /// Insert a prefix. Returns `true` if it was not yet in the set.
    pub fn insert(&mut self, p: Prefix) -> (added: bool)
        ensures
            added == !old(self).items().contains(p),
            added ==> final(self).items() == old(self).items().push(p),
            !added ==> final(self).items() == old(self).items(),
    {
        proof { use_type_invariant(&*self); }
        if self.contains(p) {
            false
        } else {
            let mut items = Vec::new();
            std::mem::swap(&mut items, &mut self.items);
            items.push(p);
            assert(items@.no_duplicates()) by {
                assert forall|i: int, j: int| 0 <= i < j < items@.len() implies items@[i] != items@[j] by {
                    if j == items@.len() - 1 {
                        assert(old(self).items@.contains(items@[i]));
                    }
                }
            }
            self.items = items;
            true
        }
    }

    /// Check whether both sets contain the same prefixes (independent of the insertion order).
    pub fn same_prefixes(&self, other: &PrefixSet) -> (b: bool)
        ensures
            b == (self.items().to_set() == other.items().to_set()),
    {
        let mut i: usize = 0;
        while i < self.items.len()
            invariant
                i <= self.items@.len(),
                forall|j: int| 0 <= j < i ==> other.items().contains(#[trigger] self.items@[j]),
            decreases self.items@.len() - i,
        {
            if !other.contains(self.items[i]) {
                assert(!self.items().to_set().contains(self.items@[i as int]) || !other.items().to_set().contains(self.items@[i as int]));
                assert(self.items().to_set() != other.items().to_set()) by {
                    assert(self.items().to_set().contains(self.items@[i as int]));
                }
                return false;
            }
            i = i + 1;
        }
        let mut k: usize = 0;
        while k < other.items.len()
            invariant
                k <= other.items@.len(),
                forall|j: int| 0 <= j < k ==> self.items().contains(#[trigger] other.items@[j]),
            decreases other.items@.len() - k,
        {
            if !self.contains(other.items[k]) {
                assert(self.items().to_set() != other.items().to_set()) by {
                    assert(other.items().to_set().contains(other.items@[k as int]));
                }
                return false;
            }
            k = k + 1;
        }
        assert(self.items().to_set() =~= other.items().to_set()) by {
            assert forall|p: Prefix| self.items().to_set().contains(p) implies other.items().to_set().contains(p) by {
                let j = choose|j: int| 0 <= j < self.items@.len() && self.items@[j] == p;
            }
            assert forall|p: Prefix| other.items().to_set().contains(p) implies self.items().to_set().contains(p) by {
                let j = choose|j: int| 0 <= j < other.items@.len() && other.items@[j] == p;
            }
        }
        true
    }
}

impl Clone for PrefixSet {
    fn clone(&self) -> (r: Self)
        ensures
            r.items() == self.items(),
    {
        proof { use_type_invariant(self); }
        PrefixSet { items: self.items.clone() }
    }
}

/// Whether a matching route is permitted or dropped.
#[derive(Clone, Copy, PartialEq, Eq, Structural, Debug, Hash)]
pub enum RouteMapState {
    /// Permit the route (and apply the set actions).
    Allow,
    /// Drop the route.
    Deny,
}

impl RouteMapState {
    /// Returns `true` for `Allow`.
    pub fn is_allow(&self) -> (b: bool)
        ensures
            b == (*self == RouteMapState::Allow),
    {
        match self {
            RouteMapState::Allow => true,
            RouteMapState::Deny => false,
        }
    }

    /// Returns `true` for `Deny`.
    pub fn is_deny(&self) -> (b: bool)
        ensures
            b == (*self == RouteMapState::Deny),
    {
        match self {
            RouteMapState::Allow => false,
            RouteMapState::Deny => true,
        }
    }
}

/// Direction of a route-map on a BGP session.
#[derive(Clone, Copy, PartialEq, Eq, Structural, Debug, Hash)]
pub enum RouteMapDirection {
    /// Applied to routes received from the neighbor.
    Incoming,
    /// Applied to routes sent to the neighbor.
    Outgoing,
}

/// Condition on the AS path of a route.
#[derive(Clone, Copy, PartialEq, Eq, Structural, Debug, Hash)]
pub enum RouteMapMatchAsPath {
    /// The AS path contains the given AS.
    Contains(AsId),
}

/// A single match condition of a route-map.
#[derive(Debug)]
pub enum RouteMapMatch {
    /// The route was learned from the given neighbor.
    Neighbor(RouterId),
    /// The prefix of the route is one of the given prefixes.
    Prefix(PrefixSet),
    /// Condition on the AS path.
    AsPath(RouteMapMatchAsPath),
    /// The next-hop of the route is the given router.
    NextHop(RouterId),
    /// The route carries the given community.
    Community(u32),
}

/// The abstract value of a match condition: a prefix condition is a set of prefixes.
pub enum RouteMapMatchView {
    /// The route was learned from the given neighbor.
    Neighbor(RouterId),
    /// The prefix of the route is in the set.
    Prefix(Set<Prefix>),
    /// Condition on the AS path.
    AsPath(RouteMapMatchAsPath),
    /// The next-hop of the route is the given router.
    NextHop(RouterId),
    /// The route carries the given community.
    Community(u32),
}

impl View for RouteMapMatch {
    type V = RouteMapMatchView;

    open spec fn view(&self) -> RouteMapMatchView {
        match self {
            RouteMapMatch::Neighbor(r) => RouteMapMatchView::Neighbor(*r),
            RouteMapMatch::Prefix(ps) => RouteMapMatchView::Prefix(ps.items().to_set()),
            RouteMapMatch::AsPath(c) => RouteMapMatchView::AsPath(*c),
            RouteMapMatch::NextHop(r) => RouteMapMatchView::NextHop(*r),
            RouteMapMatch::Community(c) => RouteMapMatchView::Community(*c),
        }
    }
}

impl Clone for RouteMapMatch {
    fn clone(&self) -> (r: Self)
        ensures
            r@ == self@,
            r matches RouteMapMatch::Prefix(p) ==> self matches RouteMapMatch::Prefix(q) && p.items() == q.items(),
    {
        match self {
            RouteMapMatch::Neighbor(r) => RouteMapMatch::Neighbor(*r),
            RouteMapMatch::Prefix(ps) => RouteMapMatch::Prefix(ps.clone()),
            RouteMapMatch::AsPath(c) => RouteMapMatch::AsPath(*c),
            RouteMapMatch::NextHop(r) => RouteMapMatch::NextHop(*r),
            RouteMapMatch::Community(c) => RouteMapMatch::Community(*c),
        }
    }
}

impl PartialEq for RouteMapMatch {
    fn eq(&self, other: &Self) -> (b: bool) {
        match (self, other) {
            (RouteMapMatch::Neighbor(a), RouteMapMatch::Neighbor(b)) => a.0 == b.0,
            (RouteMapMatch::Prefix(a), RouteMapMatch::Prefix(b)) => a.same_prefixes(b),
            (RouteMapMatch::AsPath(RouteMapMatchAsPath::Contains(a)), RouteMapMatch::AsPath(RouteMapMatchAsPath::Contains(b))) => a.0 == b.0,
            (RouteMapMatch::NextHop(a), RouteMapMatch::NextHop(b)) => a.0 == b.0,
            (RouteMapMatch::Community(a), RouteMapMatch::Community(b)) => *a == *b,
            _ => false,
        }
    }
}

impl PartialEqSpecImpl for RouteMapMatch {
    open spec fn obeys_eq_spec() -> bool {
        true
    }

    open spec fn eq_spec(&self, other: &Self) -> bool {
        self@ == other@
    }
}

/// An action that a route-map applies to a matching route.
#[derive(Clone, Copy, PartialEq, Eq, Structural, Debug)]
pub enum RouteMapSet {
    /// Overwrite the next-hop.
    NextHop(RouterId),
    /// Set the weight (`None` resets it to the default of 100).
    Weight(Option<u32>),
    /// Set the local preference (`None` resets it to the default of 100).
    LocalPref(Option<u32>),
    /// Set the MED (`None` resets it to the default of 0).
    Med(Option<u32>),
    /// Set the IGP cost towards the next-hop.
    IgpCost(LinkWeight),
    /// Add a community.
    SetCommunity(u32),
    /// Remove a community.
    DelCommunity(u32),
}

/// A single route-map item.
#[derive(Debug)]
pub struct RouteMap {
    /// Order of the item; items are applied in increasing order.
    pub order: i16,
    /// Permit or deny matching routes.
    pub state: RouteMapState,
    /// Conditions; a route matches if it satisfies all of them.
    pub conds: Vec<RouteMapMatch>,
    /// Actions applied to matching routes.
    pub set: Vec<RouteMapSet>,
}

/// The abstract value of a route-map item.
pub struct RouteMapView {
    /// Order of the item.
    pub order: i16,
    /// Permit or deny.
    pub state: RouteMapState,
    /// Conditions.
    pub conds: Seq<RouteMapMatchView>,
    /// Actions.
    pub set: Seq<RouteMapSet>,
}

impl View for RouteMap {
    type V = RouteMapView;

    open spec fn view(&self) -> RouteMapView {
        RouteMapView {
            order: self.order,
            state: self.state,
            conds: self.conds@.map_values(|c: RouteMapMatch| c@),
            set: self.set@,
        }
    }
}

/// Clone a list of match conditions, element by element.
fn clone_conds(conds: &Vec<RouteMapMatch>) -> (r: Vec<RouteMapMatch>)
    ensures
        r@.len() == conds@.len(),
        forall|i: int| 0 <= i < conds@.len() ==> #[trigger] r@[i]@ == conds@[i]@,
        forall|i: int| 0 <= i < conds@.len() ==> (#[trigger] r@[i] matches RouteMapMatch::Prefix(p)
            ==> conds@[i] matches RouteMapMatch::Prefix(q) && p.items() == q.items()),
{
    let mut r: Vec<RouteMapMatch> = Vec::new();
    let mut i: usize = 0;
    while i < conds.len()
        invariant
            i <= conds@.len(),
            r@.len() == i,
            forall|j: int| 0 <= j < i ==> #[trigger] r@[j]@ == conds@[j]@,
            forall|j: int| 0 <= j < i ==> (#[trigger] r@[j] matches RouteMapMatch::Prefix(p)
                ==> conds@[j] matches RouteMapMatch::Prefix(q) && p.items() == q.items()),
        decreases conds@.len() - i,
    {
        r.push(conds[i].clone());
        i = i + 1;
    }
    r
}

/// Copy a list of set actions.
fn copy_sets(set: &Vec<RouteMapSet>) -> (r: Vec<RouteMapSet>)
    ensures
        r@ == set@,
{
    let mut r: Vec<RouteMapSet> = Vec::new();
    let mut i: usize = 0;
    while i < set.len()
        invariant
            i <= set@.len(),
            r@ == set@.take(i as int),
        decreases set@.len() - i,
    {
        r.push(set[i]);
        i = i + 1;
        assert(r@ =~= set@.take(i as int));
    }
    assert(set@.take(set@.len() as int) =~= set@);
    r
}

impl Clone for RouteMap {
    fn clone(&self) -> (r: Self)
        ensures
            r@ == self@,
            r.order == self.order,
            r.state == self.state,
            r.set@ == self.set@,
            r.conds@.len() == self.conds@.len(),
            forall|i: int| 0 <= i < self.conds@.len() ==> (#[trigger] r.conds@[i] matches RouteMapMatch::Prefix(p)
                ==> self.conds@[i] matches RouteMapMatch::Prefix(q) && p.items() == q.items()),
    {
        let conds = clone_conds(&self.conds);
        let r = RouteMap { order: self.order, state: self.state, conds, set: copy_sets(&self.set) };
        assert(r@.conds =~= self@.conds);
        r
    }
}

impl RouteMap {
    /// Check whether the item and `other` have the same abstract value.
    pub fn same_as(&self, other: &RouteMap) -> (b: bool)
        ensures
            b == (self@ == other@),
    {
        if self.order != other.order || self.state != other.state {
            return false;
        }
        if self.conds.len() != other.conds.len() || self.set.len() != other.set.len() {
            assert(self@.conds.len() != other@.conds.len() || self@.set.len() != other@.set.len());
            return false;
        }
        let mut i: usize = 0;
        while i < self.conds.len()
            invariant
                i <= self.conds@.len(),
                self.conds@.len() == other.conds@.len(),
                forall|j: int| 0 <= j < i ==> #[trigger] self.conds@[j]@ == other.conds@[j]@,
            decreases self.conds@.len() - i,
        {
            if !(self.conds[i] == other.conds[i]) {
                assert(self@.conds[i as int] != other@.conds[i as int]);
                return false;
            }
            i = i + 1;
        }
        let mut k: usize = 0;
        while k < self.set.len()
            invariant
                k <= self.set@.len(),
                self.set@.len() == other.set@.len(),
                forall|j: int| 0 <= j < k ==> #[trigger] self.set@[j] == other.set@[j],
            decreases self.set@.len() - k,
        {
            if self.set[k] != other.set[k] {
                assert(self@.set[k as int] != other@.set[k as int]);
                return false;
            }
            k = k + 1;
        }
        assert(self@.conds =~= other@.conds);
        assert(self@.set =~= other@.set);
        true
    }
}

impl PartialEq for RouteMap {
    fn eq(&self, other: &Self) -> (b: bool) {
        self.same_as(other)
    }
}

impl PartialEqSpecImpl for RouteMap {
    open spec fn obeys_eq_spec() -> bool {
        true
    }

    open spec fn eq_spec(&self, other: &Self) -> bool {
        self@ == other@
    }
}

/// Returns `true` if the condition is a prefix condition.
pub open spec fn is_prefix_cond(c: RouteMapMatch) -> bool {
    c matches RouteMapMatch::Prefix(_)
}

/// The position of the first prefix condition, if there is one.
pub open spec fn first_prefix_cond(conds: Seq<RouteMapMatch>) -> Option<int>
    decreases conds.len(),
{
    if conds.len() == 0 {
        None
    } else {
        match first_prefix_cond(conds.drop_last()) {
            Some(i) => Some(i),
            None => if is_prefix_cond(conds.last()) { Some(conds.len() - 1) } else { None },
        }
    }
}

/// Properties of the first prefix condition.
pub proof fn lemma_first_prefix_cond(conds: Seq<RouteMapMatch>)
    ensures
        first_prefix_cond(conds) matches Some(i) ==> 0 <= i < conds.len() && is_prefix_cond(conds[i])
            && forall|j: int| 0 <= j < i ==> !is_prefix_cond(#[trigger] conds[j]),
        first_prefix_cond(conds) is None ==> forall|j: int| 0 <= j < conds.len() ==> !is_prefix_cond(#[trigger] conds[j]),
    decreases conds.len(),
{
    if conds.len() > 0 {
        lemma_first_prefix_cond(conds.drop_last());
        assert forall|j: int| 0 <= j < conds.len() - 1 implies conds.drop_last()[j] == conds[j] by {}
    }
}

/// Step-wise construction of a [`RouteMap`].
#[derive(Debug)]
pub struct RouteMapBuilder {
    /// Order of the item, once set.
    pub order: Option<i16>,
    /// State of the item, once set.
    pub state: Option<RouteMapState>,
    /// Conditions collected so far.
    pub conds: Vec<RouteMapMatch>,
    /// Actions collected so far.
    pub set: Vec<RouteMapSet>,
}

impl RouteMapBuilder {
    /// Create an empty builder.
    pub fn new() -> (b: RouteMapBuilder)
        ensures
            b.order is None,
            b.state is None,
            b.conds@.len() == 0,
            b.set@.len() == 0,
    {
        RouteMapBuilder { order: None, state: None, conds: Vec::new(), set: Vec::new() }
    }

    /// Set the order.
    pub fn order(self, order: i16) -> (b: RouteMapBuilder)
        ensures
            b == (RouteMapBuilder { order: Some(order), ..self }),
    {
        RouteMapBuilder { order: Some(order), ..self }
    }

    /// Permit matching routes.
    pub fn allow(self) -> (b: RouteMapBuilder)
        ensures
            b == (RouteMapBuilder { state: Some(RouteMapState::Allow), ..self }),
    {
        RouteMapBuilder { state: Some(RouteMapState::Allow), ..self }
    }

    /// Deny matching routes.
    pub fn deny(self) -> (b: RouteMapBuilder)
        ensures
            b == (RouteMapBuilder { state: Some(RouteMapState::Deny), ..self }),
    {
        RouteMapBuilder { state: Some(RouteMapState::Deny), ..self }
    }

    /// Add a condition.
    pub fn cond(self, c: RouteMapMatch) -> (b: RouteMapBuilder)
        ensures
            b.order == self.order,
            b.state == self.state,
            b.set@ == self.set@,
            b.conds@ == self.conds@.push(c),
    {
        let mut conds = self.conds;
        conds.push(c);
        RouteMapBuilder { order: self.order, state: self.state, conds, set: self.set }
    }

    /// Match routes learned from `neighbor`.
    pub fn match_neighbor(self, neighbor: RouterId) -> (b: RouteMapBuilder)
        ensures
            b.order == self.order,
            b.state == self.state,
            b.set@ == self.set@,
            b.conds@ == self.conds@.push(RouteMapMatch::Neighbor(neighbor)),
    {
        self.cond(RouteMapMatch::Neighbor(neighbor))
    }

    /// Match routes whose AS path contains `as_id`.
    pub fn match_as_path_contains(self, as_id: AsId) -> (b: RouteMapBuilder)
        ensures
            b.order == self.order,
            b.state == self.state,
            b.set@ == self.set@,
            b.conds@ == self.conds@.push(RouteMapMatch::AsPath(RouteMapMatchAsPath::Contains(as_id))),
    {
        self.cond(RouteMapMatch::AsPath(RouteMapMatchAsPath::Contains(as_id)))
    }

    /// Match routes whose next-hop is `nh`.
    pub fn match_next_hop(self, nh: RouterId) -> (b: RouteMapBuilder)
        ensures
            b.order == self.order,
            b.state == self.state,
            b.set@ == self.set@,
            b.conds@ == self.conds@.push(RouteMapMatch::NextHop(nh)),
    {
        self.cond(RouteMapMatch::NextHop(nh))
    }

    /// Match routes carrying the community `c`.
    pub fn match_community(self, c: u32) -> (b: RouteMapBuilder)
        ensures
            b.order == self.order,
            b.state == self.state,
            b.set@ == self.set@,
            b.conds@ == self.conds@.push(RouteMapMatch::Community(c)),
    {
        self.cond(RouteMapMatch::Community(c))
    }

    /// Match routes for `prefix`. All prefixes added this way are collected in one prefix
    /// condition: a route matches if its prefix is any of them.
    pub fn match_prefix(self, prefix: Prefix) -> (b: RouteMapBuilder)
        ensures
            b.order == self.order,
            b.state == self.state,
            b.set@ == self.set@,
            match first_prefix_cond(self.conds@) {
                None => {
                    &&& b.conds@.len() == self.conds@.len() + 1
                    &&& b.conds@.drop_last() == self.conds@
                    &&& b.conds@.last() matches RouteMapMatch::Prefix(ps)
                    &&& ps.items() == seq![prefix]
                },
                Some(i) => {
                    &&& b.conds@.len() == self.conds@.len()
                    &&& forall|j: int| 0 <= j < b.conds@.len() && j != i ==> #[trigger] b.conds@[j] == self.conds@[j]
                    &&& self.conds@[i] matches RouteMapMatch::Prefix(old_ps)
                    &&& b.conds@[i] matches RouteMapMatch::Prefix(ps)
                    &&& ps.items() == if old_ps.items().contains(prefix) { old_ps.items() } else { old_ps.items().push(prefix) }
                },
            },
    {
        proof { lemma_first_prefix_cond(self.conds@); }
        let mut conds = self.conds;
        let mut i: usize = 0;
        while i < conds.len()
            invariant
                i <= conds@.len(),
                conds@ == self.conds@,
                forall|j: int| 0 <= j < i ==> !is_prefix_cond(#[trigger] conds@[j]),
            ensures
                i <= conds@.len(),
                conds@ == self.conds@,
                forall|j: int| 0 <= j < i ==> !is_prefix_cond(#[trigger] conds@[j]),
                i < conds@.len() ==> is_prefix_cond(conds@[i as int]),
            decreases conds@.len() - i,
        {
            if let RouteMapMatch::Prefix(_) = &conds[i] {
                break;
            }
            i = i + 1;
        }
        if i < conds.len() {
            assert(first_prefix_cond(self.conds@) == Some(i as int));
            let c = conds.remove(i);
            match c {
                RouteMapMatch::Prefix(ps) => {
                    let mut ps = ps;
                    ps.insert(prefix);
                    conds.insert(i, RouteMapMatch::Prefix(ps));
                },
                _ => {
                    assert(false);
                    conds.insert(i, c);
                },
            }
            assert forall|j: int| 0 <= j < conds@.len() && j != i implies #[trigger] conds@[j] == self.conds@[j] by {}
        } else {
            let mut ps = PrefixSet::new();
            ps.insert(prefix);
            conds.push(RouteMapMatch::Prefix(ps));
            assert(conds@.drop_last() =~= self.conds@);
        }
        RouteMapBuilder { order: self.order, state: self.state, conds, set: self.set }
    }

    /// Add an action.
    pub fn add_set(self, a: RouteMapSet) -> (b: RouteMapBuilder)
        ensures
            b.order == self.order,
            b.state == self.state,
            b.conds@ == self.conds@,
            b.set@ == self.set@.push(a),
    {
        let mut set = self.set;
        set.push(a);
        RouteMapBuilder { order: self.order, state: self.state, conds: self.conds, set }
    }

    /// Overwrite the next-hop.
    pub fn set_next_hop(self, nh: RouterId) -> (b: RouteMapBuilder)
        ensures
            b.order == self.order, b.state == self.state, b.conds@ == self.conds@,
            b.set@ == self.set@.push(RouteMapSet::NextHop(nh)),
    {
        self.add_set(RouteMapSet::NextHop(nh))
    }

    /// Set the weight.
    pub fn set_weight(self, w: u32) -> (b: RouteMapBuilder)
        ensures
            b.order == self.order, b.state == self.state, b.conds@ == self.conds@,
            b.set@ == self.set@.push(RouteMapSet::Weight(Some(w))),
    {
        self.add_set(RouteMapSet::Weight(Some(w)))
    }

    /// Reset the weight to its default.
    pub fn reset_weight(self) -> (b: RouteMapBuilder)
        ensures
            b.order == self.order, b.state == self.state, b.conds@ == self.conds@,
            b.set@ == self.set@.push(RouteMapSet::Weight(None)),
    {
        self.add_set(RouteMapSet::Weight(None))
    }

    /// Set the local preference.
    pub fn set_local_pref(self, lp: u32) -> (b: RouteMapBuilder)
        ensures
            b.order == self.order, b.state == self.state, b.conds@ == self.conds@,
            b.set@ == self.set@.push(RouteMapSet::LocalPref(Some(lp))),
    {
        self.add_set(RouteMapSet::LocalPref(Some(lp)))
    }

    /// Reset the local preference to its default.
    pub fn reset_local_pref(self) -> (b: RouteMapBuilder)
        ensures
            b.order == self.order, b.state == self.state, b.conds@ == self.conds@,
            b.set@ == self.set@.push(RouteMapSet::LocalPref(None)),
    {
        self.add_set(RouteMapSet::LocalPref(None))
    }

    /// Set the MED.
    pub fn set_med(self, med: u32) -> (b: RouteMapBuilder)
        ensures
            b.order == self.order, b.state == self.state, b.conds@ == self.conds@,
            b.set@ == self.set@.push(RouteMapSet::Med(Some(med))),
    {
        self.add_set(RouteMapSet::Med(Some(med)))
    }

    /// Reset the MED to its default.
    pub fn reset_med(self) -> (b: RouteMapBuilder)
        ensures
            b.order == self.order, b.state == self.state, b.conds@ == self.conds@,
            b.set@ == self.set@.push(RouteMapSet::Med(None)),
    {
        self.add_set(RouteMapSet::Med(None))
    }

    /// Set the IGP cost.
    pub fn set_igp_cost(self, cost: LinkWeight) -> (b: RouteMapBuilder)
        ensures
            b.order == self.order, b.state == self.state, b.conds@ == self.conds@,
            b.set@ == self.set@.push(RouteMapSet::IgpCost(cost)),
    {
        self.add_set(RouteMapSet::IgpCost(cost))
    }

    /// Add the community `c`.
    pub fn set_community(self, c: u32) -> (b: RouteMapBuilder)
        ensures
            b.order == self.order, b.state == self.state, b.conds@ == self.conds@,
            b.set@ == self.set@.push(RouteMapSet::SetCommunity(c)),
    {
        self.add_set(RouteMapSet::SetCommunity(c))
    }

    /// Remove the community `c`.
    pub fn remove_community(self, c: u32) -> (b: RouteMapBuilder)
        ensures
            b.order == self.order, b.state == self.state, b.conds@ == self.conds@,
            b.set@ == self.set@.push(RouteMapSet::DelCommunity(c)),
    {
        self.add_set(RouteMapSet::DelCommunity(c))
    }

    /// Build the route-map item. The order and the state must have been set.
    pub fn build(self) -> (rm: RouteMap)
        requires
            self.order is Some,
            self.state is Some,
        ensures
            rm.order == self.order->0,
            rm.state == self.state->0,
            rm.conds@ == self.conds@,
            rm.set@ == self.set@,
    {
        RouteMap { order: self.order.unwrap(), state: self.state.unwrap(), conds: self.conds, set: self.set }
    }
}

} // verus!
