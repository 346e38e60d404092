//! External routers: routers of other ASes, which advertise routes over eBGP sessions. Every
//! change can be undone, one step at a time.

use vstd::prelude::*;

use crate::assoc::{assoc_map, keys_distinct, lemma_assoc_index, lemma_assoc_key, lemma_assoc_len, lemma_assoc_push,
    lemma_assoc_remove, lemma_assoc_update};
use crate::bgp::{BgpEvent, BgpEventView, BgpRoute, BgpRouteView};
use crate::event::Event;
use crate::types::{AsId, Prefix, RouterId, StepUpdate};

verus! {

/// Errors of a device.
#[derive(Debug, PartialEq, Eq)]
pub enum DeviceError {
    /// The router is not known in the IGP table.
    RouterNotFound(RouterId),
    /// No BGP session exists with the router.
    NoBgpSession(RouterId),
}

/// A step that undoes part of a change.
#[derive(Debug)]
enum UndoAction {
    /// Add the BGP session again.
    AddBgpSession(RouterId),
    /// Remove the BGP session again.
    DelBgpSession(RouterId),
    /// Restore the route (`None`: remove the route of the prefix).
    AdvertiseRoute(Prefix, Option<BgpRoute>),
}

/// The abstract value of an undo step.
pub enum UndoView {
    /// Add the BGP session again.
    AddBgpSession(RouterId),
    /// Remove the BGP session again.
    DelBgpSession(RouterId),
    /// Restore the route of the prefix.
    AdvertiseRoute(Prefix, Option<BgpRouteView>),
}

impl View for UndoAction {
    type V = UndoView;

    closed spec fn view(&self) -> UndoView {
        match self {
            UndoAction::AddBgpSession(r) => UndoView::AddBgpSession(*r),
            UndoAction::DelBgpSession(r) => UndoView::DelBgpSession(*r),
            UndoAction::AdvertiseRoute(p, None) => UndoView::AdvertiseRoute(*p, None),
            UndoAction::AdvertiseRoute(p, Some(r)) => UndoView::AdvertiseRoute(*p, Some(r@)),
        }
    }
}

/// The sessions and routes of an external router.
pub struct ExtState {
    /// The routers with which an eBGP session exists.
    pub neighbors: Set<RouterId>,
    /// The advertised route of each prefix.
    pub routes: Map<Prefix, BgpRouteView>,
}

/// The state after one undo step.
pub open spec fn undo_step(s: ExtState, a: UndoView) -> ExtState {
    match a {
        UndoView::AddBgpSession(r) => ExtState { neighbors: s.neighbors.insert(r), routes: s.routes },
        UndoView::DelBgpSession(r) => ExtState { neighbors: s.neighbors.remove(r), routes: s.routes },
        UndoView::AdvertiseRoute(_, Some(route)) => ExtState { neighbors: s.neighbors, routes: s.routes.insert(route.prefix, route) },
        UndoView::AdvertiseRoute(p, None) => ExtState { neighbors: s.neighbors, routes: s.routes.remove(p) },
    }
}

/// The state after the undo steps, applied in order.
pub open spec fn undo_steps(s: ExtState, acts: Seq<UndoView>) -> ExtState
    decreases acts.len(),
{
    if acts.len() == 0 {
        s
    } else {
        undo_step(undo_steps(s, acts.drop_last()), acts.last())
    }
}

/// The route that an external router advertises for a prefix.
pub open spec fn ext_route(prefix: Prefix, as_path: Seq<AsId>, next_hop: RouterId, med: Option<u32>,
    community: Option<u32>) -> BgpRouteView
{
    BgpRouteView { prefix, as_path, next_hop, local_pref: None, med, community }
}

/// An external router.
#[derive(Debug)]
pub struct ExternalRouter {
    name: String,
    router_id: RouterId,
    as_id: AsId,
    neighbors: Vec<RouterId>,
    active_routes: Vec<BgpRoute>,
    undo_stack: Vec<Vec<UndoAction>>,
}

/// The routes, keyed by prefix.
pub open spec fn route_entries(s: Seq<BgpRoute>) -> Seq<(Prefix, BgpRouteView)> {
    s.map_values(|r: BgpRoute| (r.prefix, r@))
}

/// The undo steps of a frame.
spec fn frame_view(f: Seq<UndoAction>) -> Seq<UndoView> {
    f.map_values(|a: UndoAction| a@)
}

impl ExternalRouter {
    /// Neighbors occur once, and each prefix has at most one route.
    #[verifier::type_invariant]
    spec fn well_formed(self) -> bool {
        &&& self.neighbors@.no_duplicates()
        &&& keys_distinct(route_entries(self.active_routes@))
    }

    /// The sessions and routes.
    pub closed spec fn state(&self) -> ExtState {
        ExtState { neighbors: self.neighbors@.to_set(), routes: assoc_map(route_entries(self.active_routes@)) }
    }

    /// The neighbors, in the order in which messages are sent to them.
    pub closed spec fn neighbor_order(&self) -> Seq<RouterId> {
        self.neighbors@
    }

    /// The routes, in the order in which they are sent to a new neighbor.
    pub closed spec fn route_order(&self) -> Seq<BgpRouteView> {
        self.active_routes@.map_values(|r: BgpRoute| r@)
    }

    /// The message orders list each neighbor once and each advertised route once, under its
    /// prefix: a message to every entry of `neighbor_order()` is one message to each neighbor,
    /// and one for every entry of `route_order()` is one for each advertised route.
    pub open spec fn orders_match(&self) -> bool {
        &&& self.neighbor_order().no_duplicates()
        &&& self.neighbor_order().to_set() == self.state().neighbors
        &&& self.state().routes.dom().finite()
        &&& self.route_order().len() == self.state().routes.dom().len()
        &&& forall|i: int, j: int| 0 <= i < j < self.route_order().len()
            ==> #[trigger] self.route_order()[i].prefix != #[trigger] self.route_order()[j].prefix
        &&& forall|i: int| 0 <= i < self.route_order().len()
            ==> self.state().routes.contains_key(#[trigger] self.route_order()[i].prefix)
            && self.state().routes[self.route_order()[i].prefix] == self.route_order()[i]
    }

    /// A well-formed router lists its neighbors and routes as `orders_match` says.
    proof fn lemma_orders_match(&self)
        requires
            self.well_formed(),
        ensures
            self.orders_match(),
    {
        let es = route_entries(self.active_routes@);
        lemma_assoc_len(es);
        assert forall|i: int| 0 <= i < self.route_order().len() implies
            self.state().routes.contains_key(#[trigger] self.route_order()[i].prefix)
            && self.state().routes[self.route_order()[i].prefix] == self.route_order()[i] by {
            lemma_assoc_index(es, i);
        }
        assert forall|i: int, j: int| 0 <= i < j < self.route_order().len() implies
            #[trigger] self.route_order()[i].prefix != #[trigger] self.route_order()[j].prefix by {
            assert(es[i].0 == self.route_order()[i].prefix);
            assert(es[j].0 == self.route_order()[j].prefix);
        }
    }

    /// The frames of undo steps, the last one first to be undone.
    pub closed spec fn undo_frames(&self) -> Seq<Seq<UndoView>> {
        self.undo_stack@.map_values(|f: Vec<UndoAction>| frame_view(f@))
    }

    /// The name of the router.
    pub closed spec fn name_spec(&self) -> Seq<char> {
        self.name@
    }

    /// The id of the router.
    pub closed spec fn id_spec(&self) -> RouterId {
        self.router_id
    }

    /// The AS of the router.
    pub closed spec fn as_spec(&self) -> AsId {
        self.as_id
    }

    /// A router with the given name, id and AS, with no session and no route.
    pub fn new(name: String, router_id: RouterId, as_id: AsId) -> (r: ExternalRouter)
        ensures
            r.name_spec() == name@,
            r.id_spec() == router_id,
            r.as_spec() == as_id,
            r.state().neighbors == Set::<RouterId>::empty(),
            r.state().routes == Map::<Prefix, BgpRouteView>::empty(),
            r.undo_frames() == Seq::<Seq<UndoView>>::empty(),
    {
        let r = ExternalRouter {
            name,
            router_id,
            as_id,
            neighbors: Vec::new(),
            active_routes: Vec::new(),
            undo_stack: Vec::new(),
        };
        assert(r.state().neighbors =~= Set::<RouterId>::empty());
        assert(r.state().routes =~= Map::<Prefix, BgpRouteView>::empty());
        assert(r.undo_frames() =~= Seq::<Seq<UndoView>>::empty());
        r
    }

    /// The id of the router.
    pub fn router_id(&self) -> (r: RouterId)
        ensures
            r == self.id_spec(),
    {
        self.router_id
    }

    /// The neighbors, in the order in which messages are sent to them.
    pub fn neighbors(&self) -> (r: &[RouterId])
        ensures
            r@ == self.neighbor_order(),
            self.orders_match(),
    {
        proof {
            use_type_invariant(self);
            self.lemma_orders_match();
        }
        self.neighbors.as_slice()
    }

    /// The AS of the router.
    pub fn as_id(&self) -> (r: AsId)
        ensures
            r == self.as_spec(),
    {
        self.as_id
    }

    /// The name of the router.
    pub fn name(&self) -> (r: &str)
        ensures
            r@ == self.name_spec(),
    {
        self.name.as_str()
    }
}

impl ExternalRouter {
    /// Index of the route for `prefix`.
    fn find_route(&self, prefix: Prefix) -> (r: Option<usize>)
        ensures
            match r {
                Some(i) => i < self.active_routes@.len() && self.active_routes@[i as int].prefix == prefix
                    && self.state().routes.contains_key(prefix)
                    && self.state().routes[prefix] == self.active_routes@[i as int]@,
                None => !self.state().routes.contains_key(prefix),
            },
    {
        proof {
            use_type_invariant(self);
        }
        let ghost s = route_entries(self.active_routes@);
        let mut i: usize = 0;
        while i < self.active_routes.len()
            invariant
                i <= self.active_routes@.len(),
                s == route_entries(self.active_routes@),
                keys_distinct(s),
                forall|j: int| 0 <= j < i ==> (#[trigger] s[j]).0 != prefix,
            decreases self.active_routes@.len() - i,
        {
            proof {
                assert(s[i as int] == (self.active_routes@[i as int].prefix, self.active_routes@[i as int]@));
            }
            if self.active_routes[i].prefix.0 == prefix.0 {
                proof {
                    lemma_assoc_index(s, i as int);
                }
                return Some(i);
            }
            i = i + 1;
        }
        proof {
            if assoc_map(s).contains_key(prefix) {
                let j = lemma_assoc_key(s, prefix);
            }
        }
        None
    }

    /// Index of the neighbor `r`.
    fn find_neighbor(&self, r: RouterId) -> (i: Option<usize>)
        ensures
            match i {
                Some(i) => i < self.neighbors@.len() && self.neighbors@[i as int] == r,
                None => !self.neighbors@.contains(r),
            },
            i is Some <==> self.state().neighbors.contains(r),
    {
        let mut i: usize = 0;
        while i < self.neighbors.len()
            invariant
                i <= self.neighbors@.len(),
                forall|j: int| 0 <= j < i ==> self.neighbors@[j] != r,
            decreases self.neighbors@.len() - i,
        {
            if self.neighbors[i].0 == r.0 {
                assert(self.neighbors@[i as int] == r);
                return Some(i);
            }
            i = i + 1;
        }
        None
    }

    /// Add a neighbor; returns whether it is new.
    fn add_neighbor(&mut self, r: RouterId) -> (added: bool)
        ensures
            added == !old(self).state().neighbors.contains(r),
            final(self).state().neighbors == old(self).state().neighbors.insert(r),
            final(self).state().routes == old(self).state().routes,
            final(self).route_order() == old(self).route_order(),
            final(self).undo_frames() == old(self).undo_frames(),
            final(self).id_spec() == old(self).id_spec(),
            final(self).as_spec() == old(self).as_spec(),
            final(self).name_spec() == old(self).name_spec(),
    {
        proof {
            use_type_invariant(&*self);
        }
        if self.find_neighbor(r).is_some() {
            assert(old(self).state().neighbors.insert(r) =~= old(self).state().neighbors);
            return false;
        }
        let mut v: Vec<RouterId> = Vec::new();
        std::mem::swap(&mut v, &mut self.neighbors);
        let ghost before = v@;
        v.push(r);
        proof {
            assert forall|a: int, b: int| 0 <= a < v@.len() && 0 <= b < v@.len() && a != b implies v@[a] != v@[b] by {
                if a < before.len() && b < before.len() {
                    assert(v@[a] == before[a] && v@[b] == before[b]);
                } else if a < before.len() {
                    assert(before.contains(before[a]));
                } else {
                    assert(before.contains(before[b]));
                }
            }
            assert(v@.to_set() =~= before.to_set().insert(r)) by {
                assert forall|x: RouterId| v@.contains(x) <==> before.contains(x) || x == r by {
                    if v@.contains(x) {
                        let k = choose|k: int| 0 <= k < v@.len() && v@[k] == x;
                        if k < before.len() {
                            assert(before[k] == x);
                        }
                    }
                    if before.contains(x) {
                        let k = choose|k: int| 0 <= k < before.len() && before[k] == x;
                        assert(v@[k] == x);
                    }
                    if x == r {
                        assert(v@[before.len() as int] == r);
                    }
                }
            }
        }
        self.neighbors = v;
        true
    }

    /// Remove a neighbor; returns whether it was there.
    fn remove_neighbor(&mut self, r: RouterId) -> (removed: bool)
        ensures
            removed == old(self).state().neighbors.contains(r),
            final(self).state().neighbors == old(self).state().neighbors.remove(r),
            final(self).state().routes == old(self).state().routes,
            final(self).route_order() == old(self).route_order(),
            final(self).undo_frames() == old(self).undo_frames(),
            final(self).id_spec() == old(self).id_spec(),
            final(self).as_spec() == old(self).as_spec(),
            final(self).name_spec() == old(self).name_spec(),
    {
        proof {
            use_type_invariant(&*self);
        }
        match self.find_neighbor(r) {
            None => {
                assert(old(self).state().neighbors.remove(r) =~= old(self).state().neighbors);
                false
            },
            Some(i) => {
                let mut v: Vec<RouterId> = Vec::new();
                std::mem::swap(&mut v, &mut self.neighbors);
                let ghost before = v@;
                v.remove(i);
                proof {
                    assert forall|a: int| 0 <= a < v@.len() implies #[trigger] v@[a] == before[if a < i { a } else { a + 1 }] by {}
                    assert forall|a: int, b: int| 0 <= a < v@.len() && 0 <= b < v@.len() && a != b implies v@[a] != v@[b] by {
                        assert(v@[a] == before[if a < i { a } else { a + 1 }]);
                        assert(v@[b] == before[if b < i { b } else { b + 1 }]);
                    }
                    assert(v@.to_set() =~= before.to_set().remove(r)) by {
                        assert forall|x: RouterId| v@.contains(x) <==> before.contains(x) && x != r by {
                            if v@.contains(x) {
                                let k = choose|k: int| 0 <= k < v@.len() && v@[k] == x;
                                assert(v@[k] == before[if k < i { k } else { k + 1 }]);
                            }
                            if before.contains(x) && x != r {
                                let k = choose|k: int| 0 <= k < before.len() && before[k] == x;
                                assert(k != i);
                                let t = if k < i { k } else { k - 1 };
                                assert(v@[t] == x);
                            }
                        }
                    }
                }
                self.neighbors = v;
                true
            },
        }
    }

    /// Store the route for its prefix; returns the route it replaces.
    fn put_route(&mut self, route: BgpRoute) -> (old_route: Option<BgpRoute>)
        ensures
            final(self).state().routes == old(self).state().routes.insert(route.prefix, route@),
            match old_route {
                Some(o) => old(self).state().routes.contains_key(route.prefix) && o@ == old(self).state().routes[route.prefix]
                    && o.prefix == route.prefix,
                None => !old(self).state().routes.contains_key(route.prefix),
            },
            final(self).state().neighbors == old(self).state().neighbors,
            final(self).neighbor_order() == old(self).neighbor_order(),
            final(self).undo_frames() == old(self).undo_frames(),
            final(self).id_spec() == old(self).id_spec(),
            final(self).as_spec() == old(self).as_spec(),
            final(self).name_spec() == old(self).name_spec(),
    {
        proof {
            use_type_invariant(&*self);
        }
        let ghost s = route_entries(self.active_routes@);
        let found = self.find_route(route.prefix);
        let mut v: Vec<BgpRoute> = Vec::new();
        std::mem::swap(&mut v, &mut self.active_routes);
        let r = match found {
            Some(i) => {
                let ghost rv = route@;
                proof {
                    lemma_assoc_update(s, i as int, rv);
                    assert(s[i as int].0 == route.prefix);
                }
                let old_route = v.remove(i);
                v.insert(i, route);
                proof {
                    assert(route_entries(v@) =~= s.update(i as int, (s[i as int].0, rv)));
                }
                Some(old_route)
            },
            None => {
                let ghost x = (route.prefix, route@);
                proof {
                    lemma_assoc_push(s, x);
                }
                v.push(route);
                proof {
                    assert(route_entries(v@) =~= s.push(x));
                }
                None
            },
        };
        self.active_routes = v;
        r
    }

    /// Remove the route of a prefix; returns it.
    fn take_route(&mut self, prefix: Prefix) -> (old_route: Option<BgpRoute>)
        ensures
            final(self).state().routes == old(self).state().routes.remove(prefix),
            match old_route {
                Some(o) => old(self).state().routes.contains_key(prefix) && o@ == old(self).state().routes[prefix]
                    && o.prefix == prefix,
                None => !old(self).state().routes.contains_key(prefix),
            },
            final(self).state().neighbors == old(self).state().neighbors,
            final(self).neighbor_order() == old(self).neighbor_order(),
            final(self).undo_frames() == old(self).undo_frames(),
            final(self).id_spec() == old(self).id_spec(),
            final(self).as_spec() == old(self).as_spec(),
            final(self).name_spec() == old(self).name_spec(),
    {
        proof {
            use_type_invariant(&*self);
        }
        let ghost s = route_entries(self.active_routes@);
        match self.find_route(prefix) {
            Some(i) => {
                let mut v: Vec<BgpRoute> = Vec::new();
                std::mem::swap(&mut v, &mut self.active_routes);
                proof {
                    lemma_assoc_remove(s, i as int);
                }
                let old_route = v.remove(i);
                proof {
                    assert(route_entries(v@) =~= s.remove(i as int));
                }
                self.active_routes = v;
                Some(old_route)
            },
            None => {
                assert(old(self).state().routes.remove(prefix) =~= old(self).state().routes);
                None
            },
        }
    }

    /// Push a frame of undo steps.
    fn push_frame(&mut self, frame: Vec<UndoAction>)
        ensures
            final(self).undo_frames() == old(self).undo_frames().push(frame_view(frame@)),
            final(self).state() == old(self).state(),
            final(self).neighbor_order() == old(self).neighbor_order(),
            final(self).route_order() == old(self).route_order(),
            final(self).id_spec() == old(self).id_spec(),
            final(self).as_spec() == old(self).as_spec(),
            final(self).name_spec() == old(self).name_spec(),
    {
        proof {
            use_type_invariant(&*self);
        }
        let mut v: Vec<Vec<UndoAction>> = Vec::new();
        std::mem::swap(&mut v, &mut self.undo_stack);
        v.push(frame);
        self.undo_stack = v;
        assert(self.undo_frames() =~= old(self).undo_frames().push(frame_view(frame@)));
    }
}

/// `ev` is the BGP message `m` from `src` to `dst`.
pub open spec fn is_bgp_msg<P>(ev: Event<P>, src: RouterId, dst: RouterId, m: BgpEventView) -> bool {
    ev matches Event::Bgp(_, s, d, e) && s == src && d == dst && e@ == m
}

/// The state after applying the top frame of undo steps has been restored to `before`.
pub open spec fn undoes_to(after: ExtState, frames: Seq<Seq<UndoView>>, before: ExtState) -> bool {
    frames.len() > 0 && undo_steps(after, frames.last()) == before
}

impl ExternalRouter {
    /// The message `m` to every neighbor.
    fn to_all_neighbors<P: Default>(&self, m: &BgpEvent) -> (evs: Vec<Event<P>>)
        ensures
            evs@.len() == self.neighbor_order().len(),
            forall|i: int| 0 <= i < evs@.len() ==> is_bgp_msg(#[trigger] evs@[i], self.id_spec(), self.neighbor_order()[i], m@),
    {
        let mut evs: Vec<Event<P>> = Vec::new();
        let mut i: usize = 0;
        while i < self.neighbors.len()
            invariant
                i <= self.neighbors@.len(),
                evs@.len() == i,
                forall|j: int| 0 <= j < i ==> is_bgp_msg(#[trigger] evs@[j], self.id_spec(), self.neighbor_order()[j], m@),
            decreases self.neighbors@.len() - i,
        {
            evs.push(Event::Bgp(P::default(), self.router_id, self.neighbors[i], m.clone()));
            i = i + 1;
        }
        evs
    }

    /// Undo the last change (event, advertisement, withdrawal or session change) that has not been
    /// undone yet. Does nothing if there is none.
    pub fn undo_event(&mut self)
        ensures
            old(self).undo_frames().len() == 0 ==> final(self).state() == old(self).state()
                && final(self).undo_frames() == old(self).undo_frames(),
            old(self).undo_frames().len() > 0 ==> final(self).state() == undo_steps(old(self).state(), old(self).undo_frames().last())
                && final(self).undo_frames() == old(self).undo_frames().drop_last(),
            final(self).id_spec() == old(self).id_spec(),
            final(self).as_spec() == old(self).as_spec(),
            final(self).name_spec() == old(self).name_spec(),
    {
        proof {
            use_type_invariant(&*self);
        }
        if self.undo_stack.len() == 0 {
            return;
        }
        let mut stack: Vec<Vec<UndoAction>> = Vec::new();
        std::mem::swap(&mut stack, &mut self.undo_stack);
        let mut frame = stack.pop().unwrap();
        self.undo_stack = stack;
        proof {
            assert(self.undo_frames() =~= old(self).undo_frames().drop_last());
            assert(frame_view(frame@) == old(self).undo_frames().last());
        }
        let ghost acts = frame_view(frame@);
        let ghost start = self.state();
        let mut k: usize = 0;
        let total: usize = frame.len();
        while frame.len() > 0
            invariant
                acts.len() == total,
                k + frame@.len() == total,
                frame_view(frame@) == acts.skip(k as int),
                self.state() == undo_steps(start, acts.take(k as int)),
                self.undo_frames() == old(self).undo_frames().drop_last(),
                self.id_spec() == old(self).id_spec(),
                self.as_spec() == old(self).as_spec(),
                self.name_spec() == old(self).name_spec(),
            decreases frame@.len(),
        {
            let ghost fv = frame@;
            let a = frame.remove(0);
            proof {
                assert(acts.take(k + 1).drop_last() =~= acts.take(k as int));
                assert(frame_view(fv)[0] == fv[0]@);
                assert(acts.skip(k as int)[0] == acts[k as int]);
                assert(acts[k as int] == fv[0]@);
                assert(acts.take(k + 1).last() == a@);
                assert(frame_view(frame@) =~= acts.skip(k + 1)) by {
                    assert forall|j: int| 0 <= j < frame@.len() implies frame_view(frame@)[j] == acts.skip(k + 1)[j] by {
                        assert(frame@[j] == fv[j + 1]);
                        assert(acts.skip(k as int)[j + 1] == fv[j + 1]@);
                    }
                }
            }
            match a {
                UndoAction::AddBgpSession(r) => {
                    let _ = self.add_neighbor(r);
                },
                UndoAction::DelBgpSession(r) => {
                    let _ = self.remove_neighbor(r);
                },
                UndoAction::AdvertiseRoute(_, Some(route)) => {
                    let _ = self.put_route(route);
                },
                UndoAction::AdvertiseRoute(prefix, None) => {
                    let _ = self.take_route(prefix);
                },
            }
            k = k + 1;
        }
        proof {
            assert(acts.take(total as int) =~= acts);
        }
    }
}

/// Two route states are equal; sessions are compared as sets.
proof fn lemma_state_eq(a: ExtState, b: ExtState)
    requires
        a.neighbors =~= b.neighbors,
        a.routes =~= b.routes,
    ensures
        a == b,
{
}

impl ExternalRouter {
    /// Handle an event. An external router ignores the messages it receives: the forwarding state
    /// does not change and no message is sent.
    pub fn handle_event<P>(&mut self, event: Event<P>) -> (r: Result<(StepUpdate, Vec<Event<P>>), DeviceError>)
        ensures
            r matches Ok((u, evs)) && u is Unchanged && evs@.len() == 0,
            final(self).state() == old(self).state(),
            final(self).undo_frames() == old(self).undo_frames().push(Seq::empty()),
            undoes_to(final(self).state(), final(self).undo_frames(), old(self).state()),
            final(self).id_spec() == old(self).id_spec(),
    {
        self.push_frame(Vec::new());
        assert(frame_view(Seq::<UndoAction>::empty()) =~= Seq::<UndoView>::empty());
        match event.prefix() {
            Some(prefix) => Ok((StepUpdate::new(prefix, Vec::new(), Vec::new()), Vec::new())),
            None => Ok((StepUpdate::Unchanged, Vec::new())),
        }
    }

    /// Advertise a route for `prefix` with the given AS path, MED and community; the next hop is
    /// this router. If the route differs from the one advertised before, every neighbor gets an
    /// update. Returns the route and the messages.
    pub fn advertise_prefix<P: Default>(&mut self, prefix: Prefix, as_path: Vec<AsId>, med: Option<u32>,
        community: Option<u32>) -> (r: (BgpRoute, Vec<Event<P>>))
        ensures
            old(self).orders_match(),
            r.0@ == ext_route(prefix, as_path@, old(self).id_spec(), med, community),
            final(self).state().routes == old(self).state().routes.insert(prefix, r.0@),
            final(self).state().neighbors == old(self).state().neighbors,
            (old(self).state().routes.contains_key(prefix) && old(self).state().routes[prefix] == r.0@)
                ==> r.1@.len() == 0,
            !(old(self).state().routes.contains_key(prefix) && old(self).state().routes[prefix] == r.0@)
                ==> r.1@.len() == old(self).neighbor_order().len()
                && forall|i: int| 0 <= i < r.1@.len() ==> is_bgp_msg(#[trigger] r.1@[i], old(self).id_spec(),
                    old(self).neighbor_order()[i], BgpEventView::Update(r.0@)),
            final(self).undo_frames().drop_last() == old(self).undo_frames(),
            undoes_to(final(self).state(), final(self).undo_frames(), old(self).state()),
            final(self).id_spec() == old(self).id_spec(),
    {
        proof {
            use_type_invariant(&*self);
            self.lemma_orders_match();
        }
        let route = BgpRoute { prefix, as_path, next_hop: self.router_id, local_pref: None, med, community };
        let ghost before = self.state();
        let copy = route.clone();
        let old_route = self.put_route(copy);
        let same = match &old_route {
            Some(o) => o.same_as(&route),
            None => false,
        };
        if same {
            self.push_frame(Vec::new());
            proof {
                assert(frame_view(Seq::<UndoAction>::empty()) =~= Seq::<UndoView>::empty());
                assert(self.undo_frames().drop_last() =~= old(self).undo_frames());
                lemma_state_eq(self.state(), before);
            }
            (route, Vec::new())
        } else {
            let m = BgpEvent::Update(route.clone());
            let evs = self.to_all_neighbors(&m);
            let ghost old_view = match &old_route {
                Some(o) => Some(o@),
                None => None::<BgpRouteView>,
            };
            let mut frame: Vec<UndoAction> = Vec::new();
            frame.push(UndoAction::AdvertiseRoute(prefix, old_route));
            let ghost after = self.state();
            self.push_frame(frame);
            proof {
                assert(self.undo_frames().drop_last() =~= old(self).undo_frames());
                let f = self.undo_frames().last();
                assert(f.drop_last() =~= Seq::<UndoView>::empty());
                assert(undo_steps(after, f.drop_last()) == after);
                assert(f.len() == 1);
                match old_view {
                    Some(ov) => {
                        assert(after.routes.insert(ov.prefix, ov) =~= before.routes);
                    },
                    None => {
                        assert(after.routes.remove(prefix) =~= before.routes);
                    },
                }
                lemma_state_eq(undo_steps(after, f), before);
            }
            (route, evs)
        }
    }

    /// Stop advertising the route for `prefix`. If there was one, every neighbor gets a withdraw.
    pub fn widthdraw_prefix<P: Default>(&mut self, prefix: Prefix) -> (evs: Vec<Event<P>>)
        ensures
            old(self).orders_match(),
            final(self).state().routes == old(self).state().routes.remove(prefix),
            final(self).state().neighbors == old(self).state().neighbors,
            !old(self).state().routes.contains_key(prefix) ==> evs@.len() == 0,
            old(self).state().routes.contains_key(prefix) ==> evs@.len() == old(self).neighbor_order().len()
                && forall|i: int| 0 <= i < evs@.len() ==> is_bgp_msg(#[trigger] evs@[i], old(self).id_spec(),
                    old(self).neighbor_order()[i], BgpEventView::Withdraw(prefix)),
            final(self).undo_frames().drop_last() == old(self).undo_frames(),
            undoes_to(final(self).state(), final(self).undo_frames(), old(self).state()),
            final(self).id_spec() == old(self).id_spec(),
    {
        proof {
            use_type_invariant(&*self);
            self.lemma_orders_match();
        }
        let ghost before = self.state();
        match self.take_route(prefix) {
            Some(o) => {
                let evs = self.to_all_neighbors(&BgpEvent::Withdraw(prefix));
                let ghost after = self.state();
                let ghost ov = o@;
                let mut frame: Vec<UndoAction> = Vec::new();
                frame.push(UndoAction::AdvertiseRoute(prefix, Some(o)));
                self.push_frame(frame);
                proof {
                    assert(self.undo_frames().drop_last() =~= old(self).undo_frames());
                    let f = self.undo_frames().last();
                    assert(f.drop_last() =~= Seq::<UndoView>::empty());
                    assert(undo_steps(after, f.drop_last()) == after);
                    assert(f.len() == 1);
                assert(undo_steps(after, f.drop_last()) == after);
                assert(f.len() == 1);
                    assert(after.routes.insert(ov.prefix, ov) =~= before.routes);
                    lemma_state_eq(undo_steps(after, f), before);
                }
                evs
            },
            None => {
                self.push_frame(Vec::new());
                proof {
                    assert(frame_view(Seq::<UndoAction>::empty()) =~= Seq::<UndoView>::empty());
                    assert(self.undo_frames().drop_last() =~= old(self).undo_frames());
                    lemma_state_eq(self.state(), before);
                }
                Vec::new()
            },
        }
    }

    /// Open an eBGP session with `router`. If it is new, the router gets an update for every
    /// advertised route.
    pub fn establish_ebgp_session<P: Default>(&mut self, router: RouterId) -> (r: Result<Vec<Event<P>>, DeviceError>)
        ensures
            old(self).orders_match(),
            r is Ok,
            final(self).state().neighbors == old(self).state().neighbors.insert(router),
            final(self).state().routes == old(self).state().routes,
            old(self).state().neighbors.contains(router) ==> r->Ok_0@.len() == 0,
            !old(self).state().neighbors.contains(router) ==> r->Ok_0@.len() == old(self).route_order().len()
                && forall|i: int| 0 <= i < r->Ok_0@.len() ==> is_bgp_msg(#[trigger] r->Ok_0@[i], old(self).id_spec(),
                    router, BgpEventView::Update(old(self).route_order()[i])),
            final(self).undo_frames().drop_last() == old(self).undo_frames(),
            undoes_to(final(self).state(), final(self).undo_frames(), old(self).state()),
            final(self).id_spec() == old(self).id_spec(),
    {
        proof {
            use_type_invariant(&*self);
            self.lemma_orders_match();
        }
        let ghost before = self.state();
        if self.add_neighbor(router) {
            let ghost after = self.state();
            let mut frame: Vec<UndoAction> = Vec::new();
            frame.push(UndoAction::DelBgpSession(router));
            self.push_frame(frame);
            proof {
                assert(self.undo_frames().drop_last() =~= old(self).undo_frames());
                let f = self.undo_frames().last();
                assert(f.drop_last() =~= Seq::<UndoView>::empty());
                assert(undo_steps(after, f.drop_last()) == after);
                assert(f.len() == 1);
                assert(after.neighbors.remove(router) =~= before.neighbors);
                lemma_state_eq(undo_steps(after, f), before);
            }
            let mut evs: Vec<Event<P>> = Vec::new();
            let mut i: usize = 0;
            while i < self.active_routes.len()
                invariant
                    i <= self.active_routes@.len(),
                    self.route_order() == old(self).route_order(),
                    self.id_spec() == old(self).id_spec(),
                    evs@.len() == i,
                    forall|j: int| 0 <= j < i ==> is_bgp_msg(#[trigger] evs@[j], old(self).id_spec(), router,
                        BgpEventView::Update(old(self).route_order()[j])),
                decreases self.active_routes@.len() - i,
            {
                evs.push(Event::Bgp(P::default(), self.router_id, router, BgpEvent::Update(self.active_routes[i].clone())));
                i = i + 1;
            }
            Ok(evs)
        } else {
            self.push_frame(Vec::new());
            proof {
                assert(frame_view(Seq::<UndoAction>::empty()) =~= Seq::<UndoView>::empty());
                assert(self.undo_frames().drop_last() =~= old(self).undo_frames());
                lemma_state_eq(self.state(), before);
            }
            Ok(Vec::new())
        }
    }

    /// Close the eBGP session with `router`, if there is one.
    pub fn close_ebgp_session(&mut self, router: RouterId) -> (r: Result<(), DeviceError>)
        ensures
            r is Ok,
            final(self).state().neighbors == old(self).state().neighbors.remove(router),
            final(self).state().routes == old(self).state().routes,
            final(self).undo_frames().drop_last() == old(self).undo_frames(),
            undoes_to(final(self).state(), final(self).undo_frames(), old(self).state()),
            final(self).id_spec() == old(self).id_spec(),
    {
        let ghost before = self.state();
        if self.remove_neighbor(router) {
            let ghost after = self.state();
            let mut frame: Vec<UndoAction> = Vec::new();
            frame.push(UndoAction::AddBgpSession(router));
            self.push_frame(frame);
            proof {
                assert(self.undo_frames().drop_last() =~= old(self).undo_frames());
                let f = self.undo_frames().last();
                assert(f.drop_last() =~= Seq::<UndoView>::empty());
                assert(undo_steps(after, f.drop_last()) == after);
                assert(f.len() == 1);
                assert(after.neighbors.insert(router) =~= before.neighbors);
                lemma_state_eq(undo_steps(after, f), before);
            }
        } else {
            self.push_frame(Vec::new());
            proof {
                assert(frame_view(Seq::<UndoAction>::empty()) =~= Seq::<UndoView>::empty());
                assert(self.undo_frames().drop_last() =~= old(self).undo_frames());
                lemma_state_eq(self.state(), before);
            }
        }
        Ok(())
    }

    /// The prefixes with an advertised route, each once.
    pub fn advertised_prefixes(&self) -> (r: Vec<Prefix>)
        ensures
            r@.no_duplicates(),
            r@.to_set() == self.state().routes.dom(),
    {
        proof {
            use_type_invariant(self);
        }
        let ghost s = route_entries(self.active_routes@);
        let mut r: Vec<Prefix> = Vec::new();
        let mut i: usize = 0;
        while i < self.active_routes.len()
            invariant
                i <= self.active_routes@.len(),
                s == route_entries(self.active_routes@),
                keys_distinct(s),
                r@.len() == i,
                forall|j: int| 0 <= j < i ==> #[trigger] r@[j] == s[j].0,
            decreases self.active_routes@.len() - i,
        {
            proof {
                assert(s[i as int].0 == self.active_routes@[i as int].prefix);
            }
            r.push(self.active_routes[i].prefix);
            i = i + 1;
        }
        proof {
            assert forall|a: int, b: int| 0 <= a < r@.len() && 0 <= b < r@.len() && a != b implies r@[a] != r@[b] by {
                assert(r@[a] == s[a].0 && r@[b] == s[b].0);
            }
            assert forall|p: Prefix| #[trigger] r@.to_set().contains(p) == assoc_map(s).dom().contains(p) by {
                if r@.contains(p) {
                    let j = choose|j: int| 0 <= j < r@.len() && r@[j] == p;
                    lemma_assoc_index(s, j);
                }
                if assoc_map(s).contains_key(p) {
                    let j = lemma_assoc_key(s, p);
                    assert(r@[j] == p);
                }
            }
            assert(r@.to_set() =~= assoc_map(s).dom());
        }
        r
    }

    /// Whether a route for `prefix` is advertised.
    pub fn has_active_route(&self, prefix: Prefix) -> (b: bool)
        ensures
            b == self.state().routes.contains_key(prefix),
    {
        self.find_route(prefix).is_some()
    }

    /// The advertised routes, each stored under its prefix.
    pub fn get_advertised_routes(&self) -> (r: &[BgpRoute])
        ensures
            keys_distinct(route_entries(r@)),
            assoc_map(route_entries(r@)) == self.state().routes,
    {
        proof {
            use_type_invariant(self);
        }
        self.active_routes.as_slice()
    }

    /// Whether both routers advertise the same routes.
    pub fn advertises_same_routes(&self, other: &ExternalRouter) -> (b: bool)
        ensures
            b == (self.state().routes == other.state().routes),
    {
        proof {
            use_type_invariant(self);
            use_type_invariant(other);
        }
        let ghost a = self.state().routes;
        let ghost o = other.state().routes;
        let ghost sa = route_entries(self.active_routes@);
        let ghost so = route_entries(other.active_routes@);
        let mut i: usize = 0;
        while i < self.active_routes.len()
            invariant
                i <= self.active_routes@.len(),
                sa == route_entries(self.active_routes@),
                a == self.state().routes, o == other.state().routes,
                a == assoc_map(sa),
                keys_distinct(sa),
                forall|j: int| 0 <= j < i ==> o.contains_key((#[trigger] sa[j]).0) && o[sa[j].0] == sa[j].1,
            decreases self.active_routes@.len() - i,
        {
            let rt = &self.active_routes[i];
            proof {
                assert(sa[i as int] == (rt.prefix, rt@));
                lemma_assoc_index(sa, i as int);
            }
            match other.find_route(rt.prefix) {
                Some(j) => {
                    if !other.active_routes[j].same_as(rt) {
                        return false;
                    }
                },
                None => {
                    return false;
                },
            }
            i = i + 1;
        }
        let mut j: usize = 0;
        while j < other.active_routes.len()
            invariant
                j <= other.active_routes@.len(),
                so == route_entries(other.active_routes@),
                a == self.state().routes, o == other.state().routes,
                forall|k: int| 0 <= k < j ==> a.contains_key((#[trigger] so[k]).0),
            decreases other.active_routes@.len() - j,
        {
            proof {
                assert(so[j as int].0 == other.active_routes@[j as int].prefix);
            }
            if self.find_route(other.active_routes[j].prefix).is_none() {
                return false;
            }
            j = j + 1;
        }
        proof {
            assert forall|p: Prefix| #[trigger] a.contains_key(p) == o.contains_key(p) by {
                if a.contains_key(p) {
                    let k = lemma_assoc_key(sa, p);
                    assert(o.contains_key(sa[k].0));
                }
                if o.contains_key(p) {
                    let k = choose|k: int| 0 <= k < so.len() && so[k].0 == p;
                    assert(a.contains_key(so[k].0));
                }
            }
            assert forall|p: Prefix| #[trigger] a.contains_key(p) implies a[p] == o[p] by {
                let k = lemma_assoc_key(sa, p);
                assert(o.contains_key(sa[k].0) && o[sa[k].0] == sa[k].1);
            }
            assert(a =~= o);
        }
        true
    }
}

} // verus!
