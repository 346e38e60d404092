//! BGP routes and the messages that carry them.

use vstd::prelude::*;
use vstd::std_specs::cmp::PartialEqSpecImpl;

use crate::types::{AsId, Prefix, RouterId};

verus! {

/// A BGP route.
#[derive(Debug)]
pub struct BgpRoute {
    /// The prefix of the route.
    pub prefix: Prefix,
    /// The AS path, starting with the AS that sent the route.
    pub as_path: Vec<AsId>,
    /// The next hop.
    pub next_hop: RouterId,
    /// The local preference (`None` for the default).
    pub local_pref: Option<u32>,
    /// The MED (`None` for the default).
    pub med: Option<u32>,
    /// The community, if any.
    pub community: Option<u32>,
}

/// The abstract value of a BGP route.
pub struct BgpRouteView {
    /// The prefix.
    pub prefix: Prefix,
    /// The AS path.
    pub as_path: Seq<AsId>,
    /// The next hop.
    pub next_hop: RouterId,
    /// The local preference.
    pub local_pref: Option<u32>,
    /// The MED.
    pub med: Option<u32>,
    /// The community.
    pub community: Option<u32>,
}

impl View for BgpRoute {
    type V = BgpRouteView;

    open spec fn view(&self) -> BgpRouteView {
        BgpRouteView {
            prefix: self.prefix,
            as_path: self.as_path@,
            next_hop: self.next_hop,
            local_pref: self.local_pref,
            med: self.med,
            community: self.community,
        }
    }
}

/// Copy an AS path.
fn copy_path(v: &Vec<AsId>) -> (r: Vec<AsId>)
    ensures
        r@ == v@,
{
    let mut r: Vec<AsId> = Vec::new();
    let mut i: usize = 0;
    while i < v.len()
        invariant
            i <= v@.len(),
            r@ == v@.take(i as int),
        decreases v@.len() - i,
    {
        r.push(v[i]);
        i = i + 1;
        assert(r@ =~= v@.take(i as int));
    }
    assert(v@.take(v@.len() as int) =~= v@);
    r
}

/// Whether two options hold the same number.
fn same_option(a: Option<u32>, b: Option<u32>) -> (r: bool)
    ensures
        r == (a == b),
{
    match (a, b) {
        (Some(x), Some(y)) => x == y,
        (None, None) => true,
        _ => false,
    }
}

impl BgpRoute {
    /// Whether the route has the same abstract value as `other`.
    pub fn same_as(&self, other: &BgpRoute) -> (r: bool)
        ensures
            r == (self@ == other@),
    {
        if self.prefix.0 != other.prefix.0 || self.next_hop.0 != other.next_hop.0
            || !same_option(self.local_pref, other.local_pref) || !same_option(self.med, other.med)
            || !same_option(self.community, other.community) || self.as_path.len() != other.as_path.len() {
            return false;
        }
        let mut i: usize = 0;
        while i < self.as_path.len()
            invariant
                i <= self.as_path@.len(),
                self.as_path@.len() == other.as_path@.len(),
                forall|j: int| 0 <= j < i ==> self.as_path@[j] == other.as_path@[j],
            decreases self.as_path@.len() - i,
        {
            if self.as_path[i].0 != other.as_path[i].0 {
                assert(self@.as_path[i as int] != other@.as_path[i as int]);
                return false;
            }
            i = i + 1;
        }
        assert(self@.as_path =~= other@.as_path);
        true
    }
}

impl Clone for BgpRoute {
    fn clone(&self) -> (r: Self)
        ensures
            r@ == self@,
    {
        BgpRoute {
            prefix: self.prefix,
            as_path: copy_path(&self.as_path),
            next_hop: self.next_hop,
            local_pref: self.local_pref,
            med: self.med,
            community: self.community,
        }
    }
}

impl PartialEq for BgpRoute {
    fn eq(&self, other: &Self) -> (r: bool) {
        self.same_as(other)
    }
}

impl PartialEqSpecImpl for BgpRoute {
    open spec fn obeys_eq_spec() -> bool {
        true
    }

    open spec fn eq_spec(&self, other: &Self) -> bool {
        self@ == other@
    }
}

/// A BGP message.
#[derive(Debug)]
pub enum BgpEvent {
    /// Withdraw the route for the prefix.
    Withdraw(Prefix),
    /// Announce a route.
    Update(BgpRoute),
}

/// The abstract value of a BGP message.
pub enum BgpEventView {
    /// Withdraw the route for the prefix.
    Withdraw(Prefix),
    /// Announce a route.
    Update(BgpRouteView),
}

impl View for BgpEvent {
    type V = BgpEventView;

    open spec fn view(&self) -> BgpEventView {
        match self {
            BgpEvent::Withdraw(p) => BgpEventView::Withdraw(*p),
            BgpEvent::Update(r) => BgpEventView::Update(r@),
        }
    }
}

impl BgpEvent {
    /// The prefix that the message is about.
    pub fn prefix(&self) -> (p: Prefix)
        ensures
            p == match self@ {
                BgpEventView::Withdraw(p) => p,
                BgpEventView::Update(r) => r.prefix,
            },
    {
        match self {
            BgpEvent::Withdraw(p) => *p,
            BgpEvent::Update(r) => r.prefix,
        }
    }
}

impl Clone for BgpEvent {
    fn clone(&self) -> (r: Self)
        ensures
            r@ == self@,
    {
        match self {
            BgpEvent::Withdraw(p) => BgpEvent::Withdraw(*p),
            BgpEvent::Update(r) => BgpEvent::Update(r.clone()),
        }
    }
}

impl PartialEq for BgpEvent {
    fn eq(&self, other: &Self) -> (r: bool) {
        match (self, other) {
            (BgpEvent::Withdraw(a), BgpEvent::Withdraw(b)) => a.0 == b.0,
            (BgpEvent::Update(a), BgpEvent::Update(b)) => a.same_as(b),
            _ => false,
        }
    }
}

impl PartialEqSpecImpl for BgpEvent {
    open spec fn obeys_eq_spec() -> bool {
        true
    }

    open spec fn eq_spec(&self, other: &Self) -> bool {
        self@ == other@
    }
}

} // verus!
