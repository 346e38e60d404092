//! Basic identifiers used throughout the simulator.

use vstd::prelude::*;

verus! {

/// Identifier of a router (internal or external) in the network.
#[derive(Clone, Copy, PartialEq, Eq, Structural, Debug, Hash)]
pub struct RouterId(pub u32);

impl RouterId {
    /// Return the index of the router.
    pub fn index(&self) -> (r: usize)
        ensures r == self.0,
    {
        self.0 as usize
    }
}

} // verus!

verus! {

/// Number of an autonomous system.
#[derive(Clone, Copy, PartialEq, Eq, Structural, Debug, Hash)]
pub struct AsId(pub u32);

/// An IP prefix, identified by a number. Prefixes never overlap.
#[derive(Clone, Copy, PartialEq, Eq, Structural, Debug, Hash)]
pub struct Prefix(pub u32);

impl Prefix {
    /// Create the prefix with the given number.
    pub fn from(x: u32) -> (p: Prefix)
        ensures
            p.0 == x,
    {
        Prefix(x)
    }
}

/// IGP link weight. The weight is carried as an integer: the simulator only stores, compares and
/// prints it.
pub type LinkWeight = u64;

/// Type of a BGP session, as seen from the source of the session.
#[derive(Clone, Copy, PartialEq, Eq, Structural, Debug, Hash)]
pub enum BgpSessionType {
    /// iBGP session between two peers.
    IBgpPeer,
    /// iBGP session, where the target is a route-reflector client of the source.
    IBgpClient,
    /// eBGP session.
    EBgp,
}

/// Number of the pseudo-router that stands for "deliver to the destination": a router whose only
/// next hop is this one is a terminal for the prefix.
pub const TO_DST_ID: u32 = 4294967295;

/// Errors of queries on the network state.
#[derive(Debug, PartialEq, Eq)]
pub enum NetworkError {
    /// The router does not exist.
    DeviceNotFound(RouterId),
    /// There is no link between the two routers.
    LinkNotFound(RouterId, RouterId),
    /// A forwarding loop: the path from the first router of the loop back to it.
    ForwardingLoop(Vec<RouterId>),
    /// A black hole: the router that drops the packets.
    ForwardingBlackHole(Vec<RouterId>),
}

/// A change of the next hops of a router for a prefix.
#[derive(Debug, PartialEq, Eq)]
pub struct FwDelta {
    /// The prefix whose next hops changed.
    pub prefix: Prefix,
    /// The old next hops.
    pub old: Vec<RouterId>,
    /// The new next hops.
    pub new: Vec<RouterId>,
}

impl FwDelta {
    /// The change from `old` to `new`, or `None` if they are equal.
    pub fn new(prefix: Prefix, old: Vec<RouterId>, new: Vec<RouterId>) -> (r: Option<FwDelta>)
        ensures
            old@ == new@ <==> r is None,
            r matches Some(d) ==> d.prefix == prefix && d.old@ == old@ && d.new@ == new@,
    {
        if same_routers(&old, &new) {
            None
        } else {
            Some(FwDelta { prefix, old, new })
        }
    }
}

/// Whether two lists of routers are equal.
pub fn same_routers(a: &Vec<RouterId>, b: &Vec<RouterId>) -> (r: bool)
    ensures
        r == (a@ == b@),
{
    if a.len() != b.len() {
        return false;
    }
    let mut i: usize = 0;
    while i < a.len()
        invariant
            i <= a@.len(),
            a@.len() == b@.len(),
            forall|j: int| 0 <= j < i ==> a@[j] == b@[j],
        decreases a@.len() - i,
    {
        if a[i].0 != b[i].0 {
            return false;
        }
        i = i + 1;
    }
    assert(a@ =~= b@);
    true
}

/// The change of the forwarding state caused by one step of the simulation.
#[derive(Debug, PartialEq, Eq)]
pub enum StepUpdate {
    /// Nothing changed.
    Unchanged,
    /// A single forwarding change due to a BGP update.
    Single(FwDelta),
    /// Multiple changes due to an IGP update.
    Multiple,
}

impl StepUpdate {
    /// The update that changes the next hops for `prefix` from `old` to `new`: `Unchanged` if they
    /// are equal.
    pub fn new(prefix: Prefix, old: Vec<RouterId>, new: Vec<RouterId>) -> (r: StepUpdate)
        ensures
            old@ == new@ <==> r is Unchanged,
            r matches StepUpdate::Single(d) ==> d.prefix == prefix && d.old@ == old@ && d.new@ == new@,
            !(r is Multiple),
    {
        match FwDelta::new(prefix, old, new) {
            Some(d) => StepUpdate::Single(d),
            None => StepUpdate::Unchanged,
        }
    }

    /// Whether something changed.
    pub fn changed(&self) -> (b: bool)
        ensures
            b == !(self is Unchanged),
    {
        !matches!(self, StepUpdate::Unchanged)
    }
}

impl Default for StepUpdate {
    fn default() -> (r: StepUpdate)
        ensures
            r is Unchanged,
    {
        StepUpdate::Unchanged
    }
}

/// Turn a missing value into the error that names what is missing.
pub trait NetworkErrorOption<T> {
    /// `None` becomes `DeviceNotFound(router)`.
    fn or_router_not_found(self, router: RouterId) -> Result<T, NetworkError>;

    /// `None` becomes `LinkNotFound(a, b)`.
    fn or_link_not_found(self, a: RouterId, b: RouterId) -> Result<T, NetworkError>;
}

impl<T> NetworkErrorOption<T> for Option<T> {
    fn or_router_not_found(self, router: RouterId) -> (r: Result<T, NetworkError>)
        ensures
            self matches Some(x) ==> r == Ok::<T, NetworkError>(x),
            self is None ==> r == Err::<T, NetworkError>(NetworkError::DeviceNotFound(router)),
    {
        match self {
            Some(x) => Ok(x),
            None => Err(NetworkError::DeviceNotFound(router)),
        }
    }

    fn or_link_not_found(self, a: RouterId, b: RouterId) -> (r: Result<T, NetworkError>)
        ensures
            self matches Some(x) ==> r == Ok::<T, NetworkError>(x),
            self is None ==> r == Err::<T, NetworkError>(NetworkError::LinkNotFound(a, b)),
    {
        match self {
            Some(x) => Ok(x),
            None => Err(NetworkError::LinkNotFound(a, b)),
        }
    }
}

} // verus!
