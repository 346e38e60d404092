//! Export of the simulated network into configurations of real routers.

use vstd::prelude::*;

use crate::types::{Prefix, RouterId};

pub mod cisco;
pub mod cisco_config;
pub mod common;
pub mod exabgp;
pub mod loopbacks;

verus! {

/// The AS number of the internal network.
pub const INTERNAL_AS: u32 = 65535;

/// Error thrown by the exporter.
#[derive(Debug, PartialEq, Eq)]
pub enum ExportError {
    /// The netmask is invalid.
    InvalidNetmask,
    /// Prefix assignment error: ran out of addresses.
    NotEnoughAddresses,
    /// Router has not enough interfaces for the required connections.
    NotEnoughInterfaces(RouterId),
    /// Router has not enough loopback interfaces for the required connections.
    NotEnoughLoopbacks(RouterId),
    /// Internal configuration error.
    InternalCfgGenError(RouterId, String),
    /// External configuration error.
    ExternalCfgGenError(RouterId, String),
    /// The two routers are not connected.
    RouterNotConnectedTo(RouterId, RouterId),
    /// Router is not an internal router.
    NotAnInternalRouter(RouterId),
    /// Router is not an external router.
    NotAnExternalRouter(RouterId),
    /// Cannot withdraw a route that is not yet advertised.
    WithdrawUnadvertisedRoute,
    /// Config modifier does not cause any change in the given router.
    ModifierDoesNotAffectRouter,
    /// The given IP address (address, prefix length) could not be associated with any router.
    AddressNotFound(u32, u8),
    /// The interface was not found.
    InterfaceNotFound(RouterId, String),
    /// The two routers are not connected via an interface.
    RoutersNotConnected(RouterId, RouterId),
}

/// Return `ExportError::NotEnoughAddresses` if the option is `None`.
pub fn ip_err<T>(option: Option<T>) -> (r: Result<T, ExportError>)
    ensures
        option matches Some(x) ==> r == Ok::<T, ExportError>(x),
        option is None ==> r == Err::<T, ExportError>(ExportError::NotEnoughAddresses),
{
    match option {
        Some(x) => Ok(x),
        None => Err(ExportError::NotEnoughAddresses),
    }
}

/// Two to the power of `n`.
pub open spec fn pow2(n: nat) -> nat
    decreases n,
{
    if n == 0 { 1 } else { 2 * pow2((n - 1) as nat) }
}

/// `pow2(a) * pow2(b) == pow2(a + b)`.
pub proof fn lemma_pow2_add(a: nat, b: nat)
    ensures
        pow2(a) * pow2(b) == pow2(a + b),
        pow2(a) >= 1,
    decreases a,
{
    if a > 0 {
        lemma_pow2_add((a - 1) as nat, b);
        assert(pow2(a) * pow2(b) == 2 * (pow2((a - 1) as nat) * pow2(b))) by (nonlinear_arith)
            requires pow2(a) == 2 * pow2((a - 1) as nat);
        assert((a - 1) as nat + b == (a + b - 1) as nat);
        assert(pow2(a + b) == 2 * pow2((a + b - 1) as nat));
        assert(pow2(a) * pow2(b) == pow2(a + b));
    } else {
        assert(pow2(0) == 1);
        assert(a + b == b);
        assert(1 * pow2(b) == pow2(b));
    }
}

/// `pow2(32)` is the number of IPv4 addresses.
pub proof fn lemma_pow2_32()
    ensures
        pow2(32) == 0x1_0000_0000,
{
    reveal_with_fuel(pow2, 33);
}

/// Compute `pow2(n)` for `n <= 32`.
fn pow2_exec(n: u8) -> (r: u64)
    requires
        n <= 32,
    ensures
        r == pow2(n as nat),
        r <= 0x1_0000_0000,
{
    let mut r: u64 = 1;
    let mut i: u8 = 0;
    while i < n
        invariant
            i <= n <= 32,
            r == pow2(i as nat),
            r <= 0x1_0000_0000,
        decreases n - i,
    {
        proof {
            lemma_pow2_add((i + 1) as nat, (31 - i) as nat);
            lemma_pow2_add((31 - i) as nat, 0);
            lemma_pow2_32();
            assert(pow2((i + 1) as nat) * pow2((31 - i) as nat) >= pow2((i + 1) as nat)) by (nonlinear_arith)
                requires pow2((31 - i) as nat) >= 1;
        }
        r = r * 2;
        i = i + 1;
    }
    r
}

/// Assigns each external prefix a network of fixed length inside a base network. Prefixes get
/// consecutive networks in the order in which they are first requested.
#[derive(Debug)]
pub struct PrefixAddressor {
    base: u32,
    prefix_len: u8,
    block: u64,
    capacity: u64,
    assigned: Vec<Prefix>,
}

impl PrefixAddressor {
    #[verifier::type_invariant]
    spec fn inv(&self) -> bool {
        &&& self.prefix_len <= 32
        &&& self.block == pow2((32 - self.prefix_len) as nat)
        &&& self.base + self.capacity * self.block <= 0x1_0000_0000
        &&& self.assigned@.len() <= self.capacity
        &&& self.assigned@.no_duplicates()
    }

    /// The prefixes that got a network so far, in the order of assignment.
    pub closed spec fn assigned(&self) -> Seq<Prefix> {
        self.assigned@
    }

    /// First address of the base network.
    pub closed spec fn base(&self) -> u32 {
        self.base
    }

    /// Length of each assigned network.
    pub closed spec fn prefix_len(&self) -> u8 {
        self.prefix_len
    }

    /// Number of addresses in each assigned network.
    pub closed spec fn block(&self) -> nat {
        self.block as nat
    }

    /// Number of networks that can be assigned.
    pub closed spec fn capacity(&self) -> nat {
        self.capacity as nat
    }

    /// Create an addressor that carves networks of length `prefix_len` out of the network
    /// `base/base_len`. Fails with `InvalidNetmask` if `base_len > prefix_len`, if
    /// `prefix_len > 32`, or if the base network would reach past the last IPv4 address.
    pub fn new(base: u32, base_len: u8, prefix_len: u8) -> (r: Result<PrefixAddressor, ExportError>)
        ensures
            r is Ok <==> (base_len <= prefix_len <= 32 && base + pow2((32 - base_len) as nat) <= 0x1_0000_0000),
            r matches Ok(a) ==> {
                &&& a.base() == base
                &&& a.prefix_len() == prefix_len
                &&& a.block() == pow2((32 - prefix_len) as nat)
                &&& a.capacity() == pow2((prefix_len - base_len) as nat)
                &&& a.assigned() == Seq::<Prefix>::empty()
            },
            r matches Err(e) ==> e == ExportError::InvalidNetmask,
    {
        if prefix_len > 32 || base_len > prefix_len {
            return Err(ExportError::InvalidNetmask);
        }
        let total = pow2_exec(32 - base_len);
        proof { lemma_pow2_add((prefix_len - base_len) as nat, (32 - prefix_len) as nat); }
        assert(((prefix_len - base_len) as nat + (32 - prefix_len) as nat) == (32 - base_len) as nat);
        if base as u64 + total > 0x1_0000_0000 {
            return Err(ExportError::InvalidNetmask);
        }
        let block = pow2_exec(32 - prefix_len);
        let capacity = pow2_exec(prefix_len - base_len);
        Ok(PrefixAddressor { base, prefix_len, block, capacity, assigned: Vec::new() })
    }

    /// Length of each assigned network.
    pub fn prefix_len_exec(&self) -> (r: u8)
        ensures
            r == self.prefix_len(),
    {
        self.prefix_len
    }

    /// The assigned prefixes are distinct and within the capacity.
    pub fn assigned_fits(&self)
        ensures
            self.assigned().no_duplicates(),
            self.assigned().len() <= self.capacity(),
    {
        proof { use_type_invariant(self); }
    }

    /// First address of the network assigned at position `i`.
    pub open spec fn net_addr(&self, i: int) -> int {
        self.base() + i * self.block()
    }

    /// The network of a prefix, assigning the next free one if the prefix has none yet. Fails with
    /// `NotEnoughAddresses` if all networks are taken.
    pub fn prefix(&mut self, p: Prefix) -> (r: Result<(u32, u8), ExportError>)
        ensures
            final(self).base() == old(self).base(),
            final(self).prefix_len() == old(self).prefix_len(),
            final(self).block() == old(self).block(),
            final(self).capacity() == old(self).capacity(),
            old(self).assigned().contains(p) ==> final(self).assigned() == old(self).assigned(),
            !old(self).assigned().contains(p) && old(self).assigned().len() < old(self).capacity()
                ==> final(self).assigned() == old(self).assigned().push(p),
            !old(self).assigned().contains(p) && old(self).assigned().len() >= old(self).capacity()
                ==> final(self).assigned() == old(self).assigned() && r == Err::<(u32, u8), ExportError>(ExportError::NotEnoughAddresses),
            r is Ok <==> final(self).assigned().contains(p),
            final(self).assigned().no_duplicates(),
            final(self).assigned().len() <= final(self).capacity(),
            r matches Ok(n) ==> n.1 == final(self).prefix_len()
                && n.0 == final(self).net_addr(final(self).assigned().index_of(p)),
            assigns(*old(self), *final(self), p),
            r matches Ok(n) ==> n.0 == network_of(*final(self), p),
            r matches Err(e) ==> e == ExportError::NotEnoughAddresses,
    {
        proof { use_type_invariant(&*self); }
        let mut i: usize = 0;
        while i < self.assigned.len()
            invariant
                i <= self.assigned@.len(),
                forall|j: int| 0 <= j < i ==> self.assigned@[j] != p,
            ensures
                i <= self.assigned@.len(),
                forall|j: int| 0 <= j < i ==> self.assigned@[j] != p,
                i < self.assigned@.len() ==> self.assigned@[i as int] == p,
            decreases self.assigned@.len() - i,
        {
            if self.assigned[i] == p {
                break;
            }
            i = i + 1;
        }
        if i == self.assigned.len() {
            if self.assigned.len() as u64 >= self.capacity {
                proof { use_type_invariant(&*self); }
                return Err(ExportError::NotEnoughAddresses);
            }
            let mut assigned = Vec::new();
            std::mem::swap(&mut assigned, &mut self.assigned);
            assigned.push(p);
            assert(assigned@.no_duplicates()) by {
                assert forall|a: int, b: int| 0 <= a < b < assigned@.len() implies assigned@[a] != assigned@[b] by {}
            }
            self.assigned = assigned;
        }
        proof {
            use_type_invariant(&*self);
            assert(self.assigned@[i as int] == p);
            assert(self.assigned@.index_of(p) == i) by {
                assert(self.assigned@.contains(p));
            }
            assert(i * self.block <= (self.capacity - 1) * self.block) by (nonlinear_arith)
                requires i <= self.capacity - 1;
            assert((self.capacity - 1) * self.block + self.block == self.capacity * self.block) by (nonlinear_arith);
            lemma_pow2_add((32 - self.prefix_len) as nat, 0);
            assert(self.base + i * self.block < 0x1_0000_0000);
        }
        let addr = (self.base as u64 + i as u64 * self.block) as u32;
        proof { use_type_invariant(&*self); }
        Ok((addr, self.prefix_len))
    }
}

/// `new` is the addressor `old` after a request for the network of `p`: `p` keeps its network,
/// or gets the next one if there is one left.
pub open spec fn assigns(old: PrefixAddressor, new: PrefixAddressor, p: Prefix) -> bool {
    &&& new.base() == old.base()
    &&& new.prefix_len() == old.prefix_len()
    &&& new.block() == old.block()
    &&& new.capacity() == old.capacity()
    &&& old.assigned().contains(p) ==> new.assigned() == old.assigned()
    &&& !old.assigned().contains(p) && old.assigned().len() < old.capacity() ==> new.assigned() == old.assigned().push(p)
    &&& !old.assigned().contains(p) && old.assigned().len() >= old.capacity() ==> new.assigned() == old.assigned()
}

/// The first address of the network of `p`.
pub open spec fn network_of(a: PrefixAddressor, p: Prefix) -> u32 {
    a.net_addr(a.assigned().index_of(p)) as u32
}

/// An undirected link, named by its two routers with the smaller id first.
#[derive(Debug, Clone, Copy, PartialEq, Eq, Structural, Hash)]
pub struct LinkId(pub RouterId, pub RouterId);

impl LinkId {
    /// The link between `a` and `b`, in either order.
    pub fn new(a: RouterId, b: RouterId) -> (l: LinkId)
        ensures
            l == (if a.0 < b.0 { LinkId(a, b) } else { LinkId(b, a) }),
    {
        if a.0 < b.0 {
            LinkId(a, b)
        } else {
            LinkId(b, a)
        }
    }
}

/// A prefix keeps its network: asking again for the network of a prefix that has one changes
/// nothing and gives the same network.
pub proof fn law_prefix_network_stable(a: PrefixAddressor, b: PrefixAddressor, p: Prefix)
    requires
        a.assigned().contains(p),
        assigns(a, b, p),
    ensures
        b.assigned() == a.assigned(),
        network_of(b, p) == network_of(a, p),
{
}

} // verus!
