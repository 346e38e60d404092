//! Text for values that contain router ids, with each router shown by its name.

use vstd::prelude::*;

use crate::external_router::DeviceError;
use crate::text::{join, nat_str, push_u64};
use crate::types::{NetworkError, RouterId};

verus! {

/// The names of the routers: router `i` is called `names[i]`.
#[derive(Debug)]
pub struct NameTable {
    /// The names, by router index.
    pub names: Vec<String>,
}

/// The name shown for a router: its name, or `?` for an unknown router.
pub open spec fn name_of(names: Seq<String>, r: RouterId) -> Seq<char> {
    if (r.0 as int) < names.len() {
        names[r.0 as int]@
    } else {
        "?"@
    }
}

/// A forwarding path: the names joined by ` -> `.
pub open spec fn path_str(names: Seq<String>, p: Seq<RouterId>) -> Seq<char> {
    join(p.map_values(|r: RouterId| name_of(names, r)), " -> "@)
}

/// Several paths: each path joined by ` | `.
pub open spec fn paths_str(names: Seq<String>, ps: Seq<Seq<RouterId>>) -> Seq<char> {
    join(ps.map_values(|p: Seq<RouterId>| path_str(names, p)), " | "@)
}

/// Joining one more part appends the separator and the part.
proof fn lemma_join_push(parts: Seq<Seq<char>>, sep: Seq<char>, i: int)
    requires
        0 <= i < parts.len(),
    ensures
        join(parts.take(i + 1), sep) == if i == 0 { parts[0] } else { join(parts.take(i), sep) + sep + parts[i] },
{
    assert(parts.take(i + 1).drop_last() =~= parts.take(i));
    assert(parts.take(i + 1).last() == parts[i]);
    if i == 0 {
        assert(parts.take(1).len() == 1);
    }
}

/// Text for a value whose parts refer to routers by id.
pub trait NetworkFormatter {
    /// The value as text, with routers shown by their names.
    fn fmt(&self, names: &NameTable) -> String;
}

impl NameTable {
    /// The name shown for a router.
    pub fn name(&self, r: RouterId) -> (s: &str)
        ensures
            s@ == name_of(self.names@, r),
    {
        let i = r.0 as usize;
        if i < self.names.len() {
            self.names[i].as_str()
        } else {
            "?"
        }
    }

    /// Append the names of a path, joined by ` -> `.
    fn push_path(&self, s: &mut String, p: &[RouterId])
        ensures
            final(s)@ == old(s)@ + path_str(self.names@, p@),
    {
        let ghost parts = p@.map_values(|r: RouterId| name_of(self.names@, r));
        let ghost start = s@;
        let mut i: usize = 0;
        assert(parts.take(0) =~= Seq::<Seq<char>>::empty());
        while i < p.len()
            invariant
                i <= p@.len(),
                parts == p@.map_values(|r: RouterId| name_of(self.names@, r)),
                s@ == start + join(parts.take(i as int), " -> "@),
            decreases p@.len() - i,
        {
            proof {
                lemma_join_push(parts, " -> "@, i as int);
            }
            if i > 0 {
                s.append(" -> ");
            }
            s.append(self.name(p[i]));
            proof {
                assert(parts[i as int] == name_of(self.names@, p@[i as int]));
                if i == 0 {
                    assert(start + join(parts.take(0), " -> "@) =~= start);
                } else {
                }
            }
            i = i + 1;
        }
        assert(parts.take(p@.len() as int) =~= parts);
    }
}

impl NetworkFormatter for RouterId {
    fn fmt(&self, names: &NameTable) -> (r: String)
        ensures
            r@ == name_of(names.names@, *self),
    {
        let mut s = String::new();
        s.append(names.name(*self));
        s
    }
}

impl NetworkFormatter for Vec<RouterId> {
    fn fmt(&self, names: &NameTable) -> (r: String)
        ensures
            r@ == path_str(names.names@, self@),
    {
        let mut s = String::new();
        names.push_path(&mut s, self.as_slice());
        s
    }
}

impl NetworkFormatter for Vec<Vec<RouterId>> {
    fn fmt(&self, names: &NameTable) -> (r: String)
        ensures
            r@ == paths_str(names.names@, self@.map_values(|p: Vec<RouterId>| p@)),
    {
        let ghost ps = self@.map_values(|p: Vec<RouterId>| p@);
        let ghost parts = ps.map_values(|p: Seq<RouterId>| path_str(names.names@, p));
        let mut s = String::new();
        let mut i: usize = 0;
        assert(parts.take(0) =~= Seq::<Seq<char>>::empty());
        while i < self.len()
            invariant
                i <= self@.len(),
                ps == self@.map_values(|p: Vec<RouterId>| p@),
                parts == ps.map_values(|p: Seq<RouterId>| path_str(names.names@, p)),
                s@ == join(parts.take(i as int), " | "@),
            decreases self@.len() - i,
        {
            proof {
                lemma_join_push(parts, " | "@, i as int);
            }
            if i > 0 {
                s.append(" | ");
            }
            names.push_path(&mut s, self[i].as_slice());
            proof {
                assert(parts[i as int] == path_str(names.names@, self@[i as int]@));
                if i == 0 {
                    assert(Seq::<char>::empty() + parts[0] =~= parts[0]);
                }
            }
            i = i + 1;
        }
        assert(parts.take(self@.len() as int) =~= parts);
        s
    }
}

impl NetworkFormatter for NetworkError {
    fn fmt(&self, names: &NameTable) -> (r: String)
        ensures
            r@ == match self {
                NetworkError::DeviceNotFound(x) => "Device with id="@ + nat_str(x.0 as nat) + " not found!"@,
                NetworkError::LinkNotFound(a, b) => "No link between "@ + name_of(names.names@, *a) + " and "@
                    + name_of(names.names@, *b) + " exists!"@,
                NetworkError::ForwardingLoop(p) => "Forwarding loop found! "@ + path_str(names.names@, p@),
                NetworkError::ForwardingBlackHole(p) => "Black hole found! "@ + path_str(names.names@, p@),
            },
    {
        let mut s = String::new();
        match self {
            NetworkError::DeviceNotFound(x) => {
                s.append("Device with id=");
                push_u64(&mut s, x.0 as u64);
                s.append(" not found!");
            },
            NetworkError::LinkNotFound(a, b) => {
                s.append("No link between ");
                s.append(names.name(*a));
                s.append(" and ");
                s.append(names.name(*b));
                s.append(" exists!");
            },
            NetworkError::ForwardingLoop(p) => {
                s.append("Forwarding loop found! ");
                names.push_path(&mut s, p.as_slice());
            },
            NetworkError::ForwardingBlackHole(p) => {
                s.append("Black hole found! ");
                names.push_path(&mut s, p.as_slice());
            },
        }
        s
    }
}

impl NetworkFormatter for DeviceError {
    fn fmt(&self, names: &NameTable) -> (r: String)
        ensures
            r@ == match self {
                DeviceError::RouterNotFound(x) => "Router "@ + name_of(names.names@, *x) + " was not found in the IGP table!"@,
                DeviceError::NoBgpSession(x) => "No BGP session established with "@ + name_of(names.names@, *x) + "!"@,
            },
    {
        let mut s = String::new();
        match self {
            DeviceError::RouterNotFound(x) => {
                s.append("Router ");
                s.append(names.name(*x));
                s.append(" was not found in the IGP table!");
            },
            DeviceError::NoBgpSession(x) => {
                s.append("No BGP session established with ");
                s.append(names.name(*x));
                s.append("!");
            },
        }
        s
    }
}

} // verus!
