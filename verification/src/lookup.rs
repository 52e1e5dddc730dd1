//! Lookups shared by the generators: first gateway or network by key,
//! /24 subnet of a client address, sequences of string views.

use vstd::prelude::*;
use crate::model::{Gateway, NetworkConfig};
use crate::text::split_spec;

verus! {

/// The character sequences of a sequence of strings.
pub open spec fn sviews(v: Seq<String>) -> Seq<Seq<char>> {
    Seq::new(v.len(), |i: int| v[i]@)
}

/// The first gateway named `name`.
pub open spec fn find_gateway(gs: Seq<Gateway>, name: Seq<char>) -> Option<Gateway>
    decreases gs.len(),
{
    if gs.len() == 0 {
        None
    } else if gs[0].name@ == name {
        Some(gs[0])
    } else {
        find_gateway(gs.drop_first(), name)
    }
}

/// Looks up the first gateway named `name`.
pub fn lookup_gateway<'a>(gs: &'a [Gateway], name: &String) -> (r: Option<&'a Gateway>)
    ensures
        match find_gateway(gs@, name@) {
            Some(g) => r == Some(&g),
            None => r is None,
        },
{
    let mut i: usize = 0;
    proof {
        assert(gs@.subrange(0, gs@.len() as int) =~= gs@);
    }
    while i < gs.len()
        invariant
            i <= gs@.len(),
            find_gateway(gs@, name@) == find_gateway(gs@.subrange(i as int, gs@.len() as int), name@),
        decreases gs.len() - i,
    {
        let ghost rest = gs@.subrange(i as int, gs@.len() as int);
        proof {
            assert(rest.drop_first() =~= gs@.subrange(i + 1, gs@.len() as int));
            assert(rest[0] == gs@[i as int]);
        }
        if gs[i].name == *name {
            return Some(&gs[i]);
        }
        i = i + 1;
    }
    None
}

/// The first network whose subnet is `subnet`.
pub open spec fn find_network(ns: Seq<NetworkConfig>, subnet: Seq<char>) -> Option<NetworkConfig>
    decreases ns.len(),
{
    if ns.len() == 0 {
        None
    } else if ns[0].subnet@ == subnet {
        Some(ns[0])
    } else {
        find_network(ns.drop_first(), subnet)
    }
}

/// Looks up the first network whose subnet is `subnet`.
pub fn lookup_network<'a>(ns: &'a [NetworkConfig], subnet: &String) -> (r: Option<&'a NetworkConfig>)
    ensures
        match find_network(ns@, subnet@) {
            Some(n) => r == Some(&n),
            None => r is None,
        },
{
    let mut i: usize = 0;
    proof {
        assert(ns@.subrange(0, ns@.len() as int) =~= ns@);
    }
    while i < ns.len()
        invariant
            i <= ns@.len(),
            find_network(ns@, subnet@) == find_network(ns@.subrange(i as int, ns@.len() as int), subnet@),
        decreases ns.len() - i,
    {
        let ghost rest = ns@.subrange(i as int, ns@.len() as int);
        proof {
            assert(rest.drop_first() =~= ns@.subrange(i + 1, ns@.len() as int));
            assert(rest[0] == ns@[i as int]);
        }
        if ns[i].subnet == *subnet {
            return Some(&ns[i]);
        }
        i = i + 1;
    }
    None
}

/// The /24 subnet of a dotted address: the first three parts followed by `.0/24`,
/// when the address has exactly four parts.
pub open spec fn subnet_of(ip: Seq<char>) -> Option<Seq<char>> {
    let parts = split_spec(ip, '.');
    if parts.len() == 4 {
        Some(parts[0] + "."@ + parts[1] + "."@ + parts[2] + ".0/24"@)
    } else {
        None
    }
}

/// The first gateway named `name` is what `find_gateway` finds.
pub proof fn lemma_find_gateway_first(gs: Seq<Gateway>, name: Seq<char>, i: int)
    requires
        0 <= i < gs.len(),
        gs[i].name@ == name,
        forall|j: int| 0 <= j < i ==> (#[trigger] gs[j]).name@ != name,
    ensures
        find_gateway(gs, name) == Some(gs[i]),
    decreases i,
{
    if i > 0 {
        let t = gs.drop_first();
        assert forall|j: int| 0 <= j < i - 1 implies (#[trigger] t[j]).name@ != name by {
            assert(t[j] == gs[j + 1]);
        }
        assert(gs[0].name@ != name);
        lemma_find_gateway_first(t, name, i - 1);
    }
}

} // verus!
