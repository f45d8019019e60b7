//! The simulated network's delivery rule: what crashed nodes and partitions let through.
use vstd::prelude::*;
use std::collections::HashSet;

verus! {

broadcast use vstd::std_specs::hash::group_hash_axioms;

/// A message from `from` to `to` gets through: neither end is down, and when the network is
/// split, some group holds both ends.
pub open spec fn delivers(from: usize, to: usize, groups: Seq<Set<usize>>, crashed: Set<usize>) -> bool {
    &&& !crashed.contains(from)
    &&& !crashed.contains(to)
    &&& groups.len() == 0 || exists|g: int|
        0 <= g < groups.len() && #[trigger] groups[g].contains(from) && groups[g].contains(to)
}

/// The views of the partition groups.
pub open spec fn group_views(partitions: Seq<HashSet<usize>>) -> Seq<Set<usize>> {
    partitions.map_values(|g: HashSet<usize>| g@)
}

/// Whether a message from `from` to `to` gets through.
pub fn route_allowed(
    from: usize,
    to: usize,
    partitions: &Vec<HashSet<usize>>,
    crashed: &HashSet<usize>,
) -> (r: bool)
    ensures
        r == delivers(from, to, group_views(partitions@), crashed@),
{
    if crashed.contains(&from) || crashed.contains(&to) {
        return false;
    }
    if partitions.len() == 0 {
        return true;
    }
    let ghost gs = group_views(partitions@);
    let mut i: usize = 0;
    while i < partitions.len()
        invariant
            i <= partitions@.len(),
            gs == group_views(partitions@),
            !crashed@.contains(from),
            !crashed@.contains(to),
            forall|g: int| 0 <= g < i ==> !(#[trigger] gs[g].contains(from) && gs[g].contains(to)),
        decreases partitions@.len() - i,
    {
        if partitions[i].contains(&from) && partitions[i].contains(&to) {
            assert(gs[i as int].contains(from) && gs[i as int].contains(to));
            return true;
        }
        i = i + 1;
    }
    false
}

} // verus!
