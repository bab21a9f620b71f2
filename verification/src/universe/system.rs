//! Solar systems: what links a system to the rest of the universe.
use std::collections::HashMap;

use vstd::prelude::*;

use crate::universe::constellation::Constellation;
use crate::universe::stargate::Stargate;

verus! {

/// The stargates that leave the system `id`: none where `stargates` has no
/// entry for it.
pub open spec fn stargates_leaving(stargates: Map<u64, Vec<Stargate>>, id: u64) -> Seq<Stargate> {
    if stargates.contains_key(id) {
        stargates[id]@
    } else {
        Seq::empty()
    }
}

/// The constellation of the system `id` (by its constellation id) and the
/// stargates that leave it. The constellation must be among `constellations`.
pub fn links(
    id: u64,
    constellation_id: u64,
    constellations: &HashMap<u64, Constellation>,
    stargates: &HashMap<u64, Vec<Stargate>>,
) -> (linked: (Constellation, Vec<Stargate>))
    requires
        constellations@.contains_key(constellation_id),
    ensures
        linked.0 == constellations@[constellation_id],
        linked.1@ == stargates_leaving(stargates@, id),
{
    broadcast use vstd::std_specs::hash::group_hash_axioms;

    let constellation = constellations.get(&constellation_id).unwrap().clone();
    let mut leaving: Vec<Stargate> = Vec::new();
    match stargates.get(&id) {
        Some(gates) => {
            for i in 0..gates.len()
                invariant
                    stargates@.contains_key(id),
                    *gates == stargates@[id],
                    leaving@ == gates@.take(i as int),
            {
                proof {
                    assert(gates@.take(i + 1) == gates@.take(i as int).push(gates@[i as int]));
                }
                leaving.push(gates[i].clone());
            }
            assert(gates@.take(gates.len() as int) == gates@);
        },
        None => {},
    }
    (constellation, leaving)
}

} // verus!
