//! Stargates: the jumps from one solar system to another.
use std::collections::HashMap;

use vstd::prelude::*;

verus! {

/// A stargate, seen from the solar system it leaves: where it leads.
#[derive(Debug)]
pub struct Stargate {
    pub destination_id: u64,
    pub destination_name: String,
}

impl Clone for Stargate {
    fn clone(&self) -> (copy: Self)
        ensures
            copy == *self,
    {
        Stargate { destination_id: self.destination_id, destination_name: self.destination_name.clone() }
    }
}

/// A stargate as the universe's tables store it: the system it leaves and
/// the system it leads to.
#[derive(Debug, PartialEq)]
pub struct StargateRow {
    pub from_system_id: u64,
    pub destination_id: u64,
    pub destination_name: String,
}

/// The stargate that `row` describes, seen from the system it leaves.
pub open spec fn stargate_of(row: StargateRow) -> Stargate {
    Stargate { destination_id: row.destination_id, destination_name: row.destination_name }
}

/// The stargates of `rows` that leave `origin`, in the order of the rows.
pub open spec fn departures(rows: Seq<StargateRow>, origin: u64) -> Seq<Stargate> {
    rows.filter(|row: StargateRow| row.from_system_id == origin).map_values(
        |row: StargateRow| stargate_of(row),
    )
}

/// The systems that some stargate of `rows` leaves.
pub open spec fn origins(rows: Seq<StargateRow>) -> Set<u64> {
    Set::new(|origin: u64| exists|i: int| 0 <= i < rows.len() && rows[i].from_system_id == origin)
}

/// The stargates of `rows`, grouped by the system they leave; each system's
/// stargates keep the order of the rows.
pub fn group_by_origin(rows: &Vec<StargateRow>) -> (stargates: HashMap<u64, Vec<Stargate>>)
    ensures
        stargates@.dom() == origins(rows@),
        forall|origin: u64| #[trigger]
            stargates@.contains_key(origin) ==> stargates@[origin]@ == departures(rows@, origin),
{
    broadcast use vstd::std_specs::hash::group_hash_axioms;

    let mut stargates: HashMap<u64, Vec<Stargate>> = HashMap::new();
    for i in 0..rows.len()
        invariant
            stargates@.dom() == origins(rows@.take(i as int)),
            forall|origin: u64| #[trigger]
                stargates@.contains_key(origin) ==> stargates@[origin]@ == departures(
                    rows@.take(i as int),
                    origin,
                ),
    {
        let row = &rows[i];
        let origin = row.from_system_id;
        let stargate = Stargate {
            destination_id: row.destination_id,
            destination_name: row.destination_name.clone(),
        };
        let ghost before = rows@.take(i as int);
        let ghost after = rows@.take(i + 1);
        proof {
            assert(after == before.push(*row));
            assert forall|o: u64| #[trigger] departures(after, o) == if o == origin {
                departures(before, o).push(stargate)
            } else {
                departures(before, o)
            } by {
                let pred = |r: StargateRow| r.from_system_id == o;
                before.lemma_filter_push(*row, pred);
                if o == origin {
                    before.filter(pred).lemma_push_map_commute(|r: StargateRow| stargate_of(r), *row);
                }
            }
            assert forall|o: u64| #[trigger] origins(after).contains(o) == (origins(before).contains(o) || o == origin) by {
                if origins(before).contains(o) {
                    let j = choose|j: int| 0 <= j < before.len() && before[j].from_system_id == o;
                    assert(after[j] == before[j]);
                }
                if o == origin {
                    assert(after[i as int] == *row);
                }
                if origins(after).contains(o) && o != origin {
                    let j = choose|j: int| 0 <= j < after.len() && after[j].from_system_id == o;
                    assert(j < i);
                    assert(before[j] == after[j]);
                }
            }
        }
        let mut departing = match stargates.remove(&origin) {
            Some(departing) => departing,
            None => {
                proof {
                    assert(!origins(before).contains(origin));
                    assert(departures(before, origin) =~= Seq::empty()) by {
                        let pred = |r: StargateRow| r.from_system_id == origin;
                        if before.filter(pred).len() > 0 {
                            before.lemma_filter_contains_rev(pred, before.filter(pred)[0]);
                            assert(before.filter(pred).contains(before.filter(pred)[0]));
                            assert(before.contains(before.filter(pred)[0]));
                        }
                    }
                }
                Vec::new()
            },
        };
        departing.push(stargate);
        stargates.insert(origin, departing);
        proof {
            assert(stargates@.dom() =~= origins(after));
        }
    }
    assert(rows@.take(rows.len() as int) == rows@);
    stargates
}

} // verus!
