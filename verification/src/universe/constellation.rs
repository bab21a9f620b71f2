//! Constellations, each in a constellation.
use std::collections::HashMap;

use vstd::prelude::*;

use crate::ranking::{entries, lemma_ranked_entries_list, lists, rank_by_name, string_views};
use crate::text::{normalize, normalized};
use crate::universe::region::Region;

verus! {

/// A constellation and the region it lies in.
#[derive(Debug, PartialEq)]
pub struct Constellation {
    pub id: u64,
    pub name: String,
    pub region: Region,
}

impl Clone for Constellation {
    fn clone(&self) -> (copy: Self)
        ensures
            copy == *self,
    {
        Constellation { id: self.id, name: self.name.clone(), region: self.region.clone() }
    }
}

/// A constellation as the universe's tables store it: its region by id.
#[derive(Debug, PartialEq)]
pub struct ConstellationRow {
    pub id: u64,
    pub name: String,
    pub region_id: u64,
}

/// The name of a constellation.
pub open spec fn constellation_name(constellation: Constellation) -> Seq<char> {
    constellation.name@
}

/// The constellation that `row` describes, in the region of its region id.
pub open spec fn constellation_of(row: ConstellationRow, regions: Map<u64, Region>) -> Constellation {
    Constellation { id: row.id, name: row.name, region: regions[row.region_id] }
}

/// The constellations of `rows` by id; of rows with the same id, the last one counts.
pub open spec fn constellations_by_id(rows: Seq<ConstellationRow>, regions: Map<u64, Region>) -> Map<u64, Constellation>
    decreases rows.len(),
{
    if rows.len() == 0 {
        Map::empty()
    } else {
        constellations_by_id(rows.drop_last(), regions).insert(
            rows.last().id,
            constellation_of(rows.last(), regions),
        )
    }
}

/// The constellations indexed by id are those of the rows; each comes from the last
/// row with its id, so it has the id it is found by, and lies in the
/// region that the row names.
pub proof fn lemma_constellations_by_id(rows: Seq<ConstellationRow>, regions: Map<u64, Region>, id: u64)
    ensures
        constellations_by_id(rows, regions).contains_key(id) <==> exists|i: int|
            0 <= i < rows.len() && #[trigger] rows[i].id == id,
        constellations_by_id(rows, regions).contains_key(id) ==> exists|i: int|
            0 <= i < rows.len() && #[trigger] rows[i].id == id && constellations_by_id(rows, regions)[id] == constellation_of(rows[i], regions)
                && forall|j: int| i < j < rows.len() ==> rows[j].id != id,
        constellations_by_id(rows, regions).contains_key(id) ==> constellations_by_id(rows, regions)[id].id == id,
    decreases rows.len(),
{
    if rows.len() > 0 {
        let init = rows.drop_last();
        let last = rows.len() - 1;
        lemma_constellations_by_id(init, regions, id);
        if rows[last].id == id {
            assert(rows[last].id == id && constellations_by_id(rows, regions)[id] == constellation_of(rows[last], regions));
        } else {
            if constellations_by_id(init, regions).contains_key(id) {
                let i = choose|i: int|
                    0 <= i < init.len() && #[trigger] init[i].id == id && constellations_by_id(init, regions)[id]
                        == constellation_of(init[i], regions) && forall|j: int| i < j < init.len() ==> init[j].id != id;
                assert(rows[i] == init[i]);
                assert forall|j: int| i < j < rows.len() implies rows[j].id != id by {
                    if j < last {
                        assert(rows[j] == init[j]);
                    }
                }
                assert(rows[i].id == id && constellations_by_id(rows, regions)[id] == constellation_of(rows[i], regions));
            }
            if exists|i: int| 0 <= i < rows.len() && #[trigger] rows[i].id == id {
                let i = choose|i: int| 0 <= i < rows.len() && #[trigger] rows[i].id == id;
                assert(init[i].id == id);
            }
        }
    }
}

/// The constellations of `rows`, by id, each with its region taken from `regions`.
/// Every row's region must be among `regions`.
pub fn link(rows: &Vec<ConstellationRow>, regions: &HashMap<u64, Region>) -> (constellations: HashMap<u64, Constellation>)
    requires
        forall|i: int| 0 <= i < rows.len() ==> regions@.contains_key(#[trigger] rows@[i].region_id),
    ensures
        constellations@ == constellations_by_id(rows@, regions@),
{
    broadcast use vstd::std_specs::hash::group_hash_axioms;

    let mut constellations: HashMap<u64, Constellation> = HashMap::new();
    for i in 0..rows.len()
        invariant
            forall|i: int| 0 <= i < rows.len() ==> regions@.contains_key(#[trigger] rows@[i].region_id),
            constellations@ == constellations_by_id(rows@.take(i as int), regions@),
    {
        let row = &rows[i];
        let region = regions.get(&row.region_id).unwrap().clone();
        proof {
            assert(rows@.take(i + 1).drop_last() == rows@.take(i as int));
            assert(rows@.take(i + 1).last() == *row);
        }
        constellations.insert(row.id, Constellation { id: row.id, name: row.name.clone(), region });
    }
    assert(rows@.take(rows.len() as int) == rows@);
    constellations
}

/// The constellations whose name starts with `search_query`, ignoring case and
/// dashes, ordered by name. A query of fewer than three characters, once
/// lower-cased and without dashes, finds nothing.
pub fn search(search_query: &str, constellations: &HashMap<u64, Constellation>) -> (found: Vec<Constellation>)
    ensures
        normalized(search_query@).len() < 3 ==> found@.len() == 0,
        normalized(search_query@).len() >= 3 ==> lists(
            constellations@,
            |r: Constellation| constellation_name(r),
            normalized(search_query@),
            found@,
        ),
{
    broadcast use vstd::std_specs::hash::group_hash_axioms;

    let query = normalize(search_query);
    if query.len() < 3 {
        return Vec::new();
    }
    let (ids, values) = entries(constellations);
    let mut names: Vec<String> = Vec::new();
    for i in 0..values.len()
        invariant
            names.len() == i,
            forall|j: int| 0 <= j < i ==> #[trigger] names@[j]@ == constellation_name(*values@[j]),
    {
        names.push(values[i].name.clone());
    }
    let order = rank_by_name(&query, &names);
    let ghost name_of = |r: Constellation| constellation_name(r);
    assert(string_views(names@) =~= values@.unref().map_values(name_of));
    let mut found: Vec<Constellation> = Vec::new();
    for j in 0..order.len()
        invariant
            found.len() == j,
            forall|t: int| 0 <= t < order.len() ==> #[trigger] order@[t] < values.len(),
            forall|t: int| 0 <= t < j ==> found@[t] == values@.unref()[#[trigger] order@[t] as int],
    {
        found.push(values[order[j]].clone());
    }
    proof {
        lemma_ranked_entries_list(constellations@, name_of, query@, ids@, values@.unref(), order@, found@);
    }
    found
}

} // verus!
