//! Regions, each in a galaxy.
use std::collections::HashMap;

use vstd::prelude::*;

use crate::ranking::{entries, lemma_ranked_entries_list, lists, rank_by_name, string_views};
use crate::text::{normalize, normalized};
use crate::universe::galaxy::Galaxy;

verus! {

/// A region and the galaxy it lies in.
#[derive(Debug, PartialEq)]
pub struct Region {
    pub id: u64,
    pub name: String,
    pub galaxy: Galaxy,
}

impl Clone for Region {
    fn clone(&self) -> (copy: Self)
        ensures
            copy == *self,
    {
        Region { id: self.id, name: self.name.clone(), galaxy: self.galaxy.clone() }
    }
}

/// A region as the universe's tables store it: its galaxy by id.
#[derive(Debug, PartialEq)]
pub struct RegionRow {
    pub id: u64,
    pub name: String,
    pub galaxy_id: i64,
}

/// The name of a region.
pub open spec fn region_name(region: Region) -> Seq<char> {
    region.name@
}

/// The region that `row` describes, in the galaxy of its galaxy id.
pub open spec fn region_of(row: RegionRow, galaxies: Map<i64, Galaxy>) -> Region {
    Region { id: row.id, name: row.name, galaxy: galaxies[row.galaxy_id] }
}

/// The regions of `rows` by id; of rows with the same id, the last one counts.
pub open spec fn regions_by_id(rows: Seq<RegionRow>, galaxies: Map<i64, Galaxy>) -> Map<u64, Region>
    decreases rows.len(),
{
    if rows.len() == 0 {
        Map::empty()
    } else {
        regions_by_id(rows.drop_last(), galaxies).insert(
            rows.last().id,
            region_of(rows.last(), galaxies),
        )
    }
}

/// The regions indexed by id are those of the rows; each comes from the last
/// row with its id, so it has the id it is found by, and lies in the
/// galaxy that the row names.
pub proof fn lemma_regions_by_id(rows: Seq<RegionRow>, galaxies: Map<i64, Galaxy>, id: u64)
    ensures
        regions_by_id(rows, galaxies).contains_key(id) <==> exists|i: int|
            0 <= i < rows.len() && #[trigger] rows[i].id == id,
        regions_by_id(rows, galaxies).contains_key(id) ==> exists|i: int|
            0 <= i < rows.len() && #[trigger] rows[i].id == id && regions_by_id(rows, galaxies)[id] == region_of(rows[i], galaxies)
                && forall|j: int| i < j < rows.len() ==> rows[j].id != id,
        regions_by_id(rows, galaxies).contains_key(id) ==> regions_by_id(rows, galaxies)[id].id == id,
    decreases rows.len(),
{
    if rows.len() > 0 {
        let init = rows.drop_last();
        let last = rows.len() - 1;
        lemma_regions_by_id(init, galaxies, id);
        if rows[last].id == id {
            assert(rows[last].id == id && regions_by_id(rows, galaxies)[id] == region_of(rows[last], galaxies));
        } else {
            if regions_by_id(init, galaxies).contains_key(id) {
                let i = choose|i: int|
                    0 <= i < init.len() && #[trigger] init[i].id == id && regions_by_id(init, galaxies)[id]
                        == region_of(init[i], galaxies) && forall|j: int| i < j < init.len() ==> init[j].id != id;
                assert(rows[i] == init[i]);
                assert forall|j: int| i < j < rows.len() implies rows[j].id != id by {
                    if j < last {
                        assert(rows[j] == init[j]);
                    }
                }
                assert(rows[i].id == id && regions_by_id(rows, galaxies)[id] == region_of(rows[i], galaxies));
            }
            if exists|i: int| 0 <= i < rows.len() && #[trigger] rows[i].id == id {
                let i = choose|i: int| 0 <= i < rows.len() && #[trigger] rows[i].id == id;
                assert(init[i].id == id);
            }
        }
    }
}

/// The regions of `rows`, by id, each with its galaxy taken from `galaxies`.
/// Every row's galaxy must be among `galaxies`.
pub fn link(rows: &Vec<RegionRow>, galaxies: &HashMap<i64, Galaxy>) -> (regions: HashMap<u64, Region>)
    requires
        forall|i: int| 0 <= i < rows.len() ==> galaxies@.contains_key(#[trigger] rows@[i].galaxy_id),
    ensures
        regions@ == regions_by_id(rows@, galaxies@),
{
    broadcast use vstd::std_specs::hash::group_hash_axioms;

    let mut regions: HashMap<u64, Region> = HashMap::new();
    for i in 0..rows.len()
        invariant
            forall|i: int| 0 <= i < rows.len() ==> galaxies@.contains_key(#[trigger] rows@[i].galaxy_id),
            regions@ == regions_by_id(rows@.take(i as int), galaxies@),
    {
        let row = &rows[i];
        let galaxy = galaxies.get(&row.galaxy_id).unwrap().clone();
        proof {
            assert(rows@.take(i + 1).drop_last() == rows@.take(i as int));
            assert(rows@.take(i + 1).last() == *row);
        }
        regions.insert(row.id, Region { id: row.id, name: row.name.clone(), galaxy });
    }
    assert(rows@.take(rows.len() as int) == rows@);
    regions
}

/// The regions whose name starts with `search_query`, ignoring case and
/// dashes, ordered by name. A query of fewer than three characters, once
/// lower-cased and without dashes, finds nothing.
pub fn search(search_query: &str, regions: &HashMap<u64, Region>) -> (found: Vec<Region>)
    ensures
        normalized(search_query@).len() < 3 ==> found@.len() == 0,
        normalized(search_query@).len() >= 3 ==> lists(
            regions@,
            |r: Region| region_name(r),
            normalized(search_query@),
            found@,
        ),
{
    broadcast use vstd::std_specs::hash::group_hash_axioms;

    let query = normalize(search_query);
    if query.len() < 3 {
        return Vec::new();
    }
    let (ids, values) = entries(regions);
    let mut names: Vec<String> = Vec::new();
    for i in 0..values.len()
        invariant
            names.len() == i,
            forall|j: int| 0 <= j < i ==> #[trigger] names@[j]@ == region_name(*values@[j]),
    {
        names.push(values[i].name.clone());
    }
    let order = rank_by_name(&query, &names);
    let ghost name_of = |r: Region| region_name(r);
    assert(string_views(names@) =~= values@.unref().map_values(name_of));
    let mut found: Vec<Region> = Vec::new();
    for j in 0..order.len()
        invariant
            found.len() == j,
            forall|t: int| 0 <= t < order.len() ==> #[trigger] order@[t] < values.len(),
            forall|t: int| 0 <= t < j ==> found@[t] == values@.unref()[#[trigger] order@[t] as int],
    {
        found.push(values[order[j]].clone());
    }
    proof {
        lemma_ranked_entries_list(regions@, name_of, query@, ids@, values@.unref(), order@, found@);
    }
    found
}

} // verus!
