//! Galaxies (New Eden, Anoikis, ...).
use std::collections::HashMap;

use vstd::prelude::*;

use crate::ranking::{entries, lemma_ranked_entries_list, lists, rank_by_name, string_views};
use crate::text::{normalize, normalized};

verus! {

/// A galaxy, found by its id.
#[derive(Debug, PartialEq)]
pub struct Galaxy {
    pub id: i64,
    pub name: String,
}

impl Clone for Galaxy {
    fn clone(&self) -> (copy: Self)
        ensures
            copy == *self,
    {
        Galaxy { id: self.id, name: self.name.clone() }
    }
}

/// The name of a galaxy.
pub open spec fn galaxy_name(galaxy: Galaxy) -> Seq<char> {
    galaxy.name@
}

/// The galaxies of `rows` by id; of rows with the same id, the last one counts.
pub open spec fn galaxies_by_id(rows: Seq<Galaxy>) -> Map<i64, Galaxy>
    decreases rows.len(),
{
    if rows.len() == 0 {
        Map::empty()
    } else {
        galaxies_by_id(rows.drop_last()).insert(rows.last().id, rows.last())
    }
}

/// The galaxies indexed by id are those of the rows; each comes from the last
/// row with its id, so it has the id it is found by.
pub proof fn lemma_galaxies_by_id(rows: Seq<Galaxy>, id: i64)
    ensures
        galaxies_by_id(rows).contains_key(id) <==> exists|i: int|
            0 <= i < rows.len() && #[trigger] rows[i].id == id,
        galaxies_by_id(rows).contains_key(id) ==> exists|i: int|
            0 <= i < rows.len() && #[trigger] rows[i].id == id && galaxies_by_id(rows)[id] == rows[i]
                && forall|j: int| i < j < rows.len() ==> rows[j].id != id,
        galaxies_by_id(rows).contains_key(id) ==> galaxies_by_id(rows)[id].id == id,
    decreases rows.len(),
{
    if rows.len() > 0 {
        let init = rows.drop_last();
        let last = rows.len() - 1;
        lemma_galaxies_by_id(init, id);
        if rows[last].id == id {
            assert(rows[last].id == id && galaxies_by_id(rows)[id] == rows[last]);
        } else {
            if galaxies_by_id(init).contains_key(id) {
                let i = choose|i: int|
                    0 <= i < init.len() && #[trigger] init[i].id == id && galaxies_by_id(init)[id]
                        == init[i] && forall|j: int| i < j < init.len() ==> init[j].id != id;
                assert(rows[i] == init[i]);
                assert forall|j: int| i < j < rows.len() implies rows[j].id != id by {
                    if j < last {
                        assert(rows[j] == init[j]);
                    }
                }
                assert(rows[i].id == id && galaxies_by_id(rows)[id] == rows[i]);
            }
            if exists|i: int| 0 <= i < rows.len() && #[trigger] rows[i].id == id {
                let i = choose|i: int| 0 <= i < rows.len() && #[trigger] rows[i].id == id;
                assert(init[i].id == id);
            }
        }
    }
}

/// The galaxies of `rows`, by id.
pub fn index_by_id(rows: &Vec<Galaxy>) -> (galaxies: HashMap<i64, Galaxy>)
    ensures
        galaxies@ == galaxies_by_id(rows@),
{
    broadcast use vstd::std_specs::hash::group_hash_axioms;

    let mut galaxies: HashMap<i64, Galaxy> = HashMap::new();
    for i in 0..rows.len()
        invariant
            galaxies@ == galaxies_by_id(rows@.take(i as int)),
    {
        proof {
            assert(rows@.take(i + 1).drop_last() == rows@.take(i as int));
        }
        galaxies.insert(rows[i].id, rows[i].clone());
    }
    assert(rows@.take(rows.len() as int) == rows@);
    galaxies
}

/// The galaxies whose name starts with `search_query`, ignoring case and
/// dashes, ordered by name. A query of fewer than three characters, once
/// lower-cased and without dashes, finds nothing.
pub fn search(search_query: &str, galaxies: &HashMap<i64, Galaxy>) -> (found: Vec<Galaxy>)
    ensures
        normalized(search_query@).len() < 3 ==> found@.len() == 0,
        normalized(search_query@).len() >= 3 ==> lists(
            galaxies@,
            |g: Galaxy| galaxy_name(g),
            normalized(search_query@),
            found@,
        ),
{
    broadcast use vstd::std_specs::hash::group_hash_axioms;

    let query = normalize(search_query);
    if query.len() < 3 {
        return Vec::new();
    }
    let (ids, values) = entries(galaxies);
    let mut names: Vec<String> = Vec::new();
    for i in 0..values.len()
        invariant
            names.len() == i,
            forall|j: int| 0 <= j < i ==> #[trigger] names@[j]@ == galaxy_name(*values@[j]),
    {
        names.push(values[i].name.clone());
    }
    let order = rank_by_name(&query, &names);
    let ghost name_of = |g: Galaxy| galaxy_name(g);
    assert(string_views(names@) =~= values@.unref().map_values(name_of));
    let mut found: Vec<Galaxy> = Vec::new();
    for j in 0..order.len()
        invariant
            found.len() == j,
            forall|t: int| 0 <= t < order.len() ==> #[trigger] order@[t] < values.len(),
            forall|t: int| 0 <= t < j ==> found@[t] == values@.unref()[#[trigger] order@[t] as int],
    {
        found.push(values[order[j]].clone());
    }
    proof {
        lemma_ranked_entries_list(
            galaxies@,
            name_of,
            query@,
            ids@,
            values@.unref(),
            order@,
            found@,
        );
    }
    found
}

} // verus!
