use std::collections::HashMap;

use eve_orm::universe::constellation::{self, Constellation, ConstellationRow};
use eve_orm::universe::galaxy::{self, Galaxy};
use eve_orm::universe::region::{self, Region, RegionRow};

fn regions() -> HashMap<u64, Region> {
    let galaxies = galaxy::index_by_id(&vec![Galaxy { id: 1, name: "NEW EDEN".to_string() }]);
    let rows = vec![
        RegionRow { id: 10000001, name: "Derelik".to_string(), galaxy_id: 1 },
        RegionRow { id: 10000002, name: "The Forge".to_string(), galaxy_id: 1 },
    ];
    region::link(&rows, &galaxies)
}

fn row(id: u64, name: &str, region_id: u64) -> ConstellationRow {
    ConstellationRow { id, name: name.to_string(), region_id }
}

fn constellations() -> HashMap<u64, Constellation> {
    let rows = vec![
        row(20000001, "San Matar", 10000001),
        row(20000002, "Sanctum", 10000001),
        row(20000020, "Kimotoro", 10000002),
        row(20000021, "Otsela", 10000002),
    ];
    constellation::link(&rows, &regions())
}

fn san_matar() -> Constellation {
    Constellation {
        id: 20000001,
        name: "San Matar".to_string(),
        region: Region {
            id: 10000001,
            name: "Derelik".to_string(),
            galaxy: Galaxy {
                id: 1,
                name: "NEW EDEN".to_string(),
            },
        },
    }
}

#[test]
fn constellation_search_exact() {
    let constellation: Vec<Constellation> = constellation::search("San Matar", &constellations());
    assert_eq!(constellation[0], san_matar());
}

#[test]
fn constellation_search() {
    let constellation: Vec<Constellation> = constellation::search("sAn m", &constellations());
    assert_eq!(constellation[0], san_matar());
}

#[test]
fn constellation_search_not_found() {
    let constellation: Vec<Constellation> = constellation::search("dsafasfa", &constellations());
    assert_eq!(constellation.len(), 0);
}

#[test]
fn constellation_search_under_3_chars() {
    let region: Vec<Constellation> = constellation::search("sa-", &constellations());
    assert_eq!(region.len(), 0);
}

#[test]
fn constellation_search_orders_by_name() {
    let found = constellation::search("SAN", &constellations());
    let names: Vec<&str> = found.iter().map(|c| c.name.as_str()).collect();
    assert_eq!(names, vec!["San Matar", "Sanctum"]);
}

#[test]
fn constellation_longer_query_narrows() {
    let short = constellation::search("san", &constellations());
    let long = constellation::search("sanc", &constellations());
    assert_eq!(long.len(), 1);
    assert!(long.iter().all(|c| short.contains(c)));
}

#[test]
fn constellation_link_takes_region_of_row() {
    let linked = constellations();
    assert_eq!(linked.len(), 4);
    assert_eq!(linked[&20000020].region.name, "The Forge");
    assert_eq!(linked[&20000001], san_matar());
}
