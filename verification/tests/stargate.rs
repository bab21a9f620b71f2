use std::collections::HashMap;

use eve_orm::universe::constellation::{self, Constellation, ConstellationRow};
use eve_orm::universe::galaxy::{self, Galaxy};
use eve_orm::universe::region::{self, RegionRow};
use eve_orm::universe::stargate::{self, Stargate, StargateRow};
use eve_orm::universe::system;

fn gate(from: u64, to: u64, name: &str) -> StargateRow {
    StargateRow { from_system_id: from, destination_id: to, destination_name: name.to_string() }
}

fn destinations(gates: &[Stargate]) -> Vec<(u64, String)> {
    gates.iter().map(|g| (g.destination_id, g.destination_name.clone())).collect()
}

fn rows() -> Vec<StargateRow> {
    vec![
        gate(30000142, 30000144, "Perimeter"),
        gate(30002086, 30002087, "Isbrabata"),
        gate(30000142, 30000138, "Niyabainen"),
        gate(30000142, 30001445, "Ikuchi"),
    ]
}

#[test]
fn stargates_grouped_by_origin_in_row_order() {
    let grouped = stargate::group_by_origin(&rows());
    assert_eq!(grouped.len(), 2);
    assert_eq!(
        destinations(&grouped[&30000142]),
        vec![
            (30000144, "Perimeter".to_string()),
            (30000138, "Niyabainen".to_string()),
            (30001445, "Ikuchi".to_string()),
        ]
    );
    assert_eq!(destinations(&grouped[&30002086]), vec![(30002087, "Isbrabata".to_string())]);
}

#[test]
fn stargates_of_no_rows() {
    assert!(stargate::group_by_origin(&Vec::new()).is_empty());
}

fn constellations() -> HashMap<u64, Constellation> {
    let galaxies = galaxy::index_by_id(&vec![Galaxy { id: 1, name: "NEW EDEN".to_string() }]);
    let regions = region::link(&vec![RegionRow { id: 10000002, name: "The Forge".to_string(), galaxy_id: 1 }], &galaxies);
    constellation::link(
        &vec![ConstellationRow { id: 20000020, name: "Kimotoro".to_string(), region_id: 10000002 }],
        &regions,
    )
}

#[test]
fn system_links_constellation_and_stargates() {
    let grouped = stargate::group_by_origin(&rows());
    let (constellation, gates) = system::links(30000142, 20000020, &constellations(), &grouped);
    assert_eq!(constellation.name, "Kimotoro");
    assert_eq!(constellation.region.name, "The Forge");
    assert_eq!(gates.len(), 3);
    assert_eq!(gates[2].destination_name, "Ikuchi");
}

#[test]
fn system_without_stargates_has_none() {
    let grouped = stargate::group_by_origin(&rows());
    let (_, gates) = system::links(31000005, 20000020, &constellations(), &grouped);
    assert!(gates.is_empty());
}
