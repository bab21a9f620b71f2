use std::collections::HashMap;

use eve_orm::universe::galaxy::{self, Galaxy};
use eve_orm::universe::region::{self, Region, RegionRow};

fn galaxies() -> HashMap<i64, Galaxy> {
    galaxy::index_by_id(&vec![
        Galaxy { id: 1, name: "NEW EDEN".to_string() },
        Galaxy { id: 2, name: "ANOIKIS".to_string() },
    ])
}

fn row(id: u64, name: &str, galaxy_id: i64) -> RegionRow {
    RegionRow { id, name: name.to_string(), galaxy_id }
}

fn regions() -> HashMap<u64, Region> {
    let rows = vec![
        row(10000001, "Derelik", 1),
        row(10000002, "The Forge", 1),
        row(10000043, "Domain", 1),
        row(10000060, "Delve", 1),
        row(11000001, "A-R00001", 2),
    ];
    region::link(&rows, &galaxies())
}

#[test]
fn region_search_exact() {
    let region: Vec<Region> = region::search("Derelik", &regions());
    assert_eq!(
        region[0],
        Region {
            id: 10000001,
            name: "Derelik".to_string(),
            galaxy: Galaxy {
                id: 1,
                name: "NEW EDEN".to_string()
            }
        }
    );
}

#[test]
fn region_search() {
    let region: Vec<Region> = region::search("dEr", &regions());
    assert_eq!(
        region[0],
        Region {
            id: 10000001,
            name: "Derelik".to_string(),
            galaxy: Galaxy {
                id: 1,
                name: "NEW EDEN".to_string()
            }
        }
    );
}

#[test]
fn region_search_not_found() {
    let region: Vec<Region> = region::search("dsafasfa", &regions());
    assert_eq!(region.len(), 0);
}

#[test]
fn region_search_under_3_chars() {
    let region: Vec<Region> = region::search("DE-", &regions());
    assert_eq!(region.len(), 0);
}

#[test]
fn region_search_lists_all_matches_by_name() {
    let found: Vec<Region> = region::search("-DEL-ve", &regions());
    let names: Vec<&str> = found.iter().map(|r| r.name.as_str()).collect();
    assert_eq!(names, vec!["Delve"]);
}

#[test]
fn region_search_ignores_dashes_in_names() {
    let found: Vec<Region> = region::search("ar00", &regions());
    assert_eq!(found.len(), 1);
    assert_eq!(found[0].id, 11000001);
    assert_eq!(found[0].galaxy.name, "ANOIKIS");
}

#[test]
fn region_link_takes_galaxy_of_row() {
    let linked = regions();
    assert_eq!(linked.len(), 5);
    assert_eq!(linked[&11000001].galaxy, Galaxy { id: 2, name: "ANOIKIS".to_string() });
    assert_eq!(linked[&10000060].name, "Delve");
    assert_eq!(linked[&10000060].galaxy.id, 1);
}

#[test]
fn region_link_last_row_of_an_id_counts() {
    let rows = vec![row(7, "Old", 1), row(7, "New", 2)];
    let linked = region::link(&rows, &galaxies());
    assert_eq!(linked.len(), 1);
    assert_eq!(linked[&7].name, "New");
    assert_eq!(linked[&7].galaxy.id, 2);
}
