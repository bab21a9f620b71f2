use std::collections::HashMap;

use eve_orm::universe::galaxy::{self, Galaxy};

fn galaxy(id: i64, name: &str) -> Galaxy {
    Galaxy { id, name: name.to_string() }
}

fn universe() -> HashMap<i64, Galaxy> {
    let rows = vec![
        galaxy(1, "NEW EDEN"),
        galaxy(2, "ANOIKIS"),
        galaxy(3, "WORMHOLE"),
        galaxy(4, "POCHVEN"),
    ];
    galaxy::index_by_id(&rows)
}

#[test]
fn galaxy_search_exact() {
    let galaxy: Vec<Galaxy> = galaxy::search("NEW EDEN", &universe());
    assert_eq!(
        galaxy[0],
        Galaxy {
            id: 1,
            name: "NEW EDEN".to_string()
        }
    );
}

#[test]
fn galaxy_search() {
    let galaxy: Vec<Galaxy> = galaxy::search("nEw E", &universe());
    assert_eq!(
        galaxy[0],
        Galaxy {
            id: 1,
            name: "NEW EDEN".to_string()
        }
    );
}

#[test]
fn galaxy_search_not_found() {
    let galaxy: Vec<Galaxy> = galaxy::search("dsafasfa", &universe());
    assert_eq!(galaxy.len(), 0);
}

#[test]
fn galaxy_search_under_3_chars() {
    let galaxy: Vec<Galaxy> = galaxy::search("NE-", &universe());
    assert_eq!(galaxy.len(), 0);
}

#[test]
fn galaxy_search_own_name_finds_each() {
    let galaxies = universe();
    for g in galaxies.values() {
        let found = galaxy::search(&g.name, &galaxies);
        assert!(found.contains(g));
    }
}

#[test]
fn galaxy_search_is_case_insensitive() {
    let galaxies = universe();
    assert_eq!(galaxy::search("anoikis", &galaxies), galaxy::search("ANO-IKIS", &galaxies));
    assert_eq!(galaxy::search("anoikis", &galaxies)[0].id, 2);
}

#[test]
fn galaxy_index_by_id_keys_by_id() {
    let galaxies = universe();
    assert_eq!(galaxies.len(), 4);
    for (id, g) in galaxies.iter() {
        assert_eq!(*id, g.id);
    }
    assert_eq!(galaxies[&3].name, "WORMHOLE");
}

#[test]
fn galaxy_search_of_empty_universe() {
    assert!(galaxy::search("NEW EDEN", &HashMap::new()).is_empty());
}

#[test]
fn galaxy_search_twice_lists_alike() {
    let galaxies = galaxy::index_by_id(&vec![
        galaxy(1, "Eden"),
        galaxy(2, "eden"),
        galaxy(3, "Eden"),
        galaxy(4, "Edenia"),
    ]);
    let first = galaxy::search("EDE", &galaxies);
    let second = galaxy::search("ede", &galaxies);
    let names = |found: &Vec<Galaxy>| found.iter().map(|g| g.name.clone()).collect::<Vec<String>>();
    assert_eq!(names(&first), vec!["Eden", "Eden", "Edenia", "eden"]);
    assert_eq!(names(&first), names(&second));
    assert_eq!(first.len(), 4);
    assert!(first.iter().all(|g| second.contains(g)));
}
