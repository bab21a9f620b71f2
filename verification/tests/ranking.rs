use eve_orm::ranking::{entries, rank_by_keys, rank_by_name};
use eve_orm::text::{chars_of, le_by_chars, normalize, starts_with, strip_dashes};
use std::collections::HashMap;

fn chars(s: &str) -> Vec<char> {
    s.chars().collect()
}

fn strings(names: &[&str]) -> Vec<String> {
    names.iter().map(|s| s.to_string()).collect()
}

#[test]
fn normalize_lowercases_and_drops_dashes() {
    assert_eq!(normalize("San-Matar"), chars("sanmatar"));
    assert_eq!(normalize("NE-"), chars("ne"));
    assert_eq!(normalize("---"), chars(""));
    assert_eq!(normalize("ÉVE"), chars("éve"));
}

#[test]
fn chars_of_keeps_every_character() {
    assert_eq!(chars_of("A-b É"), vec!['A', '-', 'b', ' ', 'É']);
}

#[test]
fn starts_with_is_a_prefix_test() {
    assert!(starts_with(&chars("sanmatar"), &chars("san")));
    assert!(starts_with(&chars("san"), &chars("san")));
    assert!(starts_with(&chars("san"), &chars("")));
    assert!(!starts_with(&chars("sa"), &chars("san")));
    assert!(!starts_with(&chars("sbn"), &chars("san")));
}

#[test]
fn le_by_chars_orders_like_strings() {
    let words = ["", "A", "Z", "a", "San Matar", "Sanctum", "San", "é", "ab"];
    for x in words.iter() {
        for y in words.iter() {
            assert_eq!(le_by_chars(&chars(x), &chars(y)), x <= y, "{} {}", x, y);
        }
    }
}

#[test]
fn rank_by_name_orders_matches_by_name() {
    let names = strings(&["Sanctum", "Otsela", "San Matar", "SAN-X"]);
    assert_eq!(rank_by_name(&chars("san"), &names), vec![3, 2, 0]);
}

#[test]
fn rank_by_name_keeps_equal_names_in_place() {
    let names = strings(&["Jita", "Amarr", "Jita", "jita"]);
    assert_eq!(rank_by_name(&chars("jit"), &names), vec![0, 2, 3]);
}

#[test]
fn rank_by_name_with_empty_query_ranks_all() {
    let names = strings(&["b", "a", "c"]);
    assert_eq!(rank_by_name(&chars(""), &names), vec![1, 0, 2]);
}

#[test]
fn rank_by_name_finds_nothing() {
    let names = strings(&["b", "a", "c"]);
    assert_eq!(rank_by_name(&chars("zz"), &names), Vec::<usize>::new());
}

#[test]
fn entries_lists_each_entry_once() {
    let mut m: HashMap<u64, String> = HashMap::new();
    m.insert(3, "c".to_string());
    m.insert(1, "a".to_string());
    m.insert(2, "b".to_string());
    let (keys, values) = entries(&m);
    assert_eq!(keys.len(), 3);
    let mut pairs: Vec<(u64, String)> = keys.iter().zip(values.iter()).map(|(k, v)| (*k, (*v).clone())).collect();
    pairs.sort();
    assert_eq!(pairs, vec![(1, "a".to_string()), (2, "b".to_string()), (3, "c".to_string())]);
}

#[test]
fn strip_dashes_keeps_case() {
    assert_eq!(strip_dashes("A-R00001"), chars("AR00001"));
    assert_eq!(strip_dashes("-"), chars(""));
}

#[test]
fn rank_by_keys_matches_on_keys_and_orders_on_names() {
    let keys = vec![chars("zeta"), chars("alpha"), chars("alp"), chars("alpine")];
    let names = strings(&["b", "c", "a", "c"]);
    assert_eq!(rank_by_keys(&chars("alp"), &keys, &names), vec![2, 1, 3]);
}
