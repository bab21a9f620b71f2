//! Listing the names that a query finds, in the order of names.
use std::collections::HashMap;

use vstd::prelude::*;
use vstd::std_specs::iter::IteratorSpec;

use crate::text::{
    chars_of, le_by_chars, lemma_lex_le_antisymmetric, lemma_lex_le_reflexive, lemma_lex_le_total,
    lemma_lex_le_transitive, lemma_normal_text_is_fixed, lex_le, normalize, normalized, starts_with,
};

verus! {

/// Whether a name is found by an already normalised query: the name's
/// normalised form starts with it.
pub open spec fn finds(query: Seq<char>, name: Seq<char>) -> bool {
    query.is_prefix_of(normalized(name))
}

/// `order` lists the positions whose search key `query` starts, each once,
/// ordered by name, and positions of equal names in increasing order.
pub open spec fn ranks_by_keys(
    query: Seq<char>,
    keys: Seq<Seq<char>>,
    names: Seq<Seq<char>>,
    order: Seq<usize>,
) -> bool {
    &&& order.no_duplicates()
    &&& forall|j: int|
        0 <= j < order.len() ==> #[trigger] order[j] < names.len() && query.is_prefix_of(
            keys[order[j] as int],
        )
    &&& forall|i: int|
        0 <= i < names.len() && query.is_prefix_of(#[trigger] keys[i]) ==> order.contains(
            i as usize,
        )
    &&& forall|a: int, b: int|
        0 <= a < b < order.len() ==> lex_le(
            names[#[trigger] order[a] as int],
            names[#[trigger] order[b] as int],
        )
    &&& forall|a: int, b: int|
        0 <= a < b < order.len() && names[#[trigger] order[a] as int] == names[#[trigger] order[b] as int]
            ==> order[a] < order[b]
}

/// `order` lists the positions of the names that `query` finds, each once,
/// ordered by name, and positions of equal names in increasing order.
pub open spec fn ranks(query: Seq<char>, names: Seq<Seq<char>>, order: Seq<usize>) -> bool {
    ranks_by_keys(query, names.map_values(|name: Seq<char>| normalized(name)), names, order)
}

/// The characters of each vector.
pub open spec fn char_views(keys: Seq<Vec<char>>) -> Seq<Seq<char>> {
    keys.map_values(|k: Vec<char>| k@)
}

/// The characters of each string.
pub open spec fn string_views(strings: Seq<String>) -> Seq<Seq<char>> {
    strings.map_values(|s: String| s@)
}

/// Where `key` goes among the sorted `keys`: after every key that comes no
/// later than it.
fn insertion_point(keys: &Vec<Vec<char>>, key: &Vec<char>) -> (pos: usize)
    requires
        forall|a: int, b: int|
            0 <= a < b < keys.len() ==> lex_le(#[trigger] keys@[a]@, #[trigger] keys@[b]@),
    ensures
        pos <= keys.len(),
        forall|a: int| 0 <= a < pos ==> lex_le(#[trigger] keys@[a]@, key@),
        forall|a: int| pos <= a < keys.len() ==> !lex_le(#[trigger] keys@[a]@, key@),
{
    let mut pos: usize = 0;
    while pos < keys.len() && le_by_chars(&keys[pos], key)
        invariant
            pos <= keys.len(),
            forall|a: int| 0 <= a < pos ==> lex_le(#[trigger] keys@[a]@, key@),
        decreases keys.len() - pos,
    {
        pos = pos + 1;
    }
    proof {
        assert forall|a: int| pos <= a < keys.len() implies !lex_le(#[trigger] keys@[a]@, key@) by {
            if a > pos && lex_le(keys@[a]@, key@) {
                lemma_lex_le_transitive(keys@[pos as int]@, keys@[a]@, key@);
            }
        }
    }
    pos
}

/// The positions of the names whose search key starts with `query`, ordered
/// by name; names that are equal keep their order.
pub fn rank_by_keys(query: &Vec<char>, search_keys: &Vec<Vec<char>>, names: &Vec<String>) -> (order: Vec<usize>)
    requires
        search_keys.len() == names.len(),
    ensures
        ranks_by_keys(query@, char_views(search_keys@), string_views(names@), order@),
{
    let ghost ns = string_views(names@);
    let ghost sk = char_views(search_keys@);
    let mut order: Vec<usize> = Vec::new();
    let mut keys: Vec<Vec<char>> = Vec::new();
    for i in 0..names.len()
        invariant
            ns == string_views(names@),
            sk == char_views(search_keys@),
            search_keys.len() == names.len(),
            keys.len() == order.len(),
            forall|j: int|
                0 <= j < order.len() ==> #[trigger] order@[j] < i && keys@[j]@ == ns[order@[j] as int],
            forall|a: int, b: int|
                0 <= a < b < keys.len() ==> lex_le(#[trigger] keys@[a]@, #[trigger] keys@[b]@),
            order@.no_duplicates(),
            forall|j: int|
                0 <= j < order.len() ==> query@.is_prefix_of(sk[#[trigger] order@[j] as int]),
            forall|k: int| 0 <= k < i && query@.is_prefix_of(#[trigger] sk[k]) ==> order@.contains(k as usize),
            forall|a: int, b: int|
                0 <= a < b < order.len() && ns[#[trigger] order@[a] as int] == ns[#[trigger] order@[b] as int]
                    ==> order@[a] < order@[b],
    {
        if starts_with(&search_keys[i], query) {
            let key = chars_of(names[i].as_str());
            let pos = insertion_point(&keys, &key);
            let ghost old_keys = keys@;
            let ghost old_order = order@;
            keys.insert(pos, key);
            order.insert(pos, i);
            proof {
                assert(ns[i as int] == key@);
                assert forall|j: int| 0 <= j < order.len() implies #[trigger] order@[j] < i + 1
                    && keys@[j]@ == ns[order@[j] as int] by {
                    if j > pos {
                        assert(order@[j] == old_order[j - 1]);
                        assert(keys@[j] == old_keys[j - 1]);
                    }
                }
                assert forall|a: int, b: int| 0 <= a < b < keys.len() implies lex_le(
                    #[trigger] keys@[a]@,
                    #[trigger] keys@[b]@,
                ) by {
                    if b == pos {
                        assert(keys@[a] == old_keys[a]);
                    } else if a == pos {
                        assert(keys@[b] == old_keys[b - 1]);
                        lemma_lex_le_total(old_keys[b - 1]@, key@);
                    } else {
                        let oa = if a < pos { a } else { a - 1 };
                        let ob = if b < pos { b } else { b - 1 };
                        assert(keys@[a] == old_keys[oa]);
                        assert(keys@[b] == old_keys[ob]);
                    }
                }
                assert forall|a: int, b: int| 0 <= a < b < order.len() implies order@[a] != order@[b] by {
                    if a != pos && b != pos {
                        let oa = if a < pos { a } else { a - 1 };
                        let ob = if b < pos { b } else { b - 1 };
                        assert(order@[a] == old_order[oa]);
                        assert(order@[b] == old_order[ob]);
                    } else if a == pos {
                        assert(order@[b] == old_order[b - 1]);
                    } else {
                        assert(order@[a] == old_order[a]);
                    }
                }
                assert forall|j: int| 0 <= j < order.len() implies query@.is_prefix_of(
                    sk[#[trigger] order@[j] as int],
                ) by {
                    if j < pos {
                        assert(order@[j] == old_order[j]);
                    } else if j > pos {
                        assert(order@[j] == old_order[j - 1]);
                    }
                }
                assert forall|k: int| 0 <= k < i + 1 && query@.is_prefix_of(#[trigger] sk[k]) implies order@.contains(
                    k as usize,
                ) by {
                    if k == i {
                        assert(order@[pos as int] == i);
                    } else {
                        let j = choose|j: int| 0 <= j < old_order.len() && old_order[j] == k as usize;
                        if j < pos {
                            assert(order@[j] == k as usize);
                        } else {
                            assert(order@[j + 1] == k as usize);
                        }
                    }
                }
                assert forall|a: int, b: int|
                    0 <= a < b < order.len() && ns[#[trigger] order@[a] as int]
                        == ns[#[trigger] order@[b] as int] implies order@[a] < order@[b] by {
                    if a == pos {
                        assert(order@[b] == old_order[b - 1]);
                        assert(keys@[b] == old_keys[b - 1]);
                        lemma_lex_le_reflexive(key@);
                    } else if b == pos {
                        assert(order@[a] == old_order[a]);
                    } else {
                        let oa = if a < pos { a } else { a - 1 };
                        let ob = if b < pos { b } else { b - 1 };
                        assert(order@[a] == old_order[oa]);
                        assert(order@[b] == old_order[ob]);
                    }
                }
            }
        }
    }
    proof {
        assert forall|a: int, b: int| 0 <= a < b < order.len() implies lex_le(
            ns[#[trigger] order@[a] as int],
            ns[#[trigger] order@[b] as int],
        ) by {
            assert(keys@[a]@ == ns[order@[a] as int]);
            assert(keys@[b]@ == ns[order@[b] as int]);
        }
    }
    order
}

/// The positions of the names that the normalised `query` finds, ordered by
/// name; names that are equal keep their order.
pub fn rank_by_name(query: &Vec<char>, names: &Vec<String>) -> (order: Vec<usize>)
    ensures
        ranks(query@, string_views(names@), order@),
{
    let mut search_keys: Vec<Vec<char>> = Vec::new();
    for i in 0..names.len()
        invariant
            search_keys.len() == i,
            forall|j: int| 0 <= j < i ==> #[trigger] search_keys@[j]@ == normalized(names@[j]@),
    {
        search_keys.push(normalize(names[i].as_str()));
    }
    let order = rank_by_keys(query, &search_keys, names);
    assert(char_views(search_keys@) =~= string_views(names@).map_values(
        |name: Seq<char>| normalized(name),
    ));
    order
}

/// `keys` and `values` list the entries of `m`, each once: `keys[i]` maps to
/// `values[i]`.
pub open spec fn enumerates<K, T>(m: Map<K, T>, keys: Seq<K>, values: Seq<T>) -> bool {
    &&& keys.len() == values.len()
    &&& keys.no_duplicates()
    &&& forall|i: int|
        0 <= i < keys.len() ==> m.contains_key(#[trigger] keys[i]) && m[keys[i]] == values[i]
    &&& forall|k: K| m.contains_key(k) ==> #[trigger] keys.contains(k)
}

/// The keys of `m`, and a reference to the value of each, in the order in
/// which the map is walked.
pub fn entries<'a, K: Copy, T>(m: &'a HashMap<K, T>) -> (listed: (Vec<K>, Vec<&'a T>))
    requires
        vstd::std_specs::hash::obeys_key_model::<K>(),
    ensures
        enumerates(m@, listed.0@, listed.1@.unref()),
{
    broadcast use vstd::std_specs::hash::group_hash_axioms;

    let mut keys: Vec<K> = Vec::new();
    let mut values: Vec<&'a T> = Vec::new();
    let ghost walk = vstd::std_specs::hash::spec_hash_map_iter(m).remaining();
    for entry in it: m.iter()
        invariant
            it.seq() == walk,
            keys.len() == values.len(),
            keys.len() == it.index(),
            forall|i: int|
                #![trigger walk[i]]
                0 <= i < walk.len() ==> m@.contains_key(*walk[i].0) && m@[*walk[i].0] == *walk[i].1,
            forall|k: K| #[trigger] m@.contains_key(k) ==> walk.contains((&k, &m@[k])),
            walk.no_duplicates(),
            forall|i: int|
                0 <= i < keys.len() ==> #[trigger] keys@[i] == *walk[i].0 && *values@[i]
                    == *walk[i].1,
    {
        let (k, v) = entry;
        keys.push(*k);
        values.push(v);
    }
    proof {
        assert forall|a: int, b: int| 0 <= a < b < keys.len() implies keys@[a] != keys@[b] by {
            if keys@[a] == keys@[b] {
                assert(*walk[a].1 == m@[keys@[a]]);
                assert(*walk[b].1 == m@[keys@[b]]);
                assert(walk[a] == walk[b]);
            }
        }
        assert forall|k: K| m@.contains_key(k) implies #[trigger] keys@.contains(k) by {
            assert(walk.contains((&k, &m@[k])));
            let i = choose|i: int| 0 <= i < walk.len() && walk[i] == (&k, &m@[k]);
            assert(keys@[i] == k);
        }
    }
    (keys, values)
}

/// `found` holds, each once, the values of the keys `ks` of `m`: those whose
/// name the normalised `query` finds, ordered by name.
pub open spec fn lists_by_keys<K, T>(
    m: Map<K, T>,
    name_of: spec_fn(T) -> Seq<char>,
    query: Seq<char>,
    found: Seq<T>,
    ks: Seq<K>,
) -> bool {
    &&& ks.len() == found.len()
    &&& ks.no_duplicates()
    &&& forall|i: int|
        0 <= i < ks.len() ==> m.contains_key(#[trigger] ks[i]) && m[ks[i]] == found[i]
    &&& forall|k: K| m.contains_key(k) && finds(query, name_of(m[k])) ==> #[trigger] ks.contains(k)
    &&& forall|i: int| 0 <= i < found.len() ==> finds(query, name_of(#[trigger] found[i]))
    &&& forall|a: int, b: int|
        0 <= a < b < found.len() ==> lex_le(name_of(#[trigger] found[a]), name_of(#[trigger] found[b]))
}

/// `found` lists the values of `m` whose name the normalised `query` finds,
/// each entry of the map once, ordered by name.
pub open spec fn lists<K, T>(
    m: Map<K, T>,
    name_of: spec_fn(T) -> Seq<char>,
    query: Seq<char>,
    found: Seq<T>,
) -> bool {
    exists|ks: Seq<K>| lists_by_keys(m, name_of, query, found, ks)
}

/// Ranking the names of the enumerated entries of a map, and taking the
/// values in that order, lists the map's values that the query finds.
pub proof fn lemma_ranked_entries_list<K, T>(
    m: Map<K, T>,
    name_of: spec_fn(T) -> Seq<char>,
    query: Seq<char>,
    keys: Seq<K>,
    values: Seq<T>,
    order: Seq<usize>,
    found: Seq<T>,
)
    requires
        enumerates(m, keys, values),
        keys.len() <= usize::MAX,
        ranks(query, values.map_values(name_of), order),
        found.len() == order.len(),
        forall|j: int| 0 <= j < order.len() ==> found[j] == values[#[trigger] order[j] as int],
    ensures
        lists_by_keys(m, name_of, query, found, order.map_values(|o: usize| keys[o as int])),
        lists(m, name_of, query, found),
{
    let names = values.map_values(name_of);
    let search_keys = names.map_values(|name: Seq<char>| normalized(name));
    let ks = order.map_values(|o: usize| keys[o as int]);
    assert forall|j: int| 0 <= j < order.len() implies #[trigger] order[j] < values.len() by {
        assert(order[j] < names.len());
    }
    assert forall|a: int, b: int| 0 <= a < b < ks.len() implies ks[a] != ks[b] by {
        assert(order[a] != order[b]);
        assert(order[a] < values.len() && order[b] < values.len());
    }
    assert forall|i: int| 0 <= i < ks.len() implies m.contains_key(#[trigger] ks[i]) && m[ks[i]]
        == found[i] by {
        assert(order[i] < values.len());
    }
    assert forall|k: K| m.contains_key(k) && finds(query, name_of(m[k])) implies #[trigger] ks.contains(
        k,
    ) by {
        assert(keys.contains(k));
        let i = choose|i: int| 0 <= i < keys.len() && keys[i] == k;
        assert(m[keys[i]] == values[i]);
        assert(names[i] == name_of(values[i]));
        assert(finds(query, names[i]));
        assert(query.is_prefix_of(search_keys[i]));
        assert(order.contains(i as usize));
        let j = choose|j: int| 0 <= j < order.len() && order[j] == i as usize;
        assert(ks[j] == keys[order[j] as int]);
        assert(ks[j] == k);
    }
    assert forall|i: int| 0 <= i < found.len() implies finds(query, name_of(#[trigger] found[i])) by {
        assert(order[i] < values.len());
        assert(query.is_prefix_of(search_keys[order[i] as int]));
        assert(finds(query, names[order[i] as int]));
    }
    assert forall|a: int, b: int| 0 <= a < b < found.len() implies lex_le(
        name_of(#[trigger] found[a]),
        name_of(#[trigger] found[b]),
    ) by {
        assert(order[a] < values.len() && order[b] < values.len());
        assert(lex_le(names[order[a] as int], names[order[b] as int]));
    }
    assert(lists_by_keys(m, name_of, query, found, ks));
}

/// A search for an entry's own name lists that entry.
pub proof fn lemma_own_name_listed<K, T>(
    m: Map<K, T>,
    name_of: spec_fn(T) -> Seq<char>,
    k: K,
    found: Seq<T>,
)
    requires
        m.contains_key(k),
        lists(m, name_of, normalized(name_of(m[k])), found),
    ensures
        found.contains(m[k]),
{
    let query = normalized(name_of(m[k]));
    let ks = choose|ks: Seq<K>| lists_by_keys(m, name_of, query, found, ks);
    assert(query.is_prefix_of(query)) by {
        assert(query =~= query.subrange(0, query.len() as int));
    }
    assert(ks.contains(k));
    let i = choose|i: int| 0 <= i < ks.len() && ks[i] == k;
    assert(found[i] == m[k]);
}

/// Extending a query never lists an entry that the shorter query does not.
pub proof fn lemma_longer_query_narrows<K, T>(
    m: Map<K, T>,
    name_of: spec_fn(T) -> Seq<char>,
    short: Seq<char>,
    long: Seq<char>,
    found_short: Seq<T>,
    found_long: Seq<T>,
)
    requires
        short.is_prefix_of(long),
        lists(m, name_of, short, found_short),
        lists(m, name_of, long, found_long),
    ensures
        forall|x: T| found_long.contains(x) ==> found_short.contains(x),
{
    let ks_short = choose|ks: Seq<K>| lists_by_keys(m, name_of, short, found_short, ks);
    let ks_long = choose|ks: Seq<K>| lists_by_keys(m, name_of, long, found_long, ks);
    assert forall|x: T| found_long.contains(x) implies found_short.contains(x) by {
        let i = choose|i: int| 0 <= i < found_long.len() && found_long[i] == x;
        let k = ks_long[i];
        assert(m.contains_key(k) && m[k] == x);
        let name = normalized(name_of(x));
        assert(finds(long, name_of(found_long[i])));
        assert(short.is_prefix_of(name)) by {
            assert forall|j: int| 0 <= j < short.len() implies short[j] == name[j] by {
                assert(short[j] == long.subrange(0, short.len() as int)[j]);
                assert(long[j] == name.subrange(0, long.len() as int)[j]);
            }
            assert(short =~= name.subrange(0, short.len() as int));
        }
        assert(ks_short.contains(k));
        let j = choose|j: int| 0 <= j < ks_short.len() && ks_short[j] == k;
        assert(found_short[j] == x);
    }
}

/// Queries that agree once lower-cased and without dashes list the same
/// entries in the same way.
pub proof fn lemma_same_normal_form_lists_alike<K, T>(
    m: Map<K, T>,
    name_of: spec_fn(T) -> Seq<char>,
    query: Seq<char>,
    other: Seq<char>,
    found: Seq<T>,
)
    requires
        normalized(query) == normalized(other),
    ensures
        lists(m, name_of, normalized(query), found) == lists(m, name_of, normalized(other), found),
{
}

/// Sequences without duplicates that hold the same values hold each as often.
proof fn lemma_same_unique_values_same_multiset<A>(a: Seq<A>, b: Seq<A>)
    requires
        a.no_duplicates(),
        b.no_duplicates(),
        forall|x: A| a.contains(x) <==> b.contains(x),
    ensures
        a.to_multiset() =~= b.to_multiset(),
{
    broadcast use vstd::seq_lib::group_to_multiset_ensures;

    a.lemma_multiset_has_no_duplicates();
    b.lemma_multiset_has_no_duplicates();
    assert forall|x: A| a.to_multiset().count(x) == b.to_multiset().count(x) by {
        if a.contains(x) {
            assert(a.to_multiset().contains(x));
            assert(b.to_multiset().contains(x));
        }
    }
}

/// Mapping the values of sequences that hold each value as often keeps them so.
proof fn lemma_map_keeps_multiset<A, B>(a: Seq<A>, b: Seq<A>, f: spec_fn(A) -> B)
    requires
        a.to_multiset() == b.to_multiset(),
    ensures
        a.map_values(f).to_multiset() == b.map_values(f).to_multiset(),
    decreases a.len(),
{
    broadcast use vstd::seq_lib::group_to_multiset_ensures;

    a.to_multiset_ensures();
    b.to_multiset_ensures();
    if a.len() == 0 {
        assert(b.len() == 0);
        assert(a.map_values(f) =~= b.map_values(f));
    } else {
        let x = a.last();
        let rest = a.drop_last();
        assert(a =~= rest.push(x));
        assert(a.to_multiset().count(x) > 0);
        assert(b.contains(x));
        let j = choose|j: int| 0 <= j < b.len() && b[j] == x;
        let b_rest = b.remove(j);
        assert(rest.to_multiset() =~= b_rest.to_multiset());
        lemma_map_keeps_multiset(rest, b_rest, f);
        assert(a.map_values(f) =~= rest.map_values(f).push(f(x)));
        assert(b.map_values(f) =~= b_rest.map_values(f).insert(j, f(x)));
    }
}

/// Names ordered by the order of strings are fixed by how often each occurs.
proof fn lemma_sorted_names_unique(a: Seq<Seq<char>>, b: Seq<Seq<char>>)
    requires
        a.to_multiset() == b.to_multiset(),
        forall|i: int, j: int| 0 <= i < j < a.len() ==> lex_le(#[trigger] a[i], #[trigger] a[j]),
        forall|i: int, j: int| 0 <= i < j < b.len() ==> lex_le(#[trigger] b[i], #[trigger] b[j]),
    ensures
        a == b,
    decreases a.len(),
{
    broadcast use vstd::seq_lib::group_to_multiset_ensures;

    a.to_multiset_ensures();
    b.to_multiset_ensures();
    if a.len() == 0 {
        assert(b.len() == 0);
        assert(a =~= b);
    } else {
        assert(b.len() == a.len());
        assert(a.to_multiset().count(a[0]) > 0);
        assert(b.contains(a[0]));
        let j = choose|j: int| 0 <= j < b.len() && b[j] == a[0];
        if j > 0 {
            assert(lex_le(b[0], b[j]));
        } else {
            lemma_lex_le_reflexive(b[0]);
        }
        assert(b.to_multiset().count(b[0]) > 0);
        assert(a.contains(b[0]));
        let i = choose|i: int| 0 <= i < a.len() && a[i] == b[0];
        if i > 0 {
            assert(lex_le(a[0], a[i]));
        } else {
            lemma_lex_le_reflexive(a[0]);
        }
        lemma_lex_le_antisymmetric(a[0], b[0]);
        assert(a.remove(0) =~= a.drop_first());
        assert(b.remove(0) =~= b.drop_first());
        let ta = a.drop_first();
        let tb = b.drop_first();
        assert forall|x: int, y: int| 0 <= x < y < ta.len() implies lex_le(#[trigger] ta[x], #[trigger] ta[y]) by {
            assert(lex_le(a[x + 1], a[y + 1]));
        }
        assert forall|x: int, y: int| 0 <= x < y < tb.len() implies lex_le(#[trigger] tb[x], #[trigger] tb[y]) by {
            assert(lex_le(b[x + 1], b[y + 1]));
        }
        lemma_sorted_names_unique(ta, tb);
        assert(a =~= b) by {
            assert forall|x: int| 0 <= x < a.len() implies a[x] == b[x] by {
                if x > 0 {
                    assert(a[x] == ta[x - 1]);
                    assert(b[x] == tb[x - 1]);
                }
            }
        }
    }
}

/// Two listings of one query over one map hold the same entries and the same
/// names in the same order: they differ at most in the order of entries with
/// equal names.
pub proof fn lemma_listings_agree<K, T>(
    m: Map<K, T>,
    name_of: spec_fn(T) -> Seq<char>,
    query: Seq<char>,
    found: Seq<T>,
    other: Seq<T>,
)
    requires
        lists(m, name_of, query, found),
        lists(m, name_of, query, other),
    ensures
        found.len() == other.len(),
        found.map_values(name_of) == other.map_values(name_of),
        forall|x: T| found.contains(x) <==> other.contains(x),
{
    broadcast use vstd::seq_lib::group_to_multiset_ensures;

    let ks = choose|ks: Seq<K>| lists_by_keys(m, name_of, query, found, ks);
    let ko = choose|ks: Seq<K>| lists_by_keys(m, name_of, query, other, ks);
    assert forall|k: K| ks.contains(k) <==> ko.contains(k) by {
        if ks.contains(k) {
            let i = choose|i: int| 0 <= i < ks.len() && ks[i] == k;
            assert(finds(query, name_of(found[i])));
        }
        if ko.contains(k) {
            let i = choose|i: int| 0 <= i < ko.len() && ko[i] == k;
            assert(finds(query, name_of(other[i])));
        }
    }
    lemma_same_unique_values_same_multiset(ks, ko);
    let name_at = |k: K| name_of(m[k]);
    lemma_map_keeps_multiset(ks, ko, name_at);
    assert(found.map_values(name_of) =~= ks.map_values(name_at));
    assert(other.map_values(name_of) =~= ko.map_values(name_at));
    lemma_sorted_names_unique(found.map_values(name_of), other.map_values(name_of));
    assert forall|x: T| found.contains(x) <==> other.contains(x) by {
        if found.contains(x) {
            let i = choose|i: int| 0 <= i < found.len() && found[i] == x;
            assert(ko.contains(ks[i]));
            let j = choose|j: int| 0 <= j < ko.len() && ko[j] == ks[i];
            assert(other[j] == x);
        }
        if other.contains(x) {
            let i = choose|i: int| 0 <= i < other.len() && other[i] == x;
            assert(ks.contains(ko[i]));
            let j = choose|j: int| 0 <= j < ks.len() && ks[j] == ko[i];
            assert(found[j] == x);
        }
    }
}

/// A query of lower-case ASCII text without dashes lists every entry whose
/// name, lower-cased and without dashes, starts with it.
pub proof fn lemma_lower_case_prefix_listed<K, T>(
    m: Map<K, T>,
    name_of: spec_fn(T) -> Seq<char>,
    query: Seq<char>,
    k: K,
    found: Seq<T>,
)
    requires
        forall|i: int|
            0 <= i < query.len() ==> (#[trigger] query[i] as int) < 128 && query[i] != '-' && !(65
                <= (query[i] as int) && (query[i] as int) <= 90),
        m.contains_key(k),
        query.is_prefix_of(normalized(name_of(m[k]))),
        lists(m, name_of, normalized(query), found),
    ensures
        found.contains(m[k]),
{
    lemma_normal_text_is_fixed(query);
    let ks = choose|ks: Seq<K>| lists_by_keys(m, name_of, normalized(query), found, ks);
    assert(ks.contains(k));
    let i = choose|i: int| 0 <= i < ks.len() && ks[i] == k;
    assert(found[i] == m[k]);
}

} // verus!
