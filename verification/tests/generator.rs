use std::collections::HashSet;

use typogen::adjacency::{create_typo_map, key_of};
use typogen::generator::{generate, generate_into, generate_resolved};
use typogen::depth::Depth;
use typogen::variant_set::VariantSet;

fn as_set(found: &VariantSet) -> HashSet<String> {
    found.lines().iter().cloned().collect()
}

fn set_of(words: &[&str]) -> HashSet<String> {
    words.iter().map(|w| w.to_string()).collect()
}

fn differing_positions(a: &str, b: &str) -> usize {
    a.chars().zip(b.chars()).filter(|(x, y)| x != y).count()
}

#[test]
fn depth_zero_gives_the_word_alone() {
    let map = create_typo_map();
    for word in ["cat", "a", "", "123", "Hello, world"] {
        let found = generate(word, &map, 0);
        assert_eq!(as_set(&found), set_of(&[word]));
        assert_eq!(found.len(), 1);
    }
}

#[test]
fn the_word_is_always_a_variant() {
    let map = create_typo_map();
    for word in ["cat", "a", "", "123", "qwerty"] {
        for depth in 1..4 {
            assert!(generate(word, &map, depth).contains(word));
        }
    }
}

#[test]
fn a_larger_depth_loses_nothing() {
    let map = create_typo_map();
    for word in ["cat", "keys", "a1b"] {
        let mut smaller = as_set(&generate(word, &map, 0));
        for depth in 1..4 {
            let larger = as_set(&generate(word, &map, depth));
            assert!(smaller.is_subset(&larger));
            smaller = larger;
        }
    }
}

#[test]
fn nothing_to_substitute_gives_the_word_alone() {
    let map = create_typo_map();
    for word in ["123", "CAT", "!?", "4 2"] {
        for depth in 0..4 {
            assert_eq!(as_set(&generate(word, &map, depth)), set_of(&[word]));
        }
    }
}

#[test]
fn empty_word_gives_the_empty_string_alone() {
    let map = create_typo_map();
    for depth in 0..3 {
        let found = generate("", &map, depth);
        assert_eq!(found.lines(), &vec![String::new()]);
    }
}

#[test]
fn variants_keep_the_length_and_stay_within_the_depth() {
    let map = create_typo_map();
    let word = "grape";
    for depth in 0..4 {
        let found = generate(word, &map, depth);
        for line in found.lines() {
            assert_eq!(line.chars().count(), word.chars().count());
            assert!(differing_positions(word, line) <= depth.min(word.len()));
        }
    }
}

#[test]
fn cat_at_depth_one() {
    let map = create_typo_map();
    let found = as_set(&generate("cat", &map, 1));
    let expected = set_of(&[
        "cat", "xat", "sat", "dat", "fat", "vat", "cqt", "cwt", "cst", "czt", "cxt", "car", "cay",
        "caf", "cag", "cah",
    ]);
    assert_eq!(found, expected);
    // q, w and z lie next to a, not next to c: they replace the a only.
    for absent in ["qat", "wat", "zat"] {
        assert!(!found.contains(absent));
    }
}

#[test]
fn a_at_depth_one_is_exactly_six_strings() {
    let map = create_typo_map();
    let found = generate("a", &map, 1);
    assert_eq!(as_set(&found), set_of(&["a", "q", "w", "s", "z", "x"]));
    assert_eq!(found.len(), 6);
    assert_eq!(found.lines().len(), 6);
}

#[test]
fn lines_come_in_order_of_discovery() {
    let map = create_typo_map();
    let found = generate("a", &map, 1);
    let expected: Vec<String> = ["a", "q", "w", "s", "z", "x"].iter().map(|s| s.to_string()).collect();
    assert_eq!(found.lines(), &expected);
    assert_eq!(found.into_lines(), expected);
}

#[test]
fn depth_beyond_the_length_is_the_length() {
    let map = create_typo_map();
    for word in ["a", "pq", "x1"] {
        let at_length = as_set(&generate(word, &map, word.len()));
        assert_eq!(as_set(&generate(word, &map, word.len() + 1)), at_length);
        assert_eq!(as_set(&generate(word, &map, usize::MAX)), at_length);
    }
}

#[test]
fn two_substitutions_count_every_pair_once() {
    let map = create_typo_map();
    // p has 2 neighbours, q has 3: 1 + 2 + 3 + 2 * 3 strings.
    let found = generate("pq", &map, 2);
    assert_eq!(found.len(), 12);
    assert_eq!(
        as_set(&found),
        set_of(&["pq", "oq", "lq", "pw", "pa", "ps", "ow", "oa", "os", "lw", "la", "ls"]),
    );
}

#[test]
fn positions_are_characters_not_bytes() {
    let map = create_typo_map();
    let found = as_set(&generate("éa", &map, 1));
    assert_eq!(found, set_of(&["éa", "éq", "éw", "és", "éz", "éx"]));
}

#[test]
fn full_depth_is_the_length_of_the_word() {
    let map = create_typo_map();
    for word in ["a", "pq", "cat", "", "12"] {
        let full = as_set(&generate_resolved(word, &map, Depth::Full));
        let explicit = as_set(&generate(word, &map, word.chars().count()));
        assert_eq!(full, explicit);
    }
}

#[test]
fn bounded_depth_resolves_to_its_bound() {
    let map = create_typo_map();
    let resolved = as_set(&generate_resolved("cat", &map, Depth::Bounded(1)));
    assert_eq!(resolved, as_set(&generate("cat", &map, 1)));
}

#[test]
fn the_table_is_the_qwerty_layout() {
    let map = create_typo_map();
    assert_eq!(map.get('q'), Some(&vec!['w', 'a', 's']));
    assert_eq!(map.get('a'), Some(&vec!['q', 'w', 's', 'z', 'x']));
    assert_eq!(map.get('s'), Some(&vec!['q', 'w', 'e', 'a', 'd', 'z', 'x', 'c']));
    assert_eq!(map.get('m'), Some(&vec!['n', 'h', 'j', 'k']));
    assert_eq!(map.get('p'), Some(&vec!['o', 'l']));
    for c in 'a'..='z' {
        let row = map.get(c).expect("every lower-case letter has a row");
        assert!(!row.is_empty());
        assert!(!row.contains(&c));
        assert!(row.iter().all(|r| r.is_ascii_lowercase()));
    }
    for c in ['A', 'Z', '0', '9', ' ', '-', 'é', '`', '{'] {
        assert_eq!(map.get(c), None);
    }
    assert_eq!(key_of('a'), 97);
}

#[test]
fn adjacency_is_mutual() {
    let map = create_typo_map();
    for c in 'a'..='z' {
        for d in map.get(c).expect("every lower-case letter has a row") {
            let back = map.get(*d).expect("every neighbour has a row");
            assert!(back.contains(&c), "{} lists {}, but {} does not list {}", c, d, d, c);
        }
    }
    assert!(map.get('q').unwrap().contains(&'s'));
    assert!(map.get('s').unwrap().contains(&'q'));
}

#[test]
fn depth_zero_adds_the_word_to_whatever_is_there() {
    let map = create_typo_map();
    let mut seen = VariantSet::new();
    generate_into("cat", &map, Depth::Bounded(0), &mut seen);
    assert_eq!(seen.lines(), &vec!["cat".to_string()]);
    seen.insert("xyz".to_string());
    generate_into("dog", &map, Depth::Bounded(0), &mut seen);
    generate_into("cat", &map, Depth::Bounded(0), &mut seen);
    generate_into("", &map, Depth::Full, &mut seen);
    let expected: Vec<String> = ["cat", "xyz", "dog", ""].iter().map(|s| s.to_string()).collect();
    assert_eq!(seen.lines(), &expected);
    assert_eq!(seen.len(), 4);
}

#[test]
fn generate_into_keeps_what_is_there_and_adds_every_variant() {
    let map = create_typo_map();
    let mut seen = VariantSet::new();
    // "xat" is a variant of "cat"; finding it in the set must not hide "xar".
    seen.insert("xat".to_string());
    seen.insert("unrelated".to_string());
    generate_into("cat", &map, Depth::Bounded(2), &mut seen);
    let mut expected = as_set(&generate("cat", &map, 2));
    expected.insert("unrelated".to_string());
    assert!(expected.contains("xar"));
    assert_eq!(as_set(&seen), expected);
}
