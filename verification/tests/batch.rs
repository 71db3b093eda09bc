use std::collections::HashSet;

use typogen::adjacency::create_typo_map;
use typogen::batch::{process_chunk, CHUNK_SIZE};
use typogen::depth::Depth;
use typogen::generator::generate;
use typogen::variant_set::VariantSet;

fn lines(words: &[&str]) -> Vec<String> {
    words.iter().map(|w| w.to_string()).collect()
}

fn as_set(found: &VariantSet) -> HashSet<String> {
    found.lines().iter().cloned().collect()
}

#[test]
fn a_word_twice_in_a_chunk_is_recorded_once() {
    let map = create_typo_map();
    let found = process_chunk(&lines(&["cat", "cat"]), &map, Depth::Bounded(0));
    assert_eq!(found.lines(), &lines(&["cat"]));
    assert_eq!(found.len(), 1);
}

#[test]
fn a_word_in_two_chunks_is_written_twice() {
    let map = create_typo_map();
    let first = process_chunk(&lines(&["cat"]), &map, Depth::Bounded(0));
    let second = process_chunk(&lines(&["cat"]), &map, Depth::Bounded(0));
    let mut output = first.into_lines();
    output.extend(second.into_lines());
    assert_eq!(output, lines(&["cat", "cat"]));
}

#[test]
fn a_chunk_is_the_union_of_its_words() {
    let map = create_typo_map();
    let words = lines(&["zst", "cat", "a", "", "42"]);
    for depth in 0..3 {
        let mut expected = HashSet::new();
        for word in &words {
            expected.extend(generate(word, &map, depth).into_lines());
        }
        let found = process_chunk(&words, &map, Depth::Bounded(depth));
        assert_eq!(as_set(&found), expected);
        assert_eq!(found.len(), expected.len());
        assert_eq!(found.lines().len(), expected.len());
    }
}

#[test]
fn an_earlier_word_hides_nothing_of_a_later_one() {
    let map = create_typo_map();
    // "xat" is two substitutions from "zst" and one from "cat"; "xar" is two
    // from "cat" by way of "xat", and three from "zst".
    let found = process_chunk(&lines(&["zst", "cat"]), &map, Depth::Bounded(2));
    assert!(found.contains("xat"));
    assert!(found.contains("xar"));
}

#[test]
fn full_depth_is_taken_word_by_word() {
    let map = create_typo_map();
    let words = lines(&["a", "pq"]);
    let found = process_chunk(&words, &map, Depth::Full);
    let mut expected = HashSet::new();
    expected.extend(generate("a", &map, 1).into_lines());
    expected.extend(generate("pq", &map, 2).into_lines());
    assert_eq!(as_set(&found), expected);
    assert_eq!(found.len(), 6 + 12);
}

#[test]
fn an_empty_chunk_gives_nothing() {
    let map = create_typo_map();
    let found = process_chunk(&[], &map, Depth::Bounded(1));
    assert!(found.lines().is_empty());
    assert_eq!(found.len(), 0);
}

#[test]
fn chunks_hold_twelve_words() {
    assert_eq!(CHUNK_SIZE, 12);
}

#[test]
fn variant_set_keeps_each_string_once() {
    let mut set = VariantSet::new();
    assert_eq!(set.len(), 0);
    assert!(!set.contains("cat"));
    assert!(set.insert("cat".to_string()));
    assert!(!set.insert("cat".to_string()));
    assert!(set.insert("cot".to_string()));
    assert!(set.contains("cat"));
    assert!(set.contains("cot"));
    assert!(!set.contains("cut"));
    assert_eq!(set.len(), 2);
    assert_eq!(set.lines(), &lines(&["cat", "cot"]));
}

#[test]
fn absorb_is_union() {
    let mut left = VariantSet::new();
    left.insert("a".to_string());
    left.insert("b".to_string());
    let mut right = VariantSet::new();
    right.insert("b".to_string());
    right.insert("c".to_string());
    left.absorb(&right);
    assert_eq!(left.lines(), &lines(&["a", "b", "c"]));
    assert_eq!(right.lines(), &lines(&["b", "c"]));
    assert_eq!(left.len(), 3);
}
