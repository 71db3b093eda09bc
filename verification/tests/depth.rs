use typogen::depth::{is_full, parse_depth, parse_plain_integer, Depth};
use typogen::text::{chars_of, string_from_chars, with_char_at};

fn chars(text: &str) -> Vec<char> {
    text.chars().collect()
}

#[test]
fn full_in_any_case_is_the_full_depth() {
    for text in ["full", "FULL", "Full", "fUlL"] {
        assert_eq!(parse_depth(text), Depth::Full);
        assert!(is_full(&chars(text)));
    }
}

#[test]
fn near_misses_of_full_are_not_full() {
    for text in ["ful", "fulll", " full", "full ", "fu11", ""] {
        assert!(!is_full(&chars(text)));
        assert_eq!(parse_depth(text), Depth::Bounded(1));
    }
}

#[test]
fn plain_integers_are_bounds() {
    assert_eq!(parse_depth("0"), Depth::Bounded(0));
    assert_eq!(parse_depth("1"), Depth::Bounded(1));
    assert_eq!(parse_depth("2"), Depth::Bounded(2));
    assert_eq!(parse_depth("42"), Depth::Bounded(42));
    assert_eq!(parse_depth("007"), Depth::Bounded(7));
    assert_eq!(parse_depth("+3"), Depth::Bounded(3));
    assert_eq!(parse_depth(&usize::MAX.to_string()), Depth::Bounded(usize::MAX));
}

#[test]
fn anything_else_is_the_bound_one() {
    for text in ["", "+", "-1", "-0", "1.5", " 2", "2 ", "two", "3x", "++3", "٣"] {
        assert_eq!(parse_depth(text), Depth::Bounded(1));
    }
}

#[test]
fn a_number_too_large_is_the_bound_one() {
    let too_large = format!("{}0", usize::MAX);
    assert_eq!(parse_depth(&too_large), Depth::Bounded(1));
    assert_eq!(parse_plain_integer(&chars(&too_large)), None);
    assert_eq!(parse_plain_integer(&chars("99999999999999999999999999999999")), None);
}

#[test]
fn plain_integer_reads_as_the_standard_parser_does() {
    for text in ["0", "5", "+5", "0005", "", "+", "-", "-5", "5a", "a5", " 5", "18446744073709551615",
        "18446744073709551616", "+0", "００"]
    {
        assert_eq!(parse_plain_integer(&chars(text)), text.parse::<usize>().ok());
    }
}

#[test]
fn depth_resolves_per_word() {
    assert_eq!(Depth::Full.resolve(0), 0);
    assert_eq!(Depth::Full.resolve(3), 3);
    assert_eq!(Depth::Full.resolve(usize::MAX), usize::MAX);
    assert_eq!(Depth::Bounded(2).resolve(0), 2);
    assert_eq!(Depth::Bounded(2).resolve(9), 2);
    assert_eq!(Depth::Bounded(0).resolve(9), 0);
}

#[test]
fn strings_and_characters_convert_both_ways() {
    for text in ["", "cat", "naïve", "日本語", "a b"] {
        let cs = chars_of(text);
        assert_eq!(cs, chars(text));
        assert_eq!(string_from_chars(&cs), text);
    }
}

#[test]
fn with_char_at_replaces_one_position() {
    let word = chars("cat");
    assert_eq!(with_char_at(&word, 0, 'x'), chars("xat"));
    assert_eq!(with_char_at(&word, 1, 'q'), chars("cqt"));
    assert_eq!(with_char_at(&word, 2, 'r'), chars("car"));
    assert_eq!(word, chars("cat"));
    assert_eq!(with_char_at(&chars("éa"), 1, 'q'), chars("éq"));
}
