//! The adjacency model: which keys lie next to which on a QWERTY keyboard.

use std::collections::HashMap;
use vstd::prelude::*;

verus! {

/// The letters on the keys next to `c` on a QWERTY keyboard, row by row from
/// the top; none for a character that is no lower-case letter.
pub open spec fn qwerty_neighbors(c: char) -> Seq<char> {
    match c {
        'q' => seq!['w', 'a', 's'],
        'w' => seq!['q', 'e', 'a', 's', 'd'],
        'e' => seq!['w', 'r', 's', 'd', 'f'],
        'r' => seq!['e', 't', 'd', 'f', 'g'],
        't' => seq!['r', 'y', 'f', 'g', 'h'],
        'y' => seq!['t', 'u', 'g', 'h', 'j'],
        'u' => seq!['y', 'i', 'h', 'j', 'k'],
        'i' => seq!['u', 'o', 'j', 'k', 'l'],
        'o' => seq!['i', 'p', 'k', 'l'],
        'p' => seq!['o', 'l'],
        'a' => seq!['q', 'w', 's', 'z', 'x'],
        's' => seq!['q', 'w', 'e', 'a', 'd', 'z', 'x', 'c'],
        'd' => seq!['w', 'e', 'r', 's', 'f', 'x', 'c', 'v'],
        'f' => seq!['e', 'r', 't', 'd', 'g', 'c', 'v', 'b'],
        'g' => seq!['r', 't', 'y', 'f', 'h', 'v', 'b', 'n'],
        'h' => seq!['t', 'y', 'u', 'g', 'j', 'b', 'n', 'm'],
        'j' => seq!['y', 'u', 'i', 'h', 'k', 'n', 'm'],
        'k' => seq!['u', 'i', 'o', 'j', 'l', 'm'],
        'l' => seq!['i', 'o', 'p', 'k'],
        'z' => seq!['a', 's', 'x'],
        'x' => seq!['z', 'a', 's', 'd', 'c'],
        'c' => seq!['x', 's', 'd', 'f', 'v'],
        'v' => seq!['c', 'd', 'f', 'g', 'b'],
        'b' => seq!['v', 'f', 'g', 'h', 'n'],
        'n' => seq!['b', 'g', 'h', 'j', 'm'],
        'm' => seq!['n', 'h', 'j', 'k'],
        _ => Seq::empty(),
    }
}

/// The QWERTY adjacency map: an entry for each lower-case letter and for
/// nothing else.
pub open spec fn qwerty() -> Map<char, Seq<char>> {
    Map::new(|c: char| 'a' <= c <= 'z', |c: char| qwerty_neighbors(c))
}

/// The neighbours of `c` in `adj`, in the map's order; none where `c` has no
/// entry.
pub open spec fn neighbors_of(adj: Map<char, Seq<char>>, c: char) -> Seq<char> {
    if adj.contains_key(c) {
        adj[c]
    } else {
        Seq::empty()
    }
}

/// On the QWERTY map no key is its own neighbour, and every neighbour is a
/// lower-case letter.
pub proof fn lemma_qwerty_neighbors_are_other_letters(c: char, r: char)
    requires
        neighbors_of(qwerty(), c).contains(r),
    ensures
        r != c,
        'a' <= r <= 'z',
{
    let row = qwerty_neighbors(c);
    let i = choose|i: int| 0 <= i < row.len() && row[i] == r;
    assert(row[i] == r);
}

/// On the QWERTY map adjacency is mutual: where `d` lies next to `c`, `c`
/// lies next to `d`.
pub proof fn lemma_qwerty_is_mutual(c: char, d: char)
    requires
        neighbors_of(qwerty(), c).contains(d),
    ensures
        neighbors_of(qwerty(), d).contains(c),
{
    let row = qwerty_neighbors(c);
    let i = choose|i: int| 0 <= i < row.len() && row[i] == d;
    assert(row[i] == d);
    let back = qwerty_neighbors(d);
    assert(exists|k: int| 0 <= k < 8 && k < back.len() && back[k] == c) by {
        assert((0 < back.len() && back[0] == c) || (1 < back.len() && back[1] == c) || (2
            < back.len() && back[2] == c) || (3 < back.len() && back[3] == c) || (4 < back.len()
            && back[4] == c) || (5 < back.len() && back[5] == c) || (6 < back.len() && back[6] == c)
            || (7 < back.len() && back[7] == c));
    }
    let k = choose|k: int| 0 <= k < 8 && k < back.len() && back[k] == c;
    assert(back[k] == c);
    lemma_qwerty_neighbors_are_other_letters(c, d);
}

/// The number under which the row of `c` is kept: its code point.
pub open spec fn spec_key_of(c: char) -> u32 {
    c as u32
}

/// The number under which the row of `c` is kept: its code point.
#[verifier::when_used_as_spec(spec_key_of)]
pub fn key_of(c: char) -> (key: u32)
    ensures
        key == spec_key_of(c),
{
    c as u32
}

/// No code point is cut off in the key, so no two characters share one.
pub proof fn lemma_key_is_code_point(c: char)
    ensures
        spec_key_of(c) == c as int,
{
}

/// An adjacency map: for some characters, the characters that may replace
/// them, in a fixed order.
pub struct TypoMap {
    rows: HashMap<u32, Vec<char>>,
}

impl View for TypoMap {
    type V = Map<char, Seq<char>>;

    closed spec fn view(&self) -> Map<char, Seq<char>> {
        Map::new(
            |c: char| self.rows@.contains_key(spec_key_of(c)),
            |c: char| self.rows@[spec_key_of(c)]@,
        )
    }
}

impl TypoMap {
    /// The row of `c`, where it has one.
    pub fn get(&self, c: char) -> (row: Option<&Vec<char>>)
        ensures
            match row {
                Some(neighbors) => self@.contains_key(c) && neighbors@ == self@[c],
                None => !self@.contains_key(c),
            },
    {
        self.rows.get(&key_of(c))
    }
}

/// The QWERTY adjacency map.
pub fn create_typo_map() -> (typo_map: TypoMap)
    ensures
        typo_map@ == qwerty(),
{
    let mut rows: HashMap<u32, Vec<char>> = HashMap::new();
    rows.insert(key_of('q'), vec!['w', 'a', 's']);
    rows.insert(key_of('w'), vec!['q', 'e', 'a', 's', 'd']);
    rows.insert(key_of('e'), vec!['w', 'r', 's', 'd', 'f']);
    rows.insert(key_of('r'), vec!['e', 't', 'd', 'f', 'g']);
    rows.insert(key_of('t'), vec!['r', 'y', 'f', 'g', 'h']);
    rows.insert(key_of('y'), vec!['t', 'u', 'g', 'h', 'j']);
    rows.insert(key_of('u'), vec!['y', 'i', 'h', 'j', 'k']);
    rows.insert(key_of('i'), vec!['u', 'o', 'j', 'k', 'l']);
    rows.insert(key_of('o'), vec!['i', 'p', 'k', 'l']);
    rows.insert(key_of('p'), vec!['o', 'l']);
    rows.insert(key_of('a'), vec!['q', 'w', 's', 'z', 'x']);
    rows.insert(key_of('s'), vec!['q', 'w', 'e', 'a', 'd', 'z', 'x', 'c']);
    rows.insert(key_of('d'), vec!['w', 'e', 'r', 's', 'f', 'x', 'c', 'v']);
    rows.insert(key_of('f'), vec!['e', 'r', 't', 'd', 'g', 'c', 'v', 'b']);
    rows.insert(key_of('g'), vec!['r', 't', 'y', 'f', 'h', 'v', 'b', 'n']);
    rows.insert(key_of('h'), vec!['t', 'y', 'u', 'g', 'j', 'b', 'n', 'm']);
    rows.insert(key_of('j'), vec!['y', 'u', 'i', 'h', 'k', 'n', 'm']);
    rows.insert(key_of('k'), vec!['u', 'i', 'o', 'j', 'l', 'm']);
    rows.insert(key_of('l'), vec!['i', 'o', 'p', 'k']);
    rows.insert(key_of('z'), vec!['a', 's', 'x']);
    rows.insert(key_of('x'), vec!['z', 'a', 's', 'd', 'c']);
    rows.insert(key_of('c'), vec!['x', 's', 'd', 'f', 'v']);
    rows.insert(key_of('v'), vec!['c', 'd', 'f', 'g', 'b']);
    rows.insert(key_of('b'), vec!['v', 'f', 'g', 'h', 'n']);
    rows.insert(key_of('n'), vec!['b', 'g', 'h', 'j', 'm']);
    rows.insert(key_of('m'), vec!['n', 'h', 'j', 'k']);
    let typo_map = TypoMap { rows };
    proof {
        assert forall|c: char| typo_map@.contains_key(c) <==> qwerty().contains_key(c) by {
            lemma_key_is_code_point(c);
        }
        assert forall|c: char| qwerty().contains_key(c) implies typo_map@[c] =~= qwerty()[c] by {
            lemma_key_is_code_point(c);
        }
        assert(typo_map@ =~~= qwerty());
    }
    typo_map
}

} // verus!
