//! The depth of a run: how many characters of a word may be replaced.

use crate::text::chars_of;
use crate::variants::variants;
use vstd::prelude::*;

verus! {

/// A requested depth: a fixed number of substitutions, or as many as the
/// word has characters.
#[derive(Clone, Copy, Debug, PartialEq, Eq, Structural)]
pub enum Depth {
    /// At most this many substitutions in every word.
    Bounded(usize),
    /// No bound but the length of the word.
    Full,
}

impl Depth {
    /// The depth for a word of `word_len` characters.
    pub open spec fn spec_resolve(self, word_len: nat) -> nat {
        match self {
            Depth::Bounded(n) => n as nat,
            Depth::Full => word_len,
        }
    }

    /// The depth for a word of `word_len` characters.
    pub fn resolve(&self, word_len: usize) -> (depth: usize)
        ensures
            depth == self.spec_resolve(word_len as nat),
    {
        match self {
            Depth::Bounded(n) => *n,
            Depth::Full => word_len,
        }
    }
}

/// `text` is the word "full", in upper or lower case or a mix of them.
pub open spec fn is_full_request(text: Seq<char>) -> bool {
    &&& text.len() == 4
    &&& (text[0] == 'f' || text[0] == 'F')
    &&& (text[1] == 'u' || text[1] == 'U')
    &&& (text[2] == 'l' || text[2] == 'L')
    &&& (text[3] == 'l' || text[3] == 'L')
}

/// `c` is one of the digits 0 to 9.
pub open spec fn is_digit(c: char) -> bool {
    '0' <= c <= '9'
}

/// The number that the digit `c` stands for.
pub open spec fn digit_value(c: char) -> nat {
    (c as int - '0' as int) as nat
}

/// Every character of `digits` is a digit.
pub open spec fn all_digits(digits: Seq<char>) -> bool {
    forall|i: int| 0 <= i < digits.len() ==> is_digit(#[trigger] digits[i])
}

/// The number that `digits` writes in base ten.
pub open spec fn decimal_value(digits: Seq<char>) -> nat
    decreases digits.len(),
{
    if digits.len() == 0 {
        0
    } else {
        10 * decimal_value(digits.drop_last()) + digit_value(digits.last())
    }
}

/// `text` without one plus sign in front, where it has one.
pub open spec fn unsigned_part(text: Seq<char>) -> Seq<char> {
    if text.len() > 0 && text[0] == '+' {
        text.skip(1)
    } else {
        text
    }
}

/// The number that `text` writes as a plain integer: digits, at least one,
/// after at most one plus sign, and no more than a `usize` holds.
pub open spec fn plain_integer(text: Seq<char>) -> Option<usize> {
    let digits = unsigned_part(text);
    if digits.len() > 0 && all_digits(digits) && decimal_value(digits) <= usize::MAX {
        Some(decimal_value(digits) as usize)
    } else {
        None
    }
}

/// The depth that `text` asks for: "full" in any case is the full depth, a
/// plain integer is that bound, and anything else is the bound 1.
pub open spec fn spec_parse_depth(text: Seq<char>) -> Depth {
    if is_full_request(text) {
        Depth::Full
    } else {
        match plain_integer(text) {
            Some(n) => Depth::Bounded(n),
            None => Depth::Bounded(1),
        }
    }
}

/// More digits do not make a number smaller.
pub proof fn lemma_decimal_value_grows(digits: Seq<char>, n: int)
    requires
        0 <= n <= digits.len(),
    ensures
        decimal_value(digits.take(n)) <= decimal_value(digits),
    decreases digits.len() - n,
{
    if n < digits.len() {
        lemma_decimal_value_grows(digits, n + 1);
        assert(digits.take(n + 1).drop_last() =~= digits.take(n));
    } else {
        assert(digits.take(n) =~= digits);
    }
}

/// Whether `text` is the word "full" in any case.
pub fn is_full(text: &Vec<char>) -> (full: bool)
    ensures
        full == is_full_request(text@),
{
    text.len() == 4 && (text[0] == 'f' || text[0] == 'F') && (text[1] == 'u' || text[1] == 'U') && (
    text[2] == 'l' || text[2] == 'L') && (text[3] == 'l' || text[3] == 'L')
}

/// Reads `text` as a plain integer.
pub fn parse_plain_integer(text: &Vec<char>) -> (value: Option<usize>)
    ensures
        value == plain_integer(text@),
{
    let first: usize = if text.len() > 0 && text[0] == '+' {
        1
    } else {
        0
    };
    let ghost digits = unsigned_part(text@);
    assert(digits =~= text@.skip(first as int));
    if first == text.len() {
        return None;
    }
    let mut value: usize = 0;
    let mut i: usize = first;
    assert(digits.take(0) =~= Seq::<char>::empty());
    while i < text.len()
        invariant
            first <= i <= text.len(),
            digits == unsigned_part(text@),
            digits == text@.skip(first as int),
            all_digits(digits.take(i - first)),
            value == decimal_value(digits.take(i - first)),
        decreases text.len() - i,
    {
        let c = text[i];
        let ghost k = i - first;
        assert(digits[k] == c);
        assert(digits.take(k + 1).drop_last() =~= digits.take(k));
        assert(digits.take(k + 1).last() == c);
        if !('0' <= c && c <= '9') {
            assert(!is_digit(digits[k]));
            return None;
        }
        let digit: usize = (c as u32 - '0' as u32) as usize;
        assert(digit == digit_value(c));
        let grown = match value.checked_mul(10) {
            Some(tenfold) => tenfold.checked_add(digit),
            None => None,
        };
        match grown {
            Some(next) => {
                value = next;
            },
            None => {
                proof {
                    assert(decimal_value(digits.take(k + 1)) > usize::MAX);
                    lemma_decimal_value_grows(digits, k + 1);
                }
                return None;
            },
        }
        assert forall|p: int| 0 <= p < digits.take(k + 1).len() implies is_digit(
            #[trigger] digits.take(k + 1)[p],
        ) by {
            if p < k {
                assert(digits.take(k)[p] == digits.take(k + 1)[p]);
            }
        }
        i = i + 1;
    }
    assert(digits.take(i - first) =~= digits);
    Some(value)
}

/// Reads a requested depth: "full" in any case is the full depth, a plain
/// integer is that bound, and anything else is the bound 1.
pub fn parse_depth(text: &str) -> (depth: Depth)
    ensures
        depth == spec_parse_depth(text@),
{
    let chars = chars_of(text);
    if is_full(&chars) {
        Depth::Full
    } else {
        match parse_plain_integer(&chars) {
            Some(n) => Depth::Bounded(n),
            None => Depth::Bounded(1),
        }
    }
}

/// To ask for "full" is to ask, for each word, for its length: both give the
/// same variant set.
pub proof fn lemma_full_is_word_length(adj: Map<char, Seq<char>>, w: Seq<char>)
    ensures
        spec_parse_depth("full"@) == Depth::Full,
        variants(adj, w, spec_parse_depth("full"@).spec_resolve(w.len())) == variants(
            adj,
            w,
            w.len(),
        ),
{
    reveal_strlit("full");
}

} // verus!
