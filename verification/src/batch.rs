//! Chunks of input words.
//!
//! A driver cuts its list of words into chunks of `CHUNK_SIZE` and hands
//! each chunk to `process_chunk`. A chunk's set holds each of its strings
//! once. Nothing is shared between chunks: a string that two chunks produce
//! is in both their sets.

use crate::adjacency::TypoMap;
use crate::depth::Depth;
use crate::generator::generate_into;
use crate::variant_set::VariantSet;
use crate::variants::{lemma_depth_zero, lemma_word_is_variant, variants};
use vstd::prelude::*;

verus! {

/// The number of words in a chunk; the last chunk of a list may have fewer.
pub const CHUNK_SIZE: usize = 12;

/// The words that `lines` hold, in order.
pub open spec fn words_of(lines: Seq<String>) -> Seq<Seq<char>> {
    Seq::new(lines.len(), |k: int| lines[k]@)
}

/// The union of the variant sets of `words`, each word within the depth that
/// `depth` gives for its length.
pub open spec fn chunk_variants(adj: Map<char, Seq<char>>, words: Seq<Seq<char>>, depth: Depth) -> Set<
    Seq<char>,
> {
    Set::new(
        |v: Seq<char>|
            exists|k: int|
                0 <= k < words.len() && variants(
                    adj,
                    #[trigger] words[k],
                    depth.spec_resolve(words[k].len()),
                ).contains(v),
    )
}

/// One more word adds its variant set to that of the chunk.
pub proof fn lemma_chunk_variants_push(
    adj: Map<char, Seq<char>>,
    words: Seq<Seq<char>>,
    word: Seq<char>,
    depth: Depth,
)
    ensures
        chunk_variants(adj, words.push(word), depth) == chunk_variants(adj, words, depth).union(
            variants(adj, word, depth.spec_resolve(word.len())),
        ),
{
    let longer = words.push(word);
    let own = variants(adj, word, depth.spec_resolve(word.len()));
    assert forall|v: Seq<char>| chunk_variants(adj, longer, depth).contains(v) implies chunk_variants(
        adj,
        words,
        depth,
    ).union(own).contains(v) by {
        let k = choose|k: int|
            0 <= k < longer.len() && variants(
                adj,
                #[trigger] longer[k],
                depth.spec_resolve(longer[k].len()),
            ).contains(v);
        if k < words.len() {
            assert(words[k] == longer[k]);
        }
    }
    assert forall|v: Seq<char>|
        chunk_variants(adj, words, depth).union(own).contains(v) implies chunk_variants(
        adj,
        longer,
        depth,
    ).contains(v) by {
        if own.contains(v) {
            assert(longer[words.len() as int] == word);
        } else {
            let k = choose|k: int|
                0 <= k < words.len() && variants(
                    adj,
                    #[trigger] words[k],
                    depth.spec_resolve(words[k].len()),
                ).contains(v);
            assert(longer[k] == words[k]);
        }
    }
    assert(chunk_variants(adj, longer, depth) =~= chunk_variants(adj, words, depth).union(own));
}

/// A chunk's set holds each word of the chunk.
pub proof fn lemma_chunk_holds_its_words(
    adj: Map<char, Seq<char>>,
    words: Seq<Seq<char>>,
    depth: Depth,
    k: int,
)
    requires
        0 <= k < words.len(),
    ensures
        chunk_variants(adj, words, depth).contains(words[k]),
{
    lemma_word_is_variant(adj, words[k], depth.spec_resolve(words[k].len()));
}

/// With depth 0 a chunk's set holds the words of the chunk and nothing else,
/// however often a word occurs in it.
pub proof fn lemma_chunk_depth_zero(adj: Map<char, Seq<char>>, words: Seq<Seq<char>>)
    ensures
        chunk_variants(adj, words, Depth::Bounded(0)) == words.to_set(),
{
    let depth = Depth::Bounded(0);
    assert forall|v: Seq<char>| chunk_variants(adj, words, depth).contains(v) implies words.to_set().contains(
        v,
    ) by {
        let k = choose|k: int|
            0 <= k < words.len() && variants(
                adj,
                #[trigger] words[k],
                depth.spec_resolve(words[k].len()),
            ).contains(v);
        lemma_depth_zero(adj, words[k]);
    }
    assert forall|v: Seq<char>| words.to_set().contains(v) implies chunk_variants(
        adj,
        words,
        depth,
    ).contains(v) by {
        let k = choose|k: int| 0 <= k < words.len() && words[k] == v;
        lemma_chunk_holds_its_words(adj, words, depth, k);
    }
    assert(chunk_variants(adj, words, depth) =~= words.to_set());
}

/// The set of one chunk: the variants of each of its words, each string once.
pub fn process_chunk(chunk: &[String], typo_map: &TypoMap, depth: Depth) -> (seen: VariantSet)
    ensures
        seen.wf(),
        seen@ == chunk_variants(typo_map@, words_of(chunk@), depth),
{
    let ghost adj = typo_map@;
    let ghost words = words_of(chunk@);
    let mut seen = VariantSet::new();
    assert(seen@ =~= chunk_variants(adj, words.take(0), depth));
    let mut k: usize = 0;
    while k < chunk.len()
        invariant
            adj == typo_map@,
            words == words_of(chunk@),
            k <= chunk.len(),
            seen.wf(),
            seen@ == chunk_variants(adj, words.take(k as int), depth),
        decreases chunk.len() - k,
    {
        generate_into(chunk[k].as_str(), typo_map, depth, &mut seen);
        proof {
            lemma_chunk_variants_push(adj, words.take(k as int), words[k as int], depth);
            assert(words.take(k as int).push(words[k as int]) =~= words.take(k + 1));
        }
        k = k + 1;
    }
    assert(words.take(k as int) =~= words);
    seen
}

} // verus!
