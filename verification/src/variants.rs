//! What a variant of a word is.

use crate::adjacency::neighbors_of;
use vstd::prelude::*;

verus! {

/// `to` may stand where the word has `from`: it is `from` itself or one of
/// its neighbours.
pub open spec fn admissible(adj: Map<char, Seq<char>>, from: char, to: char) -> bool {
    to == from || neighbors_of(adj, from).contains(to)
}

/// `v` has the characters of `w` at every position before `n`.
pub open spec fn agree_before(w: Seq<char>, v: Seq<char>, n: int) -> bool {
    forall|p: int| 0 <= p < n && p < w.len() ==> #[trigger] v[p] == w[p]
}

/// The number of positions from `start` on at which `v` differs from `w`.
pub open spec fn differences_from(w: Seq<char>, v: Seq<char>, start: int) -> nat
    decreases w.len() - start,
{
    if start < 0 || start >= w.len() {
        0
    } else {
        (if v[start] != w[start] {
            1nat
        } else {
            0nat
        }) + differences_from(w, v, start + 1)
    }
}

/// The number of positions at which `v` differs from `w`.
pub open spec fn differences(w: Seq<char>, v: Seq<char>) -> nat {
    differences_from(w, v, 0)
}

/// `v` is a variant of `w` within `depth` that keeps the first `start`
/// characters: it has the length of `w`, each of its characters is the one
/// of `w` or a neighbour of it, and at most `depth` of them differ, none of
/// them before `start`.
pub open spec fn is_variant_from(
    adj: Map<char, Seq<char>>,
    w: Seq<char>,
    start: int,
    depth: nat,
    v: Seq<char>,
) -> bool {
    &&& v.len() == w.len()
    &&& agree_before(w, v, start)
    &&& forall|p: int| 0 <= p < w.len() ==> admissible(adj, w[p], #[trigger] v[p])
    &&& differences(w, v) <= depth
}

/// `v` is a variant of `w` within `depth`.
pub open spec fn is_variant(adj: Map<char, Seq<char>>, w: Seq<char>, depth: nat, v: Seq<char>) -> bool {
    is_variant_from(adj, w, 0, depth, v)
}

/// The variants of `w` within `depth` that keep the first `start` characters.
pub open spec fn variants_from(adj: Map<char, Seq<char>>, w: Seq<char>, start: int, depth: nat) -> Set<
    Seq<char>,
> {
    Set::new(|v: Seq<char>| is_variant_from(adj, w, start, depth, v))
}

/// The variant set of `w`: every string that results from replacing at most
/// `depth` characters of `w`, each by one of its neighbours in `adj`.
pub open spec fn variants(adj: Map<char, Seq<char>>, w: Seq<char>, depth: nat) -> Set<Seq<char>> {
    variants_from(adj, w, 0, depth)
}

/// Positions before `from` do not count in `differences_from`, and where `v`
/// and `w` agree between `from` and `to`, counting may start at `to`.
pub proof fn lemma_differences_skip_agreeing(w: Seq<char>, v: Seq<char>, from: int, to: int)
    requires
        0 <= from <= to,
        forall|p: int| from <= p < to && p < w.len() ==> v[p] == w[p],
    ensures
        differences_from(w, v, from) == differences_from(w, v, to),
    decreases to - from,
{
    if from < to {
        lemma_differences_skip_agreeing(w, v, from + 1, to);
    }
}

/// `differences_from` looks at `w` only from `from` on.
pub proof fn lemma_differences_same_tail(w1: Seq<char>, w2: Seq<char>, v: Seq<char>, from: int)
    requires
        w1.len() == w2.len(),
        0 <= from,
        forall|p: int| from <= p < w1.len() ==> w1[p] == w2[p],
    ensures
        differences_from(w1, v, from) == differences_from(w2, v, from),
    decreases w1.len() - from,
{
    if from < w1.len() {
        lemma_differences_same_tail(w1, w2, v, from + 1);
    }
}

/// No more positions differ than there are.
pub proof fn lemma_differences_bounded(w: Seq<char>, v: Seq<char>, from: int)
    requires
        0 <= from,
    ensures
        differences_from(w, v, from) <= (if from <= w.len() {
            w.len() - from
        } else {
            0
        }),
    decreases w.len() - from,
{
    if from < w.len() {
        lemma_differences_bounded(w, v, from + 1);
    }
}

/// Where no position from `from` on differs, `v` has the characters of `w`
/// there.
pub proof fn lemma_no_differences(w: Seq<char>, v: Seq<char>, from: int)
    requires
        0 <= from,
        differences_from(w, v, from) == 0,
    ensures
        forall|p: int| from <= p < w.len() ==> v[p] == w[p],
    decreases w.len() - from,
{
    if from < w.len() {
        lemma_no_differences(w, v, from + 1);
    }
}

/// A word differs from itself nowhere.
pub proof fn lemma_differences_self(w: Seq<char>, from: int)
    requires
        0 <= from,
    ensures
        differences_from(w, w, from) == 0,
    decreases w.len() - from,
{
    if from < w.len() {
        lemma_differences_self(w, from + 1);
    }
}

/// With depth 0 nothing may change, wherever the cursor stands: the word is
/// the only variant.
pub proof fn lemma_depth_zero_from(adj: Map<char, Seq<char>>, w: Seq<char>, start: int)
    ensures
        variants_from(adj, w, start, 0) == set![w],
{
    lemma_differences_self(w, 0);
    assert forall|v: Seq<char>| variants_from(adj, w, start, 0).contains(v) implies v == w by {
        lemma_no_differences(w, v, 0);
        assert(v =~= w);
    }
    assert(variants_from(adj, w, start, 0) =~= set![w]);
}

/// With depth 0 the variant set of a word holds the word and nothing else.
pub proof fn lemma_depth_zero(adj: Map<char, Seq<char>>, w: Seq<char>)
    ensures
        variants(adj, w, 0) == set![w],
{
    lemma_depth_zero_from(adj, w, 0);
}

/// The word itself is in its variant set, whatever the depth.
pub proof fn lemma_word_is_variant(adj: Map<char, Seq<char>>, w: Seq<char>, depth: nat)
    ensures
        variants(adj, w, depth).contains(w),
{
    lemma_differences_self(w, 0);
}

/// A larger depth loses no variant.
pub proof fn lemma_monotone_in_depth(adj: Map<char, Seq<char>>, w: Seq<char>, d1: nat, d2: nat)
    requires
        d1 <= d2,
    ensures
        variants(adj, w, d1).subset_of(variants(adj, w, d2)),
{
}

/// A word none of whose characters has an entry in the map has no variant
/// but itself, whatever the depth.
pub proof fn lemma_nothing_to_substitute(adj: Map<char, Seq<char>>, w: Seq<char>, depth: nat)
    requires
        forall|p: int| 0 <= p < w.len() ==> !adj.contains_key(#[trigger] w[p]),
    ensures
        variants(adj, w, depth) == set![w],
{
    lemma_word_is_variant(adj, w, depth);
    assert forall|v: Seq<char>| variants(adj, w, depth).contains(v) implies v == w by {
        assert forall|p: int| 0 <= p < w.len() implies v[p] == w[p] by {
            assert(admissible(adj, w[p], v[p]));
            assert(!adj.contains_key(w[p]));
        }
        assert(v =~= w);
    }
    assert(variants(adj, w, depth) =~= set![w]);
}

/// Every variant has the length of the word, and differs from it at no more
/// positions than the depth allows and than the word has.
pub proof fn lemma_variant_shape(adj: Map<char, Seq<char>>, w: Seq<char>, depth: nat, v: Seq<char>)
    requires
        variants(adj, w, depth).contains(v),
    ensures
        v.len() == w.len(),
        differences(w, v) <= depth,
        differences(w, v) <= w.len(),
{
    lemma_differences_bounded(w, v, 0);
}

/// A depth beyond the length of the word gives what the length itself gives.
pub proof fn lemma_depth_beyond_length(adj: Map<char, Seq<char>>, w: Seq<char>, depth: nat)
    requires
        depth >= w.len(),
    ensures
        variants(adj, w, depth) == variants(adj, w, w.len()),
{
    assert forall|v: Seq<char>| variants(adj, w, depth).contains(v) implies variants(
        adj,
        w,
        w.len(),
    ).contains(v) by {
        lemma_differences_bounded(w, v, 0);
    }
    assert(variants(adj, w, depth) =~= variants(adj, w, w.len()));
}

} // verus!
