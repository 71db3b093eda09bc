//! The variant generator.
//!
//! The generator walks the word from a position cursor to its end. At each
//! position it tries every neighbour of the character there, and goes on from
//! the changed word with one substitution fewer and the cursor behind the
//! changed position. Because the cursor only moves forward, each choice of
//! positions is visited once, whatever the order in which one might have
//! changed them.
//!
//! The variant set grows with the product of the neighbour counts over each
//! choice of at most `depth` positions: a word of ten letters has over a
//! thousand variants at depth 2 and several hundred thousand at depth 4.
//! Callers bound the depth; 1 or 2 is usual.

use crate::adjacency::{neighbors_of, TypoMap};
use crate::depth::Depth;
use crate::text::{chars_of, string_from_chars, with_char_at};
use crate::variant_set::VariantSet;
use crate::variants::{
    admissible, agree_before, differences, is_variant_from, lemma_depth_zero,
    lemma_depth_zero_from, lemma_differences_same_tail, lemma_differences_self,
    lemma_differences_skip_agreeing, lemma_word_is_variant, variants, variants_from,
};
use vstd::prelude::*;

verus! {

/// `v` lies in a branch that the scan of `cur` has finished when it stands at
/// position `i` before neighbour `j`: it is `cur` itself, or it leaves `cur`
/// before `i`, or it leaves `cur` at `i` by one of the first `j` neighbours.
spec fn explored(adj: Map<char, Seq<char>>, cur: Seq<char>, i: int, j: int, v: Seq<char>) -> bool {
    ||| v == cur
    ||| !agree_before(cur, v, i)
    ||| (0 <= i < cur.len() && v[i] != cur[i] && neighbors_of(adj, cur[i]).take(j).contains(v[i]))
}

/// The variants of `cur` that the scan has recorded when it stands at
/// position `i` before neighbour `j`.
spec fn explored_set(
    adj: Map<char, Seq<char>>,
    cur: Seq<char>,
    start: int,
    depth: nat,
    i: int,
    j: int,
) -> Set<Seq<char>> {
    Set::new(
        |v: Seq<char>| is_variant_from(adj, cur, start, depth, v) && explored(adj, cur, i, j, v),
    )
}

/// Where `v` first leaves `cur` at `i`, it differs from `cur` at one position
/// more than from `cur` with the character of `v` at `i`.
proof fn lemma_differences_after_substitution(cur: Seq<char>, v: Seq<char>, i: int)
    requires
        0 <= i < cur.len(),
        v.len() == cur.len(),
        agree_before(cur, v, i),
        v[i] != cur[i],
    ensures
        differences(cur, v) == 1 + differences(cur.update(i, v[i]), v),
{
    let next = cur.update(i, v[i]);
    lemma_differences_skip_agreeing(cur, v, 0, i);
    lemma_differences_same_tail(cur, next, v, i + 1);
    assert forall|p: int| 0 <= p < i + 1 && p < next.len() implies v[p] == next[p] by {
        if p < i {
            assert(v[p] == cur[p]);
        }
    }
    lemma_differences_skip_agreeing(next, v, 0, i + 1);
}

/// The variants below the branch that replaces position `i` of `cur` by `r`
/// are the variants of `cur` that first leave it at `i`, by `r`.
proof fn lemma_branch(
    adj: Map<char, Seq<char>>,
    cur: Seq<char>,
    start: int,
    depth: nat,
    i: int,
    r: char,
    v: Seq<char>,
)
    requires
        0 <= start <= i < cur.len(),
        depth >= 1,
        neighbors_of(adj, cur[i]).contains(r),
        r != cur[i],
    ensures
        is_variant_from(adj, cur.update(i, r), i + 1, (depth - 1) as nat, v) <==> (is_variant_from(
            adj,
            cur,
            start,
            depth,
            v,
        ) && agree_before(cur, v, i) && v[i] == r),
{
    let next = cur.update(i, r);
    if is_variant_from(adj, next, i + 1, (depth - 1) as nat, v) {
        assert(v[i] == next[i]);
        assert forall|p: int| 0 <= p < i && p < cur.len() implies v[p] == cur[p] by {
            assert(v[p] == next[p]);
        }
        assert(agree_before(cur, v, i));
        assert forall|p: int| 0 <= p < cur.len() implies admissible(
            adj,
            cur[p],
            #[trigger] v[p],
        ) by {
            assert(admissible(adj, next[p], v[p]));
        }
        assert(next =~= cur.update(i, v[i]));
        lemma_differences_after_substitution(cur, v, i);
    }
    if is_variant_from(adj, cur, start, depth, v) && agree_before(cur, v, i) && v[i] == r {
        assert(next =~= cur.update(i, v[i]));
        lemma_differences_after_substitution(cur, v, i);
        assert forall|p: int| 0 <= p < i + 1 && p < next.len() implies v[p] == next[p] by {
            if p < i {
                assert(v[p] == cur[p]);
            }
        }
        assert forall|p: int| 0 <= p < next.len() implies admissible(
            adj,
            next[p],
            #[trigger] v[p],
        ) by {
            assert(admissible(adj, cur[p], v[p]));
        }
    }
}

/// Before the first position is tried, only `cur` itself is recorded.
proof fn lemma_explored_at_start(adj: Map<char, Seq<char>>, cur: Seq<char>, start: int, depth: nat)
    requires
        0 <= start,
    ensures
        explored_set(adj, cur, start, depth, start, 0) == set![cur],
{
    lemma_differences_self(cur, 0);
    assert(neighbors_of(adj, cur[start]).take(0) =~= Seq::<char>::empty());
    assert(explored_set(adj, cur, start, depth, start, 0) =~= set![cur]);
}

/// When every neighbour at position `i` is done, the scan stands before the
/// first neighbour of the next position.
proof fn lemma_explored_row_done(
    adj: Map<char, Seq<char>>,
    cur: Seq<char>,
    start: int,
    depth: nat,
    i: int,
)
    requires
        0 <= start <= i < cur.len(),
    ensures
        explored_set(adj, cur, start, depth, i, neighbors_of(adj, cur[i]).len() as int)
            == explored_set(adj, cur, start, depth, i + 1, 0),
{
    let row = neighbors_of(adj, cur[i]);
    let done = explored_set(adj, cur, start, depth, i, row.len() as int);
    let next = explored_set(adj, cur, start, depth, i + 1, 0);
    assert(row.take(row.len() as int) =~= row);
    assert forall|v: Seq<char>| done.contains(v) implies next.contains(v) by {
        if v != cur && agree_before(cur, v, i) {
            assert(v[i] != cur[i]);
        }
    }
    assert forall|v: Seq<char>| next.contains(v) implies done.contains(v) by {
        if v != cur && agree_before(cur, v, i) {
            if v[i] == cur[i] {
                assert forall|p: int| 0 <= p < i + 1 && p < cur.len() implies v[p] == cur[p] by {
                    if p < i {
                        assert(v[p] == cur[p]);
                    }
                }
                assert(i + 1 < cur.len() ==> neighbors_of(adj, cur[i + 1]).take(0) =~= Seq::<
                    char,
                >::empty());
            } else {
                assert(admissible(adj, cur[i], v[i]));
            }
        }
    }
    assert(done =~= next);
}

/// A branch adds its variants to what is recorded.
proof fn lemma_explored_after_branch(
    adj: Map<char, Seq<char>>,
    cur: Seq<char>,
    start: int,
    depth: nat,
    i: int,
    j: int,
)
    requires
        0 <= start <= i < cur.len(),
        depth >= 1,
        0 <= j < neighbors_of(adj, cur[i]).len(),
        neighbors_of(adj, cur[i])[j] != cur[i],
    ensures
        explored_set(adj, cur, start, depth, i, j + 1) == explored_set(
            adj,
            cur,
            start,
            depth,
            i,
            j,
        ).union(
            variants_from(
                adj,
                cur.update(i, neighbors_of(adj, cur[i])[j]),
                i + 1,
                (depth - 1) as nat,
            ),
        ),
{
    let row = neighbors_of(adj, cur[i]);
    let r = row[j];
    let next = cur.update(i, r);
    let now = explored_set(adj, cur, start, depth, i, j + 1);
    let was = explored_set(adj, cur, start, depth, i, j);
    let below = variants_from(adj, next, i + 1, (depth - 1) as nat);
    let shorter = row.take(j);
    let longer = row.take(j + 1);
    assert(longer =~= shorter.push(r));
    assert(row.contains(r));
    assert forall|v: Seq<char>| now.contains(v) implies was.union(below).contains(v) by {
        lemma_branch(adj, cur, start, depth, i, r, v);
        if !explored(adj, cur, i, j, v) {
            assert(longer.contains(v[i]));
            let k = choose|k: int| 0 <= k < longer.len() && longer[k] == v[i];
            if k < j {
                assert(shorter[k] == v[i]);
            }
        }
    }
    assert forall|v: Seq<char>| was.union(below).contains(v) implies now.contains(v) by {
        lemma_branch(adj, cur, start, depth, i, r, v);
        if below.contains(v) {
            assert(longer[j] == v[i]);
        } else if !(v == cur || !agree_before(cur, v, i)) {
            let k = choose|k: int| 0 <= k < shorter.len() && shorter[k] == v[i];
            assert(longer[k] == v[i]);
        }
    }
    assert(now =~= was.union(below));
}

/// A neighbour that is the character itself, or that came before in the row,
/// adds nothing.
proof fn lemma_explored_after_skip(
    adj: Map<char, Seq<char>>,
    cur: Seq<char>,
    start: int,
    depth: nat,
    i: int,
    j: int,
)
    requires
        0 <= start <= i < cur.len(),
        0 <= j < neighbors_of(adj, cur[i]).len(),
        neighbors_of(adj, cur[i])[j] == cur[i] || neighbors_of(adj, cur[i]).take(j).contains(
            neighbors_of(adj, cur[i])[j],
        ),
    ensures
        explored_set(adj, cur, start, depth, i, j + 1) == explored_set(adj, cur, start, depth, i, j),
{
    let row = neighbors_of(adj, cur[i]);
    let r = row[j];
    let now = explored_set(adj, cur, start, depth, i, j + 1);
    let was = explored_set(adj, cur, start, depth, i, j);
    let shorter = row.take(j);
    let longer = row.take(j + 1);
    assert(longer =~= shorter.push(r));
    assert forall|v: Seq<char>| now.contains(v) implies was.contains(v) by {
        if !(v == cur || !agree_before(cur, v, i)) {
            let k = choose|k: int| 0 <= k < longer.len() && longer[k] == v[i];
            if k < j {
                assert(shorter[k] == v[i]);
            }
        }
    }
    assert forall|v: Seq<char>| was.contains(v) implies now.contains(v) by {
        if !(v == cur || !agree_before(cur, v, i)) {
            let k = choose|k: int| 0 <= k < shorter.len() && shorter[k] == v[i];
            assert(longer[k] == v[i]);
        }
    }
    assert(now =~= was);
}

/// The word with one character replaced by a neighbour is a variant within
/// any depth of 1 or more.
proof fn lemma_candidate_is_variant(
    adj: Map<char, Seq<char>>,
    cur: Seq<char>,
    start: int,
    depth: nat,
    i: int,
    r: char,
)
    requires
        0 <= start <= i < cur.len(),
        depth >= 1,
        neighbors_of(adj, cur[i]).contains(r),
        r != cur[i],
    ensures
        is_variant_from(adj, cur, start, depth, cur.update(i, r)),
{
    let next = cur.update(i, r);
    lemma_differences_self(next, 0);
    lemma_branch(adj, cur, start, depth, i, r, next);
}

/// When the scan is past the last position, every variant is recorded.
proof fn lemma_explored_at_end(
    adj: Map<char, Seq<char>>,
    cur: Seq<char>,
    start: int,
    depth: nat,
    i: int,
)
    requires
        0 <= start <= i,
        cur.len() <= i,
    ensures
        explored_set(adj, cur, start, depth, i, 0) == variants_from(adj, cur, start, depth),
{
    assert forall|v: Seq<char>| variants_from(adj, cur, start, depth).contains(v) implies explored(
        adj,
        cur,
        i,
        0,
        v,
    ) by {
        if agree_before(cur, v, i) {
            assert(v =~= cur);
        }
    }
    assert(explored_set(adj, cur, start, depth, i, 0) =~= variants_from(adj, cur, start, depth));
}

/// A candidate that is not recorded yet has none of its variants recorded.
proof fn lemma_branch_is_new(
    adj: Map<char, Seq<char>>,
    cur: Seq<char>,
    start: int,
    depth: nat,
    i: int,
    j: int,
    before: Set<Seq<char>>,
)
    requires
        0 <= start <= i < cur.len(),
        depth >= 1,
        0 <= j < neighbors_of(adj, cur[i]).len(),
        before.disjoint(variants_from(adj, cur, start, depth)),
        !before.union(explored_set(adj, cur, start, depth, i, j)).contains(
            cur.update(i, neighbors_of(adj, cur[i])[j]),
        ),
    ensures
        neighbors_of(adj, cur[i])[j] != cur[i],
        before.union(explored_set(adj, cur, start, depth, i, j)).disjoint(
            variants_from(
                adj,
                cur.update(i, neighbors_of(adj, cur[i])[j]),
                i + 1,
                (depth - 1) as nat,
            ),
        ),
{
    let row = neighbors_of(adj, cur[i]);
    let r = row[j];
    let next = cur.update(i, r);
    let was = explored_set(adj, cur, start, depth, i, j);
    let shorter = row.take(j);
    assert(row.contains(r));
    lemma_differences_self(cur, 0);
    if r == cur[i] {
        assert(next =~= cur);
        assert(was.contains(cur));
    }
    lemma_candidate_is_variant(adj, cur, start, depth, i, r);
    assert forall|v: Seq<char>|
        variants_from(adj, next, i + 1, (depth - 1) as nat).contains(v) implies !before.union(
        was,
    ).contains(v) by {
        lemma_branch(adj, cur, start, depth, i, r, v);
        assert(variants_from(adj, cur, start, depth).contains(v));
        if was.contains(v) {
            assert(shorter.contains(r));
            assert(explored(adj, cur, i, j, next));
            assert(was.contains(next));
        }
    }
}

/// A candidate that is recorded already has all of its variants recorded.
proof fn lemma_branch_is_known(
    adj: Map<char, Seq<char>>,
    cur: Seq<char>,
    start: int,
    depth: nat,
    i: int,
    j: int,
    before: Set<Seq<char>>,
)
    requires
        0 <= start <= i < cur.len(),
        depth >= 1,
        0 <= j < neighbors_of(adj, cur[i]).len(),
        before.disjoint(variants_from(adj, cur, start, depth)),
        before.union(explored_set(adj, cur, start, depth, i, j)).contains(
            cur.update(i, neighbors_of(adj, cur[i])[j]),
        ),
    ensures
        explored_set(adj, cur, start, depth, i, j + 1) == explored_set(adj, cur, start, depth, i, j),
{
    let row = neighbors_of(adj, cur[i]);
    let r = row[j];
    let next = cur.update(i, r);
    assert(row.contains(r));
    if r != cur[i] {
        lemma_candidate_is_variant(adj, cur, start, depth, i, r);
        assert(variants_from(adj, cur, start, depth).contains(next));
        assert(explored(adj, cur, i, j, next));
        assert(next[i] == r);
        assert forall|p: int| 0 <= p < i && p < cur.len() implies next[p] == cur[p] by {}
        assert(agree_before(cur, next, i));
    }
    lemma_explored_after_skip(adj, cur, start, depth, i, j);
}

/// Records in `seen` every variant of `word` within `depth` that keeps the
/// first `start` characters.
///
/// The word is recorded first. With substitutions left, each position from
/// `start` on is tried with each neighbour of its character in the map's
/// order, and a candidate that `seen` does not hold yet is expanded with one
/// substitution fewer, from the position behind the one just changed.
///
/// With substitutions left, `seen` must hold none of these variants at
/// entry: then a candidate that is found in `seen` was expanded by this very
/// scan, and leaving it out loses nothing. With depth 0 any set may come in,
/// and the word is all that is added.
fn generate_typos_recursive(
    word: &Vec<char>,
    typo_map: &TypoMap,
    depth: usize,
    start: usize,
    seen: &mut VariantSet,
)
    requires
        old(seen).wf(),
        depth >= 1 ==> old(seen)@.disjoint(
            variants_from(typo_map@, word@, start as int, depth as nat),
        ),
    ensures
        final(seen).wf(),
        final(seen)@ == old(seen)@.union(
            variants_from(typo_map@, word@, start as int, depth as nat),
        ),
        depth == 0 ==> final(seen)@ == old(seen)@.insert(word@),
    decreases depth,
{
    let ghost adj = typo_map@;
    let ghost cur = word@;
    let ghost before = seen@;
    let ghost s = start as int;
    let ghost d = depth as nat;

    seen.insert(string_from_chars(word));
    if depth == 0 {
        proof {
            lemma_depth_zero_from(adj, cur, s);
            assert(seen@ =~= before.union(variants_from(adj, cur, s, d)));
            assert(seen@ =~= before.insert(cur));
        }
        return ;
    }
    proof {
        lemma_explored_at_start(adj, cur, s, d);
        assert(seen@ =~= before.union(explored_set(adj, cur, s, d, s, 0)));
    }
    let mut i: usize = start;
    while i < word.len()
        invariant
            adj == typo_map@,
            cur == word@,
            s == start as int,
            d == depth as nat,
            depth >= 1,
            start <= i,
            seen.wf(),
            before.disjoint(variants_from(adj, cur, s, d)),
            seen@ == before.union(explored_set(adj, cur, s, d, i as int, 0)),
        decreases word.len() - i,
    {
        match typo_map.get(word[i]) {
            Some(replacements) => {
                let mut j: usize = 0;
                while j < replacements.len()
                    invariant
                        adj == typo_map@,
                        cur == word@,
                        s == start as int,
                        d == depth as nat,
                        depth >= 1,
                        start <= i < word.len(),
                        j <= replacements.len(),
                        replacements@ == neighbors_of(adj, cur[i as int]),
                        seen.wf(),
                        before.disjoint(variants_from(adj, cur, s, d)),
                        seen@ == before.union(explored_set(adj, cur, s, d, i as int, j as int)),
                    decreases replacements.len() - j,
                {
                    let typo = with_char_at(word, i, replacements[j]);
                    let text = string_from_chars(&typo);
                    if !seen.contains(text.as_str()) {
                        proof {
                            lemma_branch_is_new(adj, cur, s, d, i as int, j as int, before);
                        }
                        generate_typos_recursive(&typo, typo_map, depth - 1, i + 1, seen);
                        proof {
                            lemma_explored_after_branch(adj, cur, s, d, i as int, j as int);
                            assert(seen@ =~= before.union(
                                explored_set(adj, cur, s, d, i as int, j + 1),
                            ));
                        }
                    } else {
                        proof {
                            lemma_branch_is_known(adj, cur, s, d, i as int, j as int, before);
                        }
                    }
                    j = j + 1;
                }
            },
            None => {},
        }
        proof {
            lemma_explored_row_done(adj, cur, s, d, i as int);
        }
        i = i + 1;
    }
    proof {
        lemma_explored_at_end(adj, cur, s, d, i as int);
    }
}

/// Adds to `seen`, whatever it holds, the variant set of `word` within the
/// depth that `depth` gives for a word of its length. With depth 0 the word
/// is all that is added.
pub fn generate_into(word: &str, typo_map: &TypoMap, depth: Depth, seen: &mut VariantSet)
    requires
        old(seen).wf(),
    ensures
        final(seen).wf(),
        final(seen)@ == old(seen)@.union(
            variants(typo_map@, word@, depth.spec_resolve(word@.len())),
        ),
        final(seen)@.contains(word@),
        depth.spec_resolve(word@.len()) == 0 ==> final(seen)@ == old(seen)@.insert(word@),
{
    let found = generate_resolved(word, typo_map, depth);
    seen.absorb(&found);
    proof {
        if depth.spec_resolve(word@.len()) == 0 {
            lemma_depth_zero(typo_map@, word@);
            assert(seen@ =~= old(seen)@.insert(word@));
        }
    }
}

/// The variant set of `word` within the depth that `depth` gives for a word
/// of its length: every string that results from replacing at most so many
/// of its characters, each by a neighbour of that character in `typo_map`.
/// The word itself is always among them.
pub fn generate_resolved(word: &str, typo_map: &TypoMap, depth: Depth) -> (seen: VariantSet)
    ensures
        seen.wf(),
        seen@ == variants(typo_map@, word@, depth.spec_resolve(word@.len())),
        seen@.contains(word@),
{
    let chars = chars_of(word);
    let bound = depth.resolve(chars.len());
    let mut seen = VariantSet::new();
    generate_typos_recursive(&chars, typo_map, bound, 0, &mut seen);
    proof {
        lemma_word_is_variant(typo_map@, word@, bound as nat);
        assert(seen@ =~= variants(typo_map@, word@, bound as nat));
    }
    seen
}

/// The variant set of `word`: every string that results from replacing at
/// most `depth` of its characters, each by a neighbour of that character in
/// `typo_map`. The word itself is always among them; with depth 0 it is the
/// only one.
pub fn generate(word: &str, typo_map: &TypoMap, depth: usize) -> (seen: VariantSet)
    ensures
        seen.wf(),
        seen@ == variants(typo_map@, word@, depth as nat),
        seen@.contains(word@),
        depth == 0 ==> seen@ == set![word@],
{
    proof {
        lemma_depth_zero(typo_map@, word@);
    }
    generate_resolved(word, typo_map, Depth::Bounded(depth))
}

} // verus!
