//! The set of strings that a run gathers.

use vstd::prelude::*;
use vstd::hash_set::StringHashSet;

verus! {

/// The strings that occur in `lines`.
pub open spec fn members(lines: Seq<String>) -> Set<Seq<char>> {
    Set::new(|v: Seq<char>| exists|i: int| 0 <= i < lines.len() && #[trigger] lines[i]@ == v)
}

/// No string occurs twice in `lines`.
pub open spec fn distinct(lines: Seq<String>) -> bool {
    forall|i: int, j: int| 0 <= i < j < lines.len() ==> #[trigger] lines[i]@ != #[trigger] lines[j]@
}

/// `lines` lists `set`: each member once and nothing else.
pub open spec fn lists(lines: Seq<String>, set: Set<Seq<char>>) -> bool {
    members(lines) == set && distinct(lines)
}

/// One more line adds its string to the members.
pub proof fn lemma_members_push(lines: Seq<String>, line: String)
    ensures
        members(lines.push(line)) == members(lines).insert(line@),
{
    let longer = lines.push(line);
    assert forall|v: Seq<char>| members(longer).contains(v) implies members(lines).insert(
        line@,
    ).contains(v) by {
        let i = choose|i: int| 0 <= i < longer.len() && #[trigger] longer[i]@ == v;
        if i < lines.len() {
            assert(lines[i]@ == v);
        }
    }
    assert forall|v: Seq<char>| members(lines).insert(line@).contains(v) implies members(
        longer,
    ).contains(v) by {
        if v == line@ {
            assert(longer[lines.len() as int]@ == v);
        } else {
            let i = choose|i: int| 0 <= i < lines.len() && #[trigger] lines[i]@ == v;
            assert(longer[i]@ == v);
        }
    }
    assert(members(longer) =~= members(lines).insert(line@));
}

/// A set of strings, unique by their characters. It answers membership by
/// hashing and keeps its members in the order in which they came.
pub struct VariantSet {
    index: StringHashSet,
    items: Vec<String>,
}

impl View for VariantSet {
    type V = Set<Seq<char>>;

    closed spec fn view(&self) -> Set<Seq<char>> {
        self.index@
    }
}

impl VariantSet {
    /// The members in order of arrival are exactly what the index holds.
    pub closed spec fn wf(&self) -> bool {
        lists(self.items@, self.index@)
    }

    /// The empty set.
    pub fn new() -> (set: Self)
        ensures
            set.wf(),
            set@ == Set::<Seq<char>>::empty(),
    {
        let set = VariantSet { index: StringHashSet::new(), items: Vec::new() };
        assert(members(set.items@) =~= Set::<Seq<char>>::empty());
        set
    }

    /// Whether `text` is a member.
    pub fn contains(&self, text: &str) -> (found: bool)
        ensures
            found == self@.contains(text@),
    {
        self.index.contains(text)
    }

    /// Adds `text`; says whether it was new.
    pub fn insert(&mut self, text: String) -> (fresh: bool)
        requires
            old(self).wf(),
        ensures
            final(self).wf(),
            final(self)@ == old(self)@.insert(text@),
            fresh == !old(self)@.contains(text@),
    {
        let fresh = !self.index.contains(text.as_str());
        if fresh {
            let ghost before = self.items@;
            self.index.insert(text.clone());
            self.items.push(text);
            proof {
                lemma_members_push(before, text);
                let after = self.items@;
                assert forall|i: int, j: int| 0 <= i < j < after.len() implies #[trigger] after[i]@
                    != #[trigger] after[j]@ by {
                    assert(after[i] == before[i]);
                    if j < before.len() {
                        assert(after[j] == before[j]);
                    } else {
                        assert(members(before).contains(before[i]@));
                    }
                }
            }
        } else {
            assert(self@.insert(text@) =~= self@);
        }
        fresh
    }

    /// The number of members.
    pub fn len(&self) -> (n: usize)
        ensures
            n == self@.len(),
    {
        self.index.len()
    }

    /// The members, each once, in the order in which they came.
    pub fn lines(&self) -> (lines: &Vec<String>)
        requires
            self.wf(),
        ensures
            lists(lines@, self@),
    {
        &self.items
    }

    /// The members, each once, in the order in which they came.
    pub fn into_lines(self) -> (lines: Vec<String>)
        requires
            self.wf(),
        ensures
            lists(lines@, self@),
    {
        self.items
    }

    /// Adds every member of `other`.
    pub fn absorb(&mut self, other: &VariantSet)
        requires
            old(self).wf(),
            other.wf(),
        ensures
            final(self).wf(),
            final(self)@ == old(self)@.union(other@),
    {
        let ghost before = self@;
        let mut i: usize = 0;
        assert(members(other.items@.take(0)) =~= Set::<Seq<char>>::empty());
        assert(self@ =~= before.union(members(other.items@.take(0))));
        while i < other.items.len()
            invariant
                i <= other.items.len(),
                self.wf(),
                self@ == before.union(members(other.items@.take(i as int))),
            decreases other.items.len() - i,
        {
            let ghost held = self@;
            self.insert(other.items[i].clone());
            proof {
                let line = other.items@[i as int];
                lemma_members_push(other.items@.take(i as int), line);
                assert(other.items@.take(i as int).push(line) =~= other.items@.take(i + 1));
                assert(self@ =~= before.union(members(other.items@.take(i + 1))));
            }
            i = i + 1;
        }
        assert(other.items@.take(i as int) =~= other.items@);
    }
}

} // verus!
