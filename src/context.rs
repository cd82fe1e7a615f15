use vstd::prelude::*;
use crate::word::{Word, WordSpec, words_view};

verus! {

/// The dictionary of compound words: each name maps to the body it was last
/// defined with.
pub struct Context {
    entries: Vec<(String, Vec<Word>)>,
}

/// The body that the latest entry named `k` holds, if any.
pub closed spec fn latest(entries: Seq<(String, Vec<Word>)>, k: Seq<char>) -> Option<Seq<WordSpec>>
    decreases entries.len(),
{
    if entries.len() == 0 {
        None
    } else if entries.last().0@ == k {
        Some(words_view(entries.last().1@))
    } else {
        latest(entries.drop_last(), k)
    }
}

impl View for Context {
    type V = Map<Seq<char>, Seq<WordSpec>>;

    closed spec fn view(&self) -> Map<Seq<char>, Seq<WordSpec>> {
        Map::new(
            |k: Seq<char>| latest(self.entries@, k) is Some,
            |k: Seq<char>|
                match latest(self.entries@, k) {
                    Some(b) => b,
                    None => Seq::empty(),
                },
        )
    }
}

impl Context {
    pub fn new() -> (c: Context)
        ensures
            c@ == Map::<Seq<char>, Seq<WordSpec>>::empty(),
    {
        let c = Context { entries: Vec::new() };
        assert(c@ =~= Map::<Seq<char>, Seq<WordSpec>>::empty());
        c
    }

    /// Defines `name` as `words`, replacing any earlier definition.
    pub fn insert(&mut self, name: String, words: Vec<Word>)
        ensures
            final(self)@ == old(self)@.insert(name@, words_view(words@)),
    {
        let ghost k = name@;
        let ghost b = words_view(words@);
        self.entries.push((name, words));
        proof {
            let e = self.entries@;
            assert(e.drop_last() =~= old(self).entries@);
            assert forall|j: Seq<char>| #[trigger] latest(e, j) == (if j == k {
                Some(b)
            } else {
                latest(old(self).entries@, j)
            }) by {}
        }
        assert(final(self)@ =~= old(self)@.insert(k, b));
    }

    /// The body defined under `name`, if there is one.
    pub fn get(&self, name: &str) -> (r: Option<&Vec<Word>>)
        ensures
            r is Some <==> self@.contains_key(name@),
            r matches Some(ws) ==> words_view(ws@) == self@[name@],
    {
        let key = name.to_owned();
        let mut i = self.entries.len();
        assert(self.entries@.subrange(0, i as int) =~= self.entries@);
        while i > 0
            invariant
                i <= self.entries@.len(),
                key@ == name@,
                latest(self.entries@, name@) == latest(self.entries@.subrange(0, i as int), name@),
            decreases i,
        {
            let ghost pre = self.entries@.subrange(0, i as int);
            assert(pre.drop_last() =~= self.entries@.subrange(0, i - 1));
            if self.entries[i - 1].0 == key {
                return Some(&self.entries[i - 1].1);
            }
            i = i - 1;
        }
        None
    }
}

} // verus!
