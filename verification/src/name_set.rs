//! A set of names, kept as a list in ascending order.

use vstd::prelude::*;

use crate::text::{
    ascending, find, lemma_ascending_distinct, lemma_insert_ascending, lemma_texts_push, texts,
};

verus! {

/// A set of strings. The names are held in ascending order, each once, so
/// walking the list visits them as a `BTreeSet<String>` would.
pub struct NameSet {
    names: Vec<String>,
}

impl View for NameSet {
    type V = Set<Seq<char>>;

    /// The names in the set.
    closed spec fn view(&self) -> Set<Seq<char>> {
        texts(self.names@).to_set()
    }
}

impl NameSet {
    /// The list is strictly ascending, so no name occurs twice in it.
    pub closed spec fn wf(&self) -> bool {
        ascending(texts(self.names@))
    }

    /// The names in the order in which the set holds them.
    pub closed spec fn listing(&self) -> Seq<Seq<char>> {
        texts(self.names@)
    }

    /// The listing is ascending and holds exactly the members, each once.
    pub proof fn lemma_listing(&self)
        requires
            self.wf(),
        ensures
            ascending(self.listing()),
            self.listing().no_duplicates(),
            self.listing().to_set() == self@,
            self@.finite(),
            self@.len() == self.listing().len(),
    {
        let s = self.listing();
        lemma_ascending_distinct(s);
        s.unique_seq_to_set();
        vstd::seq_lib::seq_to_set_is_finite(s);
    }

    /// The empty set.
    pub fn new() -> (s: NameSet)
        ensures
            s.wf(),
            s@ == Set::<Seq<char>>::empty(),
    {
        let s = NameSet { names: Vec::new() };
        assert(s@ =~= Set::<Seq<char>>::empty());
        s
    }

    /// Whether `name` is in the set.
    pub fn contains(&self, name: &str) -> (b: bool)
        requires
            self.wf(),
        ensures
            b == self@.contains(name@),
    {
        find(&self.names, name).1
    }

    /// Adds `name` to the set and says whether it was new.
    pub fn insert(&mut self, name: String) -> (added: bool)
        requires
            old(self).wf(),
        ensures
            final(self).wf(),
            final(self)@ == old(self)@.insert(name@),
            added == !old(self)@.contains(name@),
    {
        let (at, found) = find(&self.names, name.as_str());
        if found {
            assert(self@.insert(name@) =~= self@);
            return false;
        }
        let ghost before = texts(self.names@);
        self.names.insert(at, name);
        proof {
            assert(texts(self.names@) =~= before.insert(at as int, name@));
            lemma_insert_ascending(before, name@, at as int);
        }
        true
    }

    /// Takes every name out of the set.
    pub fn clear(&mut self)
        ensures
            final(self).wf(),
            final(self)@ == Set::<Seq<char>>::empty(),
    {
        self.names.clear();
        assert(self@ =~= Set::<Seq<char>>::empty());
    }

    /// How many names the set holds.
    pub fn len(&self) -> (n: usize)
        requires
            self.wf(),
        ensures
            n == self@.len(),
    {
        proof {
            self.lemma_listing();
        }
        self.names.len()
    }

    /// The names, in ascending order.
    pub fn names(&self) -> (v: &Vec<String>)
        ensures
            texts(v@) == self.listing(),
    {
        &self.names
    }

    /// The set of the names in `names`, in whatever order and however often
    /// they occur there.
    pub fn from_names(names: &Vec<String>) -> (s: NameSet)
        ensures
            s.wf(),
            s@ == texts(names@).to_set(),
    {
        let mut s = NameSet::new();
        let mut i: usize = 0;
        while i < names.len()
            invariant
                i <= names@.len(),
                s.wf(),
                s@ == texts(names@.take(i as int)).to_set(),
            decreases names@.len() - i,
        {
            let name = names[i].clone();
            s.insert(name);
            proof {
                assert(names@.take(i + 1) =~= names@.take(i as int).push(names@[i as int]));
                lemma_texts_push(names@.take(i as int), names@[i as int]);
            }
            i = i + 1;
        }
        assert(names@.take(i as int) =~= names@);
        s
    }

    /// The names that are in both sets.
    pub fn intersection(&self, other: &NameSet) -> (s: NameSet)
        requires
            self.wf(),
            other.wf(),
        ensures
            s.wf(),
            s@ == self@.intersect(other@),
    {
        let mut s = NameSet::new();
        let mut i: usize = 0;
        while i < self.names.len()
            invariant
                i <= self.names@.len(),
                self.wf(),
                other.wf(),
                s.wf(),
                s@ == texts(self.names@.take(i as int)).to_set().intersect(other@),
            decreases self.names@.len() - i,
        {
            proof {
                assert(self.names@.take(i + 1) =~= self.names@.take(i as int).push(
                    self.names@[i as int],
                ));
                lemma_texts_push(self.names@.take(i as int), self.names@[i as int]);
            }
            if other.contains(self.names[i].as_str()) {
                let name = self.names[i].clone();
                s.insert(name);
            }
            assert(s@ =~= texts(self.names@.take(i + 1)).to_set().intersect(other@));
            i = i + 1;
        }
        assert(self.names@.take(i as int) =~= self.names@);
        s
    }
}

} // verus!
