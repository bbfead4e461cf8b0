//! The category map: for each category, the set of its distinct instances.

use crate::text::{copy_texts, lemma_push_to_set, position, texts};
use vstd::prelude::*;

verus! {

/// The mathematical model of a category map.
pub type Grouping = Map<Seq<char>, Set<Seq<char>>>;

/// The instances that `m` holds under `category`: none where it is no key.
pub open spec fn instances_in(m: Grouping, category: Seq<char>) -> Set<Seq<char>> {
    if m.dom().contains(category) {
        m[category]
    } else {
        Set::empty()
    }
}

/// `m` after `instance` was recorded under `category`.
pub open spec fn with_instance(m: Grouping, category: Seq<char>, instance: Seq<char>) -> Grouping {
    m.insert(category, instances_in(m, category).insert(instance))
}

/// Whether `m` holds `instance` under `category`.
pub open spec fn holds(m: Grouping, category: Seq<char>, instance: Seq<char>) -> bool {
    m.dom().contains(category) && m[category].contains(instance)
}

/// A mapping from category to the set of instances recorded under it.
///
/// The map's meaning is its view. The order in which it keeps categories
/// and instances is no part of that.
#[derive(Debug)]
pub struct CategoryMap {
    names: Vec<String>,
    members: Vec<Vec<String>>,
}

impl View for CategoryMap {
    type V = Grouping;

    closed spec fn view(&self) -> Grouping {
        Map::new(
            |c: Seq<char>| texts(self.names@).contains(c),
            |c: Seq<char>| texts(self.members[texts(self.names@).index_of(c)]@).to_set(),
        )
    }
}

impl Default for CategoryMap {
    /// The empty map.
    fn default() -> (map: CategoryMap)
        ensures
            map.wf(),
            map@ == Grouping::empty(),
    {
        CategoryMap::new()
    }
}

impl CategoryMap {
    /// The invariant of the representation: no category is kept twice, no
    /// instance is kept twice under one category, and every category has an
    /// instance.
    pub closed spec fn wf(&self) -> bool {
        &&& self.names.len() == self.members.len()
        &&& texts(self.names@).no_duplicates()
        &&& forall|i: int|
            0 <= i < self.members.len() ==> (#[trigger] self.members[i]).len() > 0 && texts(
                self.members[i]@,
            ).no_duplicates()
    }

    /// Under the invariant, the `i`-th category kept maps to the instances
    /// kept beside it.
    proof fn lemma_view_at(&self, i: int)
        requires
            self.wf(),
            0 <= i < self.names.len(),
        ensures
            self@.dom().contains(self.names[i]@),
            self@[self.names[i]@] == texts(self.members[i]@).to_set(),
    {
        let names = texts(self.names@);
        assert(names[i] == self.names[i]@);
        let j = names.index_of(self.names[i]@);
        assert(0 <= j < names.len() && names[j] == names[i]);
        assert(j == i);
    }

    /// A well-formed map has finitely many categories, and each of them has
    /// a finite, non-empty set of instances.
    pub proof fn lemma_categories_nonempty(&self)
        requires
            self.wf(),
        ensures
            self@.dom().finite(),
            forall|c: Seq<char>| #[trigger]
                self@.dom().contains(c) ==> self@[c].finite() && self@[c].len() > 0,
    {
        let names = texts(self.names@);
        assert(self@.dom() =~= names.to_set());
        vstd::seq_lib::seq_to_set_is_finite(names);
        assert forall|c: Seq<char>| #[trigger]
            self@.dom().contains(c) implies self@[c].finite() && self@[c].len() > 0 by {
            let i = names.index_of(c);
            assert(names[i] == c);
            self.lemma_view_at(i);
            let insts = texts(self.members[i]@);
            vstd::seq_lib::seq_to_set_is_finite(insts);
            insts.unique_seq_to_set();
        }
    }

    /// The empty map.
    pub fn new() -> (map: CategoryMap)
        ensures
            map.wf(),
            map@ == Grouping::empty(),
    {
        let map = CategoryMap { names: Vec::new(), members: Vec::new() };
        assert(map@ =~= Grouping::empty());
        map
    }

    /// The number of categories.
    pub fn len(&self) -> (n: usize)
        requires
            self.wf(),
        ensures
            n == self@.dom().len(),
    {
        proof {
            let names = texts(self.names@);
            assert(self@.dom() =~= names.to_set());
            names.unique_seq_to_set();
        }
        self.names.len()
    }

    /// Whether the map has no category.
    pub fn is_empty(&self) -> (empty: bool)
        requires
            self.wf(),
        ensures
            empty == (self@ == Grouping::empty()),
    {
        proof {
            if self.names.len() == 0 {
                assert(self@ =~= Grouping::empty());
            } else {
                self.lemma_view_at(0);
            }
        }
        self.names.len() == 0
    }

    /// Whether `category` is a key.
    pub fn contains_category(&self, category: &str) -> (found: bool)
        requires
            self.wf(),
        ensures
            found == self@.dom().contains(category@),
    {
        match position(&self.names, category) {
            Some(idx) => {
                proof {
                    self.lemma_view_at(idx as int);
                }
                true
            },
            None => false,
        }
    }

    /// Whether `instance` is recorded under `category`.
    pub fn contains(&self, category: &str, instance: &str) -> (found: bool)
        requires
            self.wf(),
        ensures
            found == holds(self@, category@, instance@),
    {
        match position(&self.names, category) {
            Some(idx) => {
                proof {
                    self.lemma_view_at(idx as int);
                }
                match position(&self.members[idx], instance) {
                    Some(j) => {
                        proof {
                            assert(texts(self.members[idx as int]@)[j as int] == instance@);
                        }
                        true
                    },
                    None => false,
                }
            },
            None => false,
        }
    }

    /// The number of instances recorded under `category`: zero where it is
    /// no key.
    pub fn instance_count(&self, category: &str) -> (n: usize)
        requires
            self.wf(),
        ensures
            n == instances_in(self@, category@).len(),
    {
        match position(&self.names, category) {
            Some(idx) => {
                proof {
                    self.lemma_view_at(idx as int);
                    texts(self.members[idx as int]@).unique_seq_to_set();
                }
                self.members[idx].len()
            },
            None => 0,
        }
    }

    /// The categories, each once, in no particular order.
    pub fn categories(&self) -> (names: Vec<String>)
        requires
            self.wf(),
        ensures
            texts(names@).no_duplicates(),
            texts(names@).to_set() == self@.dom(),
    {
        proof {
            assert(self@.dom() =~= texts(self.names@).to_set());
        }
        copy_texts(&self.names)
    }

    /// The instances recorded under `category`, each once, in no particular
    /// order: none where it is no key.
    pub fn instances(&self, category: &str) -> (members: Vec<String>)
        requires
            self.wf(),
        ensures
            texts(members@).no_duplicates(),
            texts(members@).to_set() == instances_in(self@, category@),
    {
        match position(&self.names, category) {
            Some(idx) => {
                proof {
                    self.lemma_view_at(idx as int);
                }
                copy_texts(&self.members[idx])
            },
            None => {
                let members: Vec<String> = Vec::new();
                assert(texts(members@).to_set() =~= Set::empty());
                members
            },
        }
    }

    /// Records `instance` under `category`, and says whether it was new there.
    ///
    /// A category that was no key becomes one, with `instance` alone; an
    /// instance that the category already holds changes nothing.
    pub fn insert(&mut self, category: String, instance: String) -> (added: bool)
        requires
            old(self).wf(),
        ensures
            final(self).wf(),
            final(self)@ == with_instance(old(self)@, category@, instance@),
            added == !holds(old(self)@, category@, instance@),
    {
        let ghost before = *self;
        let ghost target = with_instance(before@, category@, instance@);
        match position(&self.names, category.as_str()) {
            None => {
                let mut single: Vec<String> = Vec::new();
                single.push(instance);
                self.names.push(category);
                self.members.push(single);
                proof {
                    let n = before.names.len() as int;
                    assert(texts(self.names@) =~= texts(before.names@).push(category@));
                    assert(texts(single@) =~= seq![instance@]);
                    assert forall|i: int| 0 <= i < self.members.len() implies (#[trigger] self.members[i]).len()
                        > 0 && texts(self.members[i]@).no_duplicates() by {
                        if i < n {
                            assert(self.members[i] == before.members[i]);
                        }
                    }
                    assert(self.wf());
                    assert forall|c: Seq<char>| #[trigger]
                        self@.dom().contains(c) implies target.dom().contains(c) && self@[c] == target[c] by {
                        let i = texts(self.names@).index_of(c);
                        assert(texts(self.names@)[i] == c);
                        self.lemma_view_at(i);
                        if i < n {
                            assert(texts(before.names@)[i] == c);
                            before.lemma_view_at(i);
                        } else {
                            assert(c == category@);
                            lemma_push_to_set(Seq::<Seq<char>>::empty(), instance@);
                            assert(texts(single@) =~= Seq::<Seq<char>>::empty().push(instance@));
                            assert(Seq::<Seq<char>>::empty().to_set() =~= Set::empty());
                        }
                    }
                    assert forall|c: Seq<char>| #[trigger]
                        target.dom().contains(c) implies self@.dom().contains(c) by {
                        if c == category@ {
                            assert(texts(self.names@)[n] == c);
                        } else {
                            let i = texts(before.names@).index_of(c);
                            assert(texts(before.names@)[i] == c);
                            assert(texts(self.names@)[i] == c);
                        }
                    }
                    assert(self@ =~= target);
                }
                true
            },
            Some(idx) => {
                proof {
                    before.lemma_view_at(idx as int);
                }
                match position(&self.members[idx], instance.as_str()) {
                    Some(j) => {
                        proof {
                            assert(texts(before.members[idx as int]@)[j as int] == instance@);
                            assert(texts(before.members[idx as int]@).to_set().contains(
                                instance@,
                            ));
                            assert(before@[category@].insert(instance@) =~= before@[category@]);
                            assert(before@ =~= target);
                        }
                        false
                    },
                    None => {
                        self.members[idx].push(instance);
                        proof {
                            let old_insts = texts(before.members[idx as int]@);
                            let new_insts = texts(self.members[idx as int]@);
                            assert(new_insts =~= old_insts.push(instance@));
                            assert(self.names == before.names);
                            assert forall|i: int| 0 <= i < self.members.len() implies (#[trigger] self.members[i]).len()
                                > 0 && texts(self.members[i]@).no_duplicates() by {
                                if i != idx {
                                    assert(self.members[i] == before.members[i]);
                                }
                            }
                            assert(self.wf());
                            lemma_push_to_set(old_insts, instance@);
                            assert forall|c: Seq<char>| #[trigger]
                                self@.dom().contains(c) implies self@[c] == target[c] by {
                                let i = texts(self.names@).index_of(c);
                                assert(texts(self.names@)[i] == c);
                                self.lemma_view_at(i);
                                before.lemma_view_at(i);
                                assert(texts(before.names@)[idx as int] == category@);
                                if i != idx {
                                    assert(self.members[i] == before.members[i]);
                                    assert(c != category@);
                                }
                            }
                            assert(self@ =~= target);
                        }
                        true
                    },
                }
            },
        }
    }
}

} // verus!
