//! Named counts.

use vstd::prelude::*;
use vstd::string::*;

use crate::assoc::{assoc, lemma_assoc_at, lemma_assoc_push, lemma_assoc_update};
use crate::text::same_text;

verus! {

/// Counts by name. A name that was never counted has count zero.
#[derive(Debug)]
pub struct Counter {
    names: Vec<String>,
    counts: Vec<i64>,
}

/// The texts of a list of names.
pub open spec fn texts(names: Seq<String>) -> Seq<Seq<char>> {
    Seq::new(names.len(), |i: int| names[i]@)
}

impl View for Counter {
    type V = Map<Seq<char>, i64>;

    closed spec fn view(&self) -> Map<Seq<char>, i64> {
        assoc(texts(self.names@), self.counts@)
    }
}

/// The count of a name.
pub open spec fn count_of(counts: Map<Seq<char>, i64>, name: Seq<char>) -> int {
    if counts.contains_key(name) {
        counts[name] as int
    } else {
        0
    }
}

/// Whether the counts of both maps can be added up, name by name.
pub open spec fn sums_fit(a: Map<Seq<char>, i64>, b: Map<Seq<char>, i64>) -> bool {
    forall|name: Seq<char>| #[trigger]
        b.contains_key(name) ==> i64::MIN <= count_of(a, name) + b[name] <= i64::MAX
}

/// Both maps added up, name by name.
pub open spec fn added(a: Map<Seq<char>, i64>, b: Map<Seq<char>, i64>) -> Map<Seq<char>, i64> {
    Map::new(
        |name: Seq<char>| a.contains_key(name) || b.contains_key(name),
        |name: Seq<char>| (count_of(a, name) + count_of(b, name)) as i64,
    )
}

impl Counter {
    /// Every name is listed once, beside its count.
    pub closed spec fn wf(&self) -> bool {
        &&& self.names@.len() == self.counts@.len()
        &&& texts(self.names@).no_duplicates()
    }

    /// Nothing counted.
    pub fn new() -> (counter: Self)
        ensures
            counter.wf(),
            counter@ == Map::<Seq<char>, i64>::empty(),
    {
        let counter = Counter { names: Vec::new(), counts: Vec::new() };
        assert(counter@ =~= Map::<Seq<char>, i64>::empty());
        counter
    }

    /// Where a name is listed.
    fn find(&self, name: &str) -> (place: Option<usize>)
        requires
            self.wf(),
        ensures
            match place {
                Some(i) => i < self.names@.len() && texts(self.names@)[i as int] == name@
                    && self@.contains_key(name@) && self@[name@] == self.counts@[i as int],
                None => !texts(self.names@).contains(name@) && !self@.contains_key(name@),
            },
    {
        let mut i: usize = 0;
        while i < self.names.len()
            invariant
                self.wf(),
                i <= self.names@.len(),
                forall|j: int| 0 <= j < i ==> texts(self.names@)[j] != name@,
            decreases self.names@.len() - i,
        {
            if same_text(self.names[i].as_str(), name) {
                proof {
                    lemma_assoc_at(texts(self.names@), self.counts@, i as int);
                }
                return Some(i);
            }
            i += 1;
        }
        None
    }

    /// The count of a name.
    pub fn get(&self, name: &str) -> (count: i64)
        requires
            self.wf(),
        ensures
            count == count_of(self@, name@),
    {
        match self.find(name) {
            Some(i) => self.counts[i],
            None => 0,
        }
    }

    /// Adds to the count of a name.
    pub fn add_value(&mut self, name: &str, value: i64)
        requires
            old(self).wf(),
            i64::MIN <= count_of(old(self)@, name@) + value <= i64::MAX,
        ensures
            final(self).wf(),
            final(self)@ == old(self)@.insert(
                name@,
                (count_of(old(self)@, name@) + value) as i64,
            ),
    {
        match self.find(name) {
            Some(i) => {
                let sum: i64 = self.counts[i] + value;
                proof {
                    lemma_assoc_update(texts(self.names@), self.counts@, i as int, sum);
                }
                self.counts.set(i, sum);
            },
            None => {
                proof {
                    lemma_assoc_push(texts(self.names@), self.counts@, name@, value);
                }
                self.names.push(name.to_owned());
                self.counts.push(value);
                assert(texts(self.names@) =~= texts(old(self).names@).push(name@));
            },
        }
    }

    /// Adds all counts of another counter.
    pub fn add_counter(&mut self, other: &Counter)
        requires
            old(self).wf(),
            other.wf(),
            sums_fit(old(self)@, other@),
        ensures
            final(self).wf(),
            final(self)@ == added(old(self)@, other@),
    {
        let mut i: usize = 0;
        let ghost names = texts(other.names@);
        assert(self@ =~= added(old(self)@, assoc(names.take(0), other.counts@.take(0))));
        while i < other.names.len()
            invariant
                self.wf(),
                other.wf(),
                i <= other.names@.len(),
                names == texts(other.names@),
                sums_fit(old(self)@, other@),
                self@ == added(old(self)@, assoc(names.take(i as int), other.counts@.take(i as int))),
            decreases other.names@.len() - i,
        {
            let ghost seen = names.take(i as int);
            let ghost counts = other.counts@.take(i as int);
            let ghost name = names[i as int];
            let ghost value = other.counts@[i as int];
            proof {
                lemma_assoc_at(names, other.counts@, i as int);
                assert(!seen.contains(name));
                lemma_assoc_push(seen, counts, name, value);
                assert(seen.push(name) =~= names.take(i + 1));
                assert(counts.push(value) =~= other.counts@.take(i + 1));
            }
            self.add_value(other.names[i].as_str(), other.counts[i]);
            assert(self@ =~= added(
                old(self)@,
                assoc(names.take(i + 1), other.counts@.take(i + 1)),
            ));
            i += 1;
        }
        proof {
            assert(names.take(i as int) =~= names);
            assert(other.counts@.take(i as int) =~= other.counts@);
        }
    }

    /// All names with their counts, in the order in which the names were first counted.
    pub fn entries(&self) -> (entries: Vec<(String, i64)>)
        requires
            self.wf(),
        ensures
            forall|i: int| 0 <= i < entries@.len() ==> self@.contains_key(
                (#[trigger] entries@[i]).0@,
            ) && self@[entries@[i].0@] == entries@[i].1,
            forall|name: Seq<char>| #[trigger] self@.contains_key(name) ==> exists|i: int|
                0 <= i < entries@.len() && (#[trigger] entries@[i]).0@ == name,
            forall|i: int, j: int|
                0 <= i < j < entries@.len() ==> (#[trigger] entries@[i]).0@ != (
                #[trigger] entries@[j]).0@,
    {
        let mut entries: Vec<(String, i64)> = Vec::new();
        let mut i: usize = 0;
        while i < self.names.len()
            invariant
                self.wf(),
                i <= self.names@.len(),
                entries@.len() == i,
                forall|j: int|
                    0 <= j < i ==> (#[trigger] entries@[j]).0@ == texts(self.names@)[j]
                        && entries@[j].1 == self.counts@[j],
            decreases self.names@.len() - i,
        {
            entries.push((self.names[i].as_str().to_owned(), self.counts[i]));
            i += 1;
        }
        proof {
            let names = texts(self.names@);
            assert forall|j: int| 0 <= j < entries@.len() implies self@.contains_key(
                (#[trigger] entries@[j]).0@,
            ) && self@[entries@[j].0@] == entries@[j].1 by {
                lemma_assoc_at(names, self.counts@, j);
            }
            assert forall|name: Seq<char>| #[trigger] self@.contains_key(name) implies exists|k: int|
                0 <= k < entries@.len() && (#[trigger] entries@[k]).0@ == name by {
                let k = names.index_of(name);
                assert(entries@[k].0@ == name);
            }
        }
        entries
    }
}

impl Default for Counter {
    fn default() -> (counter: Self)
        ensures
            counter.wf(),
            counter@ == Map::<Seq<char>, i64>::empty(),
    {
        Counter::new()
    }
}

/// When counts are added up, the count of each name is the sum of its counts, and the names are
/// those of either side.
pub proof fn law_counts_add_up(
    a: Map<Seq<char>, i64>,
    b: Map<Seq<char>, i64>,
    name: Seq<char>,
)
    requires
        sums_fit(a, b),
    ensures
        count_of(added(a, b), name) == count_of(a, name) + count_of(b, name),
        added(a, b).contains_key(name) <==> a.contains_key(name) || b.contains_key(name),
        !a.contains_key(name) ==> count_of(a, name) == 0,
        a.contains_key(name) ==> count_of(a, name) == a[name],
{
}

/// The texts of names stand in the order of the names.
pub proof fn law_texts_stand_in_the_order_of_names(names: Seq<String>, i: int)
    requires
        0 <= i < names.len(),
    ensures
        texts(names).len() == names.len(),
        texts(names)[i] == names[i]@,
{
}

} // verus!
