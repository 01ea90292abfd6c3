//! Numbering of categorical values, such as features or class labels.

use std::collections::HashMap;
use vstd::prelude::*;

verus! {

broadcast use vstd::std_specs::hash::group_hash_axioms;

/// Numberer for categorical values: each distinct value gets the next
/// number, counting from a start number, in the order of first addition.
pub struct Numberer {
    values: Vec<u64>,
    numbers: HashMap<u64, usize>,
    start_at: usize,
}

impl View for Numberer {
    type V = Seq<u64>;

    /// The distinct values added so far, in the order of first addition.
    closed spec fn view(&self) -> Seq<u64> {
        self.values@
    }
}

impl Numberer {
    /// The number of the first value.
    pub closed spec fn start(&self) -> nat {
        self.start_at as nat
    }

    /// The table of numbers agrees with the list of values: value `i` of
    /// the list has number `start + i`, and no value is listed twice.
    pub closed spec fn wf(&self) -> bool {
        &&& self.values@.no_duplicates()
        &&& forall|i: int|
            0 <= i < self.values@.len() ==> #[trigger] self.numbers@.contains_key(self.values@[i])
                && self.numbers@[self.values@[i]] == i + self.start_at
        &&& forall|k: u64| #[trigger]
            self.numbers@.contains_key(k) ==> self.values@.contains(k)
        &&& self.start_at + self.values@.len() <= usize::MAX
    }

    pub fn new(start_at: usize) -> (r: Numberer)
        ensures
            r.wf(),
            r@ == Seq::<u64>::empty(),
            r@.no_duplicates(),
            r.start() == start_at,
    {
        let r = Numberer { values: Vec::new(), numbers: HashMap::new(), start_at };
        assert(r.values@ =~= Seq::<u64>::empty());
        r
    }

    /// Add a value. If the value has already been encountered before, the
    /// corresponding number is returned.
    pub fn add(&mut self, value: u64) -> (r: usize)
        requires
            old(self).wf(),
            !old(self)@.contains(value) ==> old(self).start() + old(self)@.len() < usize::MAX,
        ensures
            final(self).wf(),
            final(self)@.no_duplicates(),
            final(self).start() == old(self).start(),
            old(self)@.contains(value) ==> final(self)@ == old(self)@ && old(self).start() <= r
                < old(self).start() + old(self)@.len() && old(self)@[r - old(self).start()]
                == value,
            !old(self)@.contains(value) ==> final(self)@ == old(self)@.push(value) && r == old(
                self,
            ).start() + old(self)@.len(),
    {
        match self.numbers.get(&value) {
            Some(n) => {
                let ghost i = choose|i: int| 0 <= i < self.values@.len() && self.values@[i] == value;
                assert(self.numbers@.contains_key(self.values@[i]));
                *n
            },
            None => {
                proof {
                    if self.values@.contains(value) {
                        let i = choose|i: int|
                            0 <= i < self.values@.len() && self.values@[i] == value;
                        assert(self.numbers@.contains_key(self.values@[i]));
                    }
                }
                let number = self.values.len() + self.start_at;
                let ghost old_values = self.values@;
                self.values.push(value);
                self.numbers.insert(value, number);
                proof {
                    assert forall|k: u64| #[trigger]
                        self.numbers@.contains_key(k) implies self.values@.contains(k) by {
                        if k != value {
                            assert(old_values.contains(k));
                            let i = choose|i: int| 0 <= i < old_values.len() && old_values[i] == k;
                            assert(self.values@[i] == k);
                        } else {
                            assert(self.values@[old_values.len() as int] == k);
                        }
                    }
                    assert forall|i: int| 0 <= i < self.values@.len() implies #[trigger]
                        self.numbers@.contains_key(self.values@[i]) && self.numbers@[self.values@[i]]
                        == i + self.start_at by {
                        if i < old_values.len() {
                            assert(self.values@[i] == old_values[i]);
                            assert(old_values[i] != value);
                        }
                    }
                }
                number
            },
        }
    }

    /// Return the number for a value.
    pub fn number(&self, item: &u64) -> (r: Option<usize>)
        requires
            self.wf(),
        ensures
            match r {
                Some(n) => self.start() <= n < self.start() + self@.len() && self@[n - self.start()]
                    == *item,
                None => !self@.contains(*item),
            },
    {
        match self.numbers.get(item) {
            Some(n) => {
                let ghost i = choose|i: int| 0 <= i < self.values@.len() && self.values@[i] == *item;
                assert(self.numbers@.contains_key(self.values@[i]));
                Some(*n)
            },
            None => {
                proof {
                    if self.values@.contains(*item) {
                        let i = choose|i: int|
                            0 <= i < self.values@.len() && self.values@[i] == *item;
                        assert(self.numbers@.contains_key(self.values@[i]));
                    }
                }
                None
            },
        }
    }

    /// Return the value for a number.
    pub fn value(&self, number: usize) -> (r: Option<&u64>)
        ensures
            self.start() <= number < self.start() + self@.len() ==> r == Some(
                &self@[number - self.start()],
            ),
            !(self.start() <= number < self.start() + self@.len()) ==> r is None,
    {
        if number >= self.start_at && number - self.start_at < self.values.len() {
            Some(&self.values[number - self.start_at])
        } else {
            None
        }
    }

    /// A well-formed numberer holds each value once.
    pub proof fn lemma_values_distinct(&self)
        requires
            self.wf(),
        ensures
            self@.no_duplicates(),
    {
    }
}

} // verus!
