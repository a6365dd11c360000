//! Clients kept for the next call, by the brokers that they talk to.

use vstd::prelude::*;
use vstd::string::*;

use crate::text::str_eq;

verus! {

/// Clients, each under the brokers that it was made for.
pub struct ClientCache<T> {
    entries: Vec<(String, T)>,
}

impl<T> View for ClientCache<T> {
    type V = Map<Seq<char>, T>;

    closed spec fn view(&self) -> Map<Seq<char>, T> {
        Map::new(
            |k: Seq<char>| exists|i: int| 0 <= i < self.entries@.len() && self.entries@[i].0@ == k,
            |k: Seq<char>|
                self.entries@[choose|i: int|
                    0 <= i < self.entries@.len() && self.entries@[i].0@ == k].1,
        )
    }
}

impl<T> ClientCache<T> {
    /// No brokers have two clients.
    pub closed spec fn well_formed(self) -> bool {
        forall|i: int, j: int|
            0 <= i < j < self.entries@.len() ==> (#[trigger] self.entries@[i]).0@ != (
            #[trigger] self.entries@[j]).0@
    }

    /// How many clients there are.
    pub closed spec fn count(self) -> nat {
        self.entries@.len()
    }

    proof fn lemma_entry(self, i: int)
        requires
            self.well_formed(),
            0 <= i < self.entries@.len(),
        ensures
            self@.dom().contains(self.entries@[i].0@),
            self@[self.entries@[i].0@] == self.entries@[i].1,
    {
        let k = self.entries@[i].0@;
        let j = choose|j: int| 0 <= j < self.entries@.len() && self.entries@[j].0@ == k;
        assert(0 <= j < self.entries@.len() && self.entries@[j].0@ == k);
        if j < i {
            assert(self.entries@[j].0@ != self.entries@[i].0@);
        } else if i < j {
            assert(self.entries@[i].0@ != self.entries@[j].0@);
        }
    }

    /// Without clients.
    pub fn new() -> (r: ClientCache<T>)
        ensures
            r.well_formed(),
            r@ == Map::<Seq<char>, T>::empty(),
            r.count() == 0,
    {
        let r = ClientCache { entries: Vec::new() };
        assert(r@.dom() =~= Set::empty());
        assert(r@ =~= Map::empty());
        r
    }

    fn place(&self, brokers: &str) -> (r: Option<usize>)
        requires
            self.well_formed(),
        ensures
            match r {
                Some(i) => i < self.entries@.len() && self.entries@[i as int].0@ == brokers@
                    && self@.dom().contains(brokers@) && self@[brokers@]
                    == self.entries@[i as int].1,
                None => !self@.dom().contains(brokers@),
            },
    {
        let mut i: usize = 0;
        while i < self.entries.len()
            invariant
                self.well_formed(),
                i <= self.entries@.len(),
                forall|j: int| 0 <= j < i ==> (#[trigger] self.entries@[j]).0@ != brokers@,
            decreases self.entries@.len() - i,
        {
            if str_eq(self.entries[i].0.as_str(), brokers) {
                proof {
                    self.lemma_entry(i as int);
                }
                return Some(i);
            }
            i = i + 1;
        }
        None
    }

    /// The client for some brokers, if there is one.
    pub fn find(&self, brokers: &str) -> (r: Option<&T>)
        requires
            self.well_formed(),
        ensures
            match r {
                Some(client) => self@.dom().contains(brokers@) && self@[brokers@] == *client,
                None => !self@.dom().contains(brokers@),
            },
    {
        match self.place(brokers) {
            Some(i) => Some(&self.entries[i].1),
            None => None,
        }
    }

    /// Keeps a client for some brokers, in place of the one that they had.
    pub fn keep(&mut self, brokers: String, client: T)
        requires
            old(self).well_formed(),
        ensures
            final(self).well_formed(),
            final(self)@ == old(self)@.insert(brokers@, client),
            final(self).count() == old(self).count() + if old(self)@.dom().contains(brokers@) {
                0int
            } else {
                1
            },
    {
        let ghost k = brokers@;
        let ghost before = *self;
        match self.place(brokers.as_str()) {
            Some(i) => {
                self.entries.set(i, (brokers, client));
            },
            None => {
                proof {
                    assert forall|j: int| 0 <= j < before.entries@.len() implies (
                    #[trigger] before.entries@[j]).0@ != k by {
                        before.lemma_entry(j);
                    }
                }
                self.entries.push((brokers, client));
            },
        }
        proof {
            assert(self.well_formed());
            let wanted = before@.insert(k, client);
            assert forall|x: Seq<char>| self@.dom().contains(x) == wanted.dom().contains(x) by {
                if self@.dom().contains(x) {
                    let j = choose|j: int|
                        0 <= j < self.entries@.len() && self.entries@[j].0@ == x;
                    if x != k {
                        assert(before.entries@[j].0@ == x);
                    }
                }
                if wanted.dom().contains(x) {
                    if x == k {
                        if before@.dom().contains(k) {
                            let o = choose|o: int|
                                0 <= o < before.entries@.len() && before.entries@[o].0@ == k;
                            assert(self.entries@[o].0@ == k);
                        } else {
                            assert(self.entries@[self.entries@.len() - 1].0@ == k);
                        }
                    } else {
                        let o = choose|o: int|
                            0 <= o < before.entries@.len() && before.entries@[o].0@ == x;
                        assert(self.entries@[o].0@ == x);
                    }
                }
            }
            assert forall|x: Seq<char>| wanted.dom().contains(x) implies self@[x] == wanted[x] by {
                let j = choose|j: int| 0 <= j < self.entries@.len() && self.entries@[j].0@ == x;
                assert(self@.dom().contains(x));
                self.lemma_entry(j);
                if x != k {
                    assert(before.entries@[j] == self.entries@[j]);
                    before.lemma_entry(j);
                }
            }
            assert(self@ =~= wanted);
        }
    }
}

} // verus!
