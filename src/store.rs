//! The key-value store: a mapping from string keys to byte values.
use vstd::prelude::*;
use vstd::slice::slice_to_vec;

use crate::frame::fits_len;

verus! {

/// A store entry set: keys are unique, and every value fits in a frame.
pub struct Store {
    keys: Vec<String>,
    values: Vec<Vec<u8>>,
    contents: Ghost<Map<Seq<char>, Seq<u8>>>,
}

impl View for Store {
    type V = Map<Seq<char>, Seq<u8>>;

    closed spec fn view(&self) -> Map<Seq<char>, Seq<u8>> {
        self.contents@
    }
}

impl Store {
    pub closed spec fn wf(&self) -> bool {
        &&& self.keys@.len() == self.values@.len()
        &&& forall|i: int, j: int|
            0 <= i < j < self.keys@.len() ==> #[trigger] self.keys@[i]@ != #[trigger] self.keys@[j]@
        &&& forall|k: Seq<char>|
            #[trigger] self.contents@.contains_key(k) <==> exists|i: int|
                0 <= i < self.keys@.len() && #[trigger] self.keys@[i]@ == k
        &&& forall|i: int|
            0 <= i < self.keys@.len() ==> self.contents@[#[trigger] self.keys@[i]@]
                == self.values@[i]@
        &&& values_fit(self.contents@)
    }

    /// An empty store.
    pub fn new() -> (r: Store)
        ensures
            r.wf(),
            r@ == Map::<Seq<char>, Seq<u8>>::empty(),
    {
        Store { keys: Vec::new(), values: Vec::new(), contents: Ghost(Map::empty()) }
    }

    fn find(&self, key: &String) -> (r: Option<usize>)
        requires
            self.wf(),
        ensures
            match r {
                Some(i) => i < self.keys@.len() && self.keys@[i as int]@ == key@,
                None => !self@.contains_key(key@),
            },
    {
        let mut i: usize = 0;
        while i < self.keys.len()
            invariant
                self.wf(),
                i <= self.keys@.len(),
                forall|j: int| 0 <= j < i ==> self.keys@[j]@ != key@,
            decreases self.keys@.len() - i,
        {
            if self.keys[i].eq(key) {
                return Some(i);
            }
            i = i + 1;
        }
        None
    }

    /// Stores `value` under `key`, replacing any earlier value. A value is at
    /// most `MAX_LEN` bytes long, the most a frame can carry back to a client.
    pub fn set(&mut self, key: String, value: Vec<u8>)
        requires
            old(self).wf(),
            fits_len(value@.len() as int),
        ensures
            final(self).wf(),
            final(self)@ == old(self)@.insert(key@, value@),
    {
        let ghost k = key@;
        let ghost v = value@;
        match self.find(&key) {
            Some(i) => {
                self.values.set(i, value);
                self.contents = Ghost(self.contents@.insert(k, v));
                assert forall|j: int| 0 <= j < self.keys@.len() implies self.contents@[
                    #[trigger] self.keys@[j]@] == self.values@[j]@ by {
                    if j != i {
                        assert(self.keys@[j]@ != self.keys@[i as int]@);
                    }
                }
            },
            None => {
                self.keys.push(key);
                self.values.push(value);
                self.contents = Ghost(self.contents@.insert(k, v));
                let ghost n = self.keys@.len() - 1;
                assert(self.keys@[n]@ == k);
                assert forall|kk: Seq<char>| #[trigger]
                    self.contents@.contains_key(kk) implies exists|i: int|
                    0 <= i < self.keys@.len() && #[trigger] self.keys@[i]@ == kk by {
                    if kk != k {
                        let i = choose|i: int|
                            0 <= i < old(self).keys@.len() && #[trigger] old(self).keys@[i]@ == kk;
                        assert(self.keys@[i]@ == kk);
                    }
                }
            },
        }
    }

    /// The value stored under `key`, if any.
    pub fn get(&self, key: &String) -> (r: Option<Vec<u8>>)
        requires
            self.wf(),
        ensures
            match r {
                Some(v) => self@.contains_key(key@) && v@ == self@[key@] && fits_len(
                    v@.len() as int,
                ),
                None => !self@.contains_key(key@),
            },
    {
        match self.find(key) {
            Some(i) => {
                assert(self.contents@.contains_key(self.keys@[i as int]@));
                Some(slice_to_vec(self.values[i].as_slice()))
            },
            None => None,
        }
    }
}

/// Every value of the map fits in a frame.
pub open spec fn values_fit(m: Map<Seq<char>, Seq<u8>>) -> bool {
    forall|k: Seq<char>| #[trigger] m.contains_key(k) ==> fits_len(m[k].len() as int)
}

} // verus!
