use vstd::prelude::*;

use crate::assoc::{
    as_map, has_key, lemma_as_map_index, lemma_as_map_push, lemma_as_map_update, unique_keys,
};
use crate::bytes::{bytes_eq, copy_bytes};
use crate::database::{value_stored, Database, IterableDatabase};
use crate::error::{Error, ErrorKind};

verus! {

/// Simple in-memory storage: a table of (hash, payload) pairs with distinct
/// hashes.
pub struct HashMapBase {
    entries: Vec<(Vec<u8>, Vec<u8>)>,
}

impl HashMapBase {
    /// The table, seen as pairs of byte strings.
    pub closed spec fn pairs(&self) -> Seq<(Seq<u8>, Seq<u8>)> {
        self.entries@.map_values(|p: (Vec<u8>, Vec<u8>)| (p.0@, p.1@))
    }

    pub fn new() -> (r: Self)
        ensures
            r.well_formed(),
            r.contents() == Map::<Seq<u8>, Seq<u8>>::empty(),
    {
        let r = HashMapBase { entries: Vec::new() };
        assert(r.contents() =~= Map::<Seq<u8>, Seq<u8>>::empty());
        r
    }

    /// Position of `key` in the table.
    fn find(&self, key: &Vec<u8>) -> (r: Option<usize>)
        ensures
            r matches Some(i) ==> i < self.pairs().len() && self.pairs()[i as int].0 == key@,
            r is None ==> !has_key(self.pairs(), key@),
    {
        let mut i: usize = 0;
        while i < self.entries.len()
            invariant
                i <= self.entries@.len(),
                self.pairs().len() == self.entries@.len(),
                forall|j: int| 0 <= j < i ==> self.pairs()[j].0 != key@,
            decreases self.entries@.len() - i,
        {
            if bytes_eq(self.entries[i].0.as_slice(), key.as_slice()) {
                return Some(i);
            }
            i = i + 1;
        }
        None
    }
}

impl Default for HashMapBase {
    fn default() -> (r: Self)
        ensures
            r.well_formed(),
            r.contents() == Map::<Seq<u8>, Seq<u8>>::empty(),
    {
        HashMapBase::new()
    }
}

impl Database for HashMapBase {
    closed spec fn contents(&self) -> Map<Seq<u8>, Seq<u8>> {
        as_map(self.pairs())
    }

    closed spec fn well_formed(&self) -> bool {
        unique_keys(self.pairs())
    }

    /// An in-memory table never fails.
    open spec fn reliable(&self) -> bool {
        true
    }

    /// Never fails.
    fn try_insert(&mut self, key: Vec<u8>, value: Vec<u8>) -> (r: Result<(), Error>)
        ensures
            r is Ok,
    {
        match self.find(&key) {
            Some(i) => {
                proof {
                    lemma_as_map_index(self.pairs(), i as int);
                }
                Ok(())
            },
            None => {
                let ghost before = self.pairs();
                let ghost (k, v) = (key@, value@);
                self.entries.push((key, value));
                proof {
                    assert(self.pairs() =~= before.push((k, v)));
                    lemma_as_map_push(before, k, v);
                }
                Ok(())
            },
        }
    }

    /// Never fails.
    fn insert(&mut self, key: Vec<u8>, value: Vec<u8>) -> (r: Result<(), Error>)
        ensures
            r is Ok,
    {
        let ghost before = self.pairs();
        let ghost (k, v) = (key@, value@);
        match self.find(&key) {
            Some(i) => {
                self.entries.set(i, (key, value));
                proof {
                    assert(self.pairs() =~= before.update(i as int, (before[i as int].0, v)));
                    lemma_as_map_update(before, i as int, v);
                }
                Ok(())
            },
            None => {
                self.entries.push((key, value));
                proof {
                    assert(self.pairs() =~= before.push((k, v)));
                    lemma_as_map_push(before, k, v);
                }
                Ok(())
            },
        }
    }

    /// Succeeds exactly on the keys it holds.
    fn get(&self, key: &Vec<u8>) -> (r: Result<Vec<u8>, Error>)
        ensures
            self.contents().contains_key(key@) ==> r is Ok,
    {
        match self.find(key) {
            Some(i) => {
                proof {
                    lemma_as_map_index(self.pairs(), i as int);
                }
                Ok(copy_bytes(self.entries[i].1.as_slice()))
            },
            None => Err(Error::new(ErrorKind::NotFound)),
        }
    }

    /// Succeeds exactly when every key is held; a missing key gives
    /// `NotFound`.
    fn get_multi(&self, keys: &[Vec<u8>]) -> (r: Result<Vec<Vec<u8>>, Error>)
        ensures
            r is Ok <==> forall|i: int| 0 <= i < keys@.len() ==> self.contents().contains_key(#[trigger] keys@[i]@),
            r matches Err(e) ==> e.kind == ErrorKind::NotFound,
    {
        let mut out: Vec<Vec<u8>> = Vec::new();
        let mut i: usize = 0;
        while i < keys.len()
            invariant
                self.well_formed(),
                i <= keys@.len(),
                out@.len() == i,
                forall|j: int|
                    0 <= j < i ==> self.contents().contains_key(#[trigger] keys@[j]@)
                        && out@[j]@ == self.contents()[keys@[j]@],
            decreases keys@.len() - i,
        {
            match self.get(&keys[i]) {
                Ok(v) => {
                    out.push(v);
                },
                Err(e) => {
                    return Err(e);
                },
            }
            i = i + 1;
        }
        Ok(out)
    }

    fn contains(&self, key: &Vec<u8>) -> (r: bool) {
        match self.find(key) {
            Some(i) => {
                proof {
                    lemma_as_map_index(self.pairs(), i as int);
                }
                true
            },
            None => false,
        }
    }
}

impl IterableDatabase for HashMapBase {
    fn keys(&self) -> (r: Vec<Vec<u8>>) {
        let mut out: Vec<Vec<u8>> = Vec::new();
        let mut i: usize = 0;
        while i < self.entries.len()
            invariant
                self.well_formed(),
                i <= self.entries@.len(),
                out@.len() == i,
                self.pairs().len() == self.entries@.len(),
                forall|j: int| 0 <= j < i ==> (#[trigger] out@[j])@ == self.pairs()[j].0,
            decreases self.entries@.len() - i,
        {
            out.push(copy_bytes(self.entries[i].0.as_slice()));
            i = i + 1;
        }
        proof {
            assert forall|k: Seq<u8>| self.contents().contains_key(k) implies exists|j: int|
                0 <= j < out@.len() && (#[trigger] out@[j])@ == k by {
                let j = choose|j: int| 0 <= j < self.pairs().len() && self.pairs()[j].0 == k;
                assert(out@[j]@ == k);
            }
            assert forall|j: int| 0 <= j < out@.len() implies self.contents().contains_key(
                (#[trigger] out@[j])@,
            ) by {
                lemma_as_map_index(self.pairs(), j);
            }
        }
        out
    }

    fn iterator(&self) -> (r: Vec<(Vec<u8>, Vec<u8>)>) {
        let mut out: Vec<(Vec<u8>, Vec<u8>)> = Vec::new();
        let mut i: usize = 0;
        while i < self.entries.len()
            invariant
                self.well_formed(),
                i <= self.entries@.len(),
                out@.len() == i,
                self.pairs().len() == self.entries@.len(),
                forall|j: int| 0 <= j < i ==> (#[trigger] out@[j]).0@ == self.pairs()[j].0 && out@[j].1@ == self.pairs()[j].1,
            decreases self.entries@.len() - i,
        {
            out.push((copy_bytes(self.entries[i].0.as_slice()), copy_bytes(self.entries[i].1.as_slice())));
            i = i + 1;
        }
        proof {
            assert forall|j: int| 0 <= j < out@.len() implies self.contents().contains_key((#[trigger] out@[j]).0@)
                && self.contents()[out@[j].0@] == out@[j].1@ by {
                lemma_as_map_index(self.pairs(), j);
            }
            assert forall|k: Seq<u8>| self.contents().contains_key(k) implies exists|j: int|
                0 <= j < out@.len() && (#[trigger] out@[j]).0@ == k by {
                let j = choose|j: int| 0 <= j < self.pairs().len() && self.pairs()[j].0 == k;
                assert(out@[j].0@ == k);
            }
        }
        out
    }

    fn values(&self) -> (r: Vec<Vec<u8>>) {
        let mut out: Vec<Vec<u8>> = Vec::new();
        let mut i: usize = 0;
        while i < self.entries.len()
            invariant
                self.well_formed(),
                i <= self.entries@.len(),
                out@.len() == i,
                self.pairs().len() == self.entries@.len(),
                forall|j: int| 0 <= j < i ==> (#[trigger] out@[j])@ == self.pairs()[j].1,
            decreases self.entries@.len() - i,
        {
            out.push(copy_bytes(self.entries[i].1.as_slice()));
            i = i + 1;
        }
        proof {
            assert forall|j: int| 0 <= j < out@.len() implies value_stored(self.contents(), (#[trigger] out@[j])@) by {
                lemma_as_map_index(self.pairs(), j);
                assert(self.contents().contains_key(self.pairs()[j].0));
            }
            assert forall|k: Seq<u8>| #[trigger] self.contents().contains_key(k) implies exists|j: int|
                0 <= j < out@.len() && out@[j]@ == self.contents()[k] by {
                let j = choose|j: int| 0 <= j < self.pairs().len() && self.pairs()[j].0 == k;
                lemma_as_map_index(self.pairs(), j);
                assert(out@[j]@ == self.contents()[k]);
            }
        }
        out
    }

    /// Never fails.
    fn clear(&mut self) -> (r: Result<(), Error>)
        ensures
            r is Ok,
    {
        self.entries = Vec::new();
        assert(self.contents() =~= Map::<Seq<u8>, Seq<u8>>::empty());
        Ok(())
    }
}

} // verus!
