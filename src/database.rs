use vstd::prelude::*;

use crate::bytes::copy_bytes;
use crate::error::{Error, ErrorKind};

verus! {

/// Every key that `old` holds stays with its value in `new`, and every key
/// that is new in `new` comes, with its value, from the first of `pairs`
/// with that key.
pub open spec fn grows_from(
    old: Map<Seq<u8>, Seq<u8>>,
    new: Map<Seq<u8>, Seq<u8>>,
    pairs: Seq<(Vec<u8>, Vec<u8>)>,
) -> bool {
    &&& forall|k: Seq<u8>| old.contains_key(k) ==> #[trigger] new.contains_key(k) && new[k] == old[k]
    &&& forall|k: Seq<u8>|
        #[trigger] new.contains_key(k) && !old.contains_key(k) ==> exists|i: int|
            0 <= i < pairs.len() && pairs[i].0@ == k && pairs[i].1@ == new[k] && forall|j: int|
                0 <= j < i ==> pairs[j].0@ != k
}

/// Some key of `m` holds `v`.
pub open spec fn value_stored(m: Map<Seq<u8>, Seq<u8>>, v: Seq<u8>) -> bool {
    exists|k: Seq<u8>| m.contains_key(k) && m[k] == v
}

/// Storage of chunk payloads as key-value pairs, keyed by hash.
pub trait Database {
    /// What the store holds.
    spec fn contents(&self) -> Map<Seq<u8>, Seq<u8>>;

    /// The store's internal invariant.
    spec fn well_formed(&self) -> bool;

    /// The store never fails to store a value or to give back a stored one
    /// (it keeps them in memory, say); a store over a device is not.
    spec fn reliable(&self) -> bool;

    /// Stores `value` under `key` unless `key` is present already, which is
    /// no failure.
    fn try_insert(&mut self, key: Vec<u8>, value: Vec<u8>) -> (r: Result<(), Error>)
        requires
            old(self).well_formed(),
        ensures
            final(self).well_formed(),
            final(self).reliable() == old(self).reliable(),
            old(self).contents().contains_key(key@) || old(self).reliable() ==> r is Ok,
            r is Ok ==> final(self).contents() == (if old(self).contents().contains_key(key@) {
                old(self).contents()
            } else {
                old(self).contents().insert(key@, value@)
            }),
            r is Err ==> final(self).contents() == old(self).contents(),
    ;

    /// Stores `value` under `key`, replacing what was there.
    fn insert(&mut self, key: Vec<u8>, value: Vec<u8>) -> (r: Result<(), Error>)
        requires
            old(self).well_formed(),
        ensures
            final(self).well_formed(),
            final(self).reliable() == old(self).reliable(),
            old(self).reliable() ==> r is Ok,
            r is Ok ==> final(self).contents() == old(self).contents().insert(key@, value@),
            r is Err ==> final(self).contents() == old(self).contents(),
    ;

    /// The value stored under `key`; `NotFound` when there is none.
    fn get(&self, key: &Vec<u8>) -> (r: Result<Vec<u8>, Error>)
        requires
            self.well_formed(),
        ensures
            r is Ok ==> self.contents().contains_key(key@) && r->Ok_0@ == self.contents()[key@],
            !self.contents().contains_key(key@) ==> r is Err && r->Err_0.kind
                == ErrorKind::NotFound,
            self.reliable() && self.contents().contains_key(key@) ==> r is Ok,
    ;

    /// Whether a value is stored under `key`.
    fn contains(&self, key: &Vec<u8>) -> (r: bool)
        requires
            self.well_formed(),
        ensures
            r == self.contents().contains_key(key@),
    ;

    /// `try_insert` of each pair in turn, stopping at the first failure,
    /// whose error it returns; the pairs after it are left out.
    fn insert_multi(&mut self, pairs: Vec<(Vec<u8>, Vec<u8>)>) -> (r: Result<(), Error>)
        requires
            old(self).well_formed(),
        ensures
            final(self).well_formed(),
            final(self).reliable() == old(self).reliable(),
            grows_from(old(self).contents(), final(self).contents(), pairs@),
            r is Ok ==> forall|i: int|
                0 <= i < pairs@.len() ==> final(self).contents().contains_key(
                    #[trigger] pairs@[i].0@,
                ),
            r is Err ==> exists|i: int|
                0 <= i < pairs@.len() && !old(self).contents().contains_key(pairs@[i].0@)
                    && grows_from(old(self).contents(), final(self).contents(), pairs@.subrange(0, i))
                    && forall|j: int|
                    0 <= j < i ==> final(self).contents().contains_key(#[trigger] pairs@[j].0@),
            old(self).reliable() ==> r is Ok,
            (forall|i: int|
                0 <= i < pairs@.len() ==> old(self).contents().contains_key(#[trigger] pairs@[i].0@))
                ==> r is Ok && final(self).contents() == old(self).contents(),
    {
        let mut i: usize = 0;
        proof {
            assert(pairs@.subrange(0, 0).len() == 0);
        }
        while i < pairs.len()
            invariant
                self.well_formed(),
                self.reliable() == old(self).reliable(),
                i <= pairs@.len(),
                grows_from(old(self).contents(), self.contents(), pairs@.subrange(0, i as int)),
                forall|j: int| 0 <= j < i ==> self.contents().contains_key(#[trigger] pairs@[j].0@),
                (forall|j: int|
                    0 <= j < pairs@.len() ==> old(self).contents().contains_key(#[trigger] pairs@[j].0@))
                    ==> self.contents() == old(self).contents(),
            decreases pairs@.len() - i,
        {
            let key = copy_bytes(pairs[i].0.as_slice());
            let value = copy_bytes(pairs[i].1.as_slice());
            let ghost before = self.contents();
            let ghost prefix = pairs@.subrange(0, i as int);
            let ghost next = pairs@.subrange(0, i + 1);
            match self.try_insert(key, value) {
                Ok(()) => {},
                Err(e) => {
                    proof {
                        if old(self).contents().contains_key(pairs@[i as int].0@) {
                            assert(before.contains_key(pairs@[i as int].0@));
                        }
                        lemma_grows_from_prefix(old(self).contents(), self.contents(), pairs@, i as int);
                    }
                    return Err(e);
                },
            }
            proof {
                let after = self.contents();
                assert forall|k: Seq<u8>| #[trigger] after.contains_key(k) && !old(self).contents().contains_key(k)
                    implies exists|j: int| 0 <= j < next.len() && next[j].0@ == k && next[j].1@ == after[k]
                    && forall|q: int| 0 <= q < j ==> next[q].0@ != k by {
                    if !before.contains_key(k) {
                        assert(next[i as int].0@ == k && next[i as int].1@ == after[k]);
                        assert forall|q: int| 0 <= q < i implies next[q].0@ != k by {
                            assert(before.contains_key(pairs@[q].0@));
                        }
                    } else {
                        assert(before.contains_key(k) && !old(self).contents().contains_key(k));
                        let j = choose|j: int| 0 <= j < prefix.len() && prefix[j].0@ == k && prefix[j].1@ == before[k]
                            && forall|q: int| 0 <= q < j ==> prefix[q].0@ != k;
                        assert(next[j] == prefix[j]);
                        assert forall|q: int| 0 <= q < j implies next[q].0@ != k by {
                            assert(next[q] == prefix[q]);
                        }
                    }
                }
            }
            i = i + 1;
        }
        proof {
            assert(pairs@.subrange(0, i as int) =~= pairs@);
        }
        Ok(())
    }

    /// The values stored under `keys`, in the same order; the first `get`
    /// that fails ends it with its error.
    fn get_multi(&self, keys: &[Vec<u8>]) -> (r: Result<Vec<Vec<u8>>, Error>)
        requires
            self.well_formed(),
        ensures
            keys@.len() == 0 ==> r is Ok,
            r is Ok ==> r->Ok_0@.len() == keys@.len() && forall|i: int|
                0 <= i < keys@.len() ==> self.contents().contains_key(#[trigger] keys@[i]@)
                    && r->Ok_0@[i]@ == self.contents()[keys@[i]@],
            (exists|i: int| 0 <= i < keys@.len() && !self.contents().contains_key(#[trigger] keys@[i]@))
                ==> r is Err,
            self.reliable() && (forall|i: int|
                0 <= i < keys@.len() ==> self.contents().contains_key(#[trigger] keys@[i]@)) ==> r is Ok,
            r matches Err(e) ==> exists|i: int|
                0 <= i < keys@.len() && (forall|j: int|
                    0 <= j < i ==> self.contents().contains_key(#[trigger] keys@[j]@)) && (
                !self.contents().contains_key(keys@[i]@) ==> e.kind == ErrorKind::NotFound) && (
                self.reliable() ==> !self.contents().contains_key(keys@[i]@)),
    {
        let mut out: Vec<Vec<u8>> = Vec::new();
        let mut i: usize = 0;
        while i < keys.len()
            invariant
                self.well_formed(),
                i <= keys@.len(),
                out@.len() == i,
                forall|j: int|
                    0 <= j < i ==> self.contents().contains_key(#[trigger] keys@[j]@)
                        && out@[j]@ == self.contents()[keys@[j]@],
            decreases keys@.len() - i,
        {
            match self.get(&keys[i]) {
                Ok(v) => {
                    out.push(v);
                },
                Err(e) => {
                    return Err(e);
                },
            }
            i = i + 1;
        }
        Ok(out)
    }
}

/// A store that grew from the first pairs of a list grew from the list.
pub proof fn lemma_grows_from_prefix(
    old: Map<Seq<u8>, Seq<u8>>,
    new: Map<Seq<u8>, Seq<u8>>,
    pairs: Seq<(Vec<u8>, Vec<u8>)>,
    i: int,
)
    requires
        0 <= i <= pairs.len(),
        grows_from(old, new, pairs.subrange(0, i)),
    ensures
        grows_from(old, new, pairs),
{
    let p = pairs.subrange(0, i);
    assert forall|k: Seq<u8>| #[trigger] new.contains_key(k) && !old.contains_key(k) implies exists|j: int|
        0 <= j < pairs.len() && pairs[j].0@ == k && pairs[j].1@ == new[k] && forall|q: int|
            0 <= q < j ==> pairs[q].0@ != k by {
        let j = choose|j: int| 0 <= j < p.len() && p[j].0@ == k && p[j].1@ == new[k] && forall|q: int|
            0 <= q < j ==> p[q].0@ != k;
        assert(pairs[j] == p[j]);
        assert forall|q: int| 0 <= q < j implies pairs[q].0@ != k by {
            assert(pairs[q] == p[q]);
        }
    }
}

} // verus!

verus! {

/// A store whose contents can be listed and dropped as a whole.
pub trait IterableDatabase: Database {
    /// Every key that the store holds, each once.
    fn keys(&self) -> (r: Vec<Vec<u8>>)
        requires
            self.well_formed(),
        ensures
            forall|k: Seq<u8>|
                self.contents().contains_key(k) ==> exists|j: int|
                    0 <= j < r@.len() && (#[trigger] r@[j])@ == k,
            forall|j: int| 0 <= j < r@.len() ==> self.contents().contains_key((#[trigger] r@[j])@),
    ;

    /// A copy of every key-value pair.
    fn iterator(&self) -> (r: Vec<(Vec<u8>, Vec<u8>)>)
        requires
            self.well_formed(),
        ensures
            forall|j: int|
                0 <= j < r@.len() ==> self.contents().contains_key((#[trigger] r@[j]).0@)
                    && self.contents()[r@[j].0@] == r@[j].1@,
            forall|k: Seq<u8>|
                self.contents().contains_key(k) ==> exists|j: int| 0 <= j < r@.len() && (#[trigger] r@[j]).0@ == k,
    ;

    /// A copy of every stored value.
    fn values(&self) -> (r: Vec<Vec<u8>>)
        requires
            self.well_formed(),
        ensures
            forall|j: int|
                0 <= j < r@.len() ==> value_stored(self.contents(), (#[trigger] r@[j])@),
            forall|k: Seq<u8>|
                #[trigger] self.contents().contains_key(k) ==> exists|j: int|
                    0 <= j < r@.len() && r@[j]@ == self.contents()[k],
    ;

    /// Removes every key-value pair.
    fn clear(&mut self) -> (r: Result<(), Error>)
        requires
            old(self).well_formed(),
        ensures
            final(self).well_formed(),
            final(self).reliable() == old(self).reliable(),
            r is Ok ==> final(self).contents() == Map::<Seq<u8>, Seq<u8>>::empty(),
    ;
}

} // verus!
