use vstd::prelude::*;

use crate::bytes::{bytes_eq, copy_bytes};

verus! {

/// One operation that the storage host charged for.
#[derive(PartialEq, Eq, Structural, Clone, Copy, Debug)]
pub enum StorageOp {
    Read,
    Write,
    Remove,
    HasKey,
}

/// An in-memory storage host: a flat byte-keyed store that records, in order,
/// every operation it is asked to perform.
pub struct Storage {
    entries: Vec<(Vec<u8>, Vec<u8>)>,
    log: Vec<StorageOp>,
    contents: Ghost<Map<Seq<u8>, Seq<u8>>>,
}

impl Storage {
    /// What the store holds: each key with its value.
    pub closed spec fn contents(&self) -> Map<Seq<u8>, Seq<u8>> {
        self.contents@
    }

    /// The operations charged so far, oldest first.
    pub closed spec fn ops(&self) -> Seq<StorageOp> {
        self.log@
    }

    pub closed spec fn wf(&self) -> bool {
        &&& forall|i: int, j: int|
            0 <= i < j < self.entries@.len() ==> self.entries@[i].0@ != self.entries@[j].0@
        &&& forall|i: int|
            0 <= i < self.entries@.len() ==> self.contents@.contains_key(#[trigger] self.entries@[i].0@)
                && self.contents@[self.entries@[i].0@] == self.entries@[i].1@
        &&& forall|k: Seq<u8>|
            #[trigger] self.contents@.contains_key(k) ==> exists|i: int|
                0 <= i < self.entries@.len() && #[trigger] self.entries@[i].0@ == k
    }

    /// An empty store that has charged nothing.
    pub fn new() -> (r: Storage)
        ensures
            r.wf(),
            r.contents() == Map::<Seq<u8>, Seq<u8>>::empty(),
            r.ops() == Seq::<StorageOp>::empty(),
    {
        Storage { entries: Vec::new(), log: Vec::new(), contents: Ghost(Map::empty()) }
    }

    /// The operations charged so far, oldest first.
    pub fn operations(&self) -> (r: &[StorageOp])
        ensures
            r@ == self.ops(),
    {
        self.log.as_slice()
    }

    fn find(&self, key: &[u8]) -> (r: Option<usize>)
        requires
            self.wf(),
        ensures
            match r {
                Some(i) => i < self.entries@.len() && self.entries@[i as int].0@ == key@,
                None => !self.contents().contains_key(key@),
            },
    {
        let mut i: usize = 0;
        while i < self.entries.len()
            invariant
                self.wf(),
                0 <= i <= self.entries@.len(),
                forall|j: int| 0 <= j < i ==> self.entries@[j].0@ != key@,
            decreases self.entries@.len() - i,
        {
            if bytes_eq(self.entries[i].0.as_slice(), key) {
                return Some(i);
            }
            i = i + 1;
        }
        None
    }

    /// The value stored under `key`, if any. Charged as one read.
    pub fn read(&mut self, key: &[u8]) -> (r: Option<Vec<u8>>)
        requires
            old(self).wf(),
        ensures
            final(self).wf(),
            final(self).contents() == old(self).contents(),
            final(self).ops() == old(self).ops().push(StorageOp::Read),
            match r {
                Some(v) => old(self).contents().contains_key(key@) && v@ == old(self).contents()[key@],
                None => !old(self).contents().contains_key(key@),
            },
    {
        self.log.push(StorageOp::Read);
        match self.find(key) {
            Some(i) => Some(copy_bytes(self.entries[i].1.as_slice())),
            None => None,
        }
    }

    /// Whether anything is stored under `key`. Charged as one existence check.
    pub fn has_key(&mut self, key: &[u8]) -> (r: bool)
        requires
            old(self).wf(),
        ensures
            final(self).wf(),
            final(self).contents() == old(self).contents(),
            final(self).ops() == old(self).ops().push(StorageOp::HasKey),
            r == old(self).contents().contains_key(key@),
    {
        self.log.push(StorageOp::HasKey);
        self.find(key).is_some()
    }

    /// Stores `value` under `key`, replacing what was there. Charged as one write.
    pub fn write(&mut self, key: &[u8], value: &[u8])
        requires
            old(self).wf(),
        ensures
            final(self).wf(),
            final(self).contents() == old(self).contents().insert(key@, value@),
            final(self).ops() == old(self).ops().push(StorageOp::Write),
    {
        self.log.push(StorageOp::Write);
        let v = copy_bytes(value);
        let ghost old_entries = self.entries@;
        match self.find(key) {
            Some(i) => {
                let k = copy_bytes(key);
                self.entries.set(i, (k, v));
                self.contents = Ghost(self.contents@.insert(key@, value@));
                assert forall|k: Seq<u8>| #[trigger] self.contents@.contains_key(k) implies exists|
                    j: int,
                | 0 <= j < self.entries@.len() && #[trigger] self.entries@[j].0@ == k by {
                    if k != key@ {
                        let j = choose|j: int|
                            0 <= j < old_entries.len() && #[trigger] old_entries[j].0@ == k;
                        assert(self.entries@[j].0@ == k);
                    } else {
                        assert(self.entries@[i as int].0@ == k);
                    }
                }
            },
            None => {
                let k = copy_bytes(key);
                self.entries.push((k, v));
                self.contents = Ghost(self.contents@.insert(key@, value@));
                assert forall|k: Seq<u8>| #[trigger] self.contents@.contains_key(k) implies exists|
                    j: int,
                | 0 <= j < self.entries@.len() && #[trigger] self.entries@[j].0@ == k by {
                    if k != key@ {
                        let j = choose|j: int|
                            0 <= j < old_entries.len() && #[trigger] old_entries[j].0@ == k;
                        assert(self.entries@[j].0@ == k);
                    } else {
                        assert(self.entries@[old_entries.len() as int].0@ == k);
                    }
                }
            },
        }
    }

    /// Deletes what is stored under `key`, if anything. Charged as one removal.
    pub fn remove(&mut self, key: &[u8])
        requires
            old(self).wf(),
        ensures
            final(self).wf(),
            final(self).contents() == old(self).contents().remove(key@),
            final(self).ops() == old(self).ops().push(StorageOp::Remove),
    {
        self.log.push(StorageOp::Remove);
        let ghost old_entries = self.entries@;
        match self.find(key) {
            Some(i) => {
                let _ = self.entries.remove(i);
                self.contents = Ghost(self.contents@.remove(key@));
                assert forall|j: int| 0 <= j < self.entries@.len() implies self.contents@.contains_key(
                    #[trigger] self.entries@[j].0@,
                ) && self.contents@[self.entries@[j].0@] == self.entries@[j].1@ by {
                    if j < i {
                        assert(self.entries@[j] == old_entries[j]);
                    } else {
                        assert(self.entries@[j] == old_entries[j + 1]);
                    }
                }
                assert forall|k: Seq<u8>| #[trigger] self.contents@.contains_key(k) implies exists|
                    j: int,
                | 0 <= j < self.entries@.len() && #[trigger] self.entries@[j].0@ == k by {
                    let j = choose|j: int|
                        0 <= j < old_entries.len() && #[trigger] old_entries[j].0@ == k;
                    if j < i {
                        assert(self.entries@[j].0@ == k);
                    } else {
                        assert(self.entries@[j - 1].0@ == k);
                    }
                }
            },
            None => {
                assert(self.contents@.remove(key@) =~= self.contents@);
            },
        }
    }
}

} // verus!
