//! The key-value table that the store is bound to.
//!
//! A [`Table`] is one namespace of byte-string keys, each holding one
//! byte-string value. Its model is a `Map<Seq<u8>, Seq<u8>>` together with
//! the state of its handle: once the handle is closed, every read and write
//! is refused and the contents stay as they are.

use vstd::prelude::*;
use vstd::slice::slice_to_vec;
use crate::error::IndexError;

verus! {

/// Whether `a` and `b` hold the same bytes.
pub fn same_bytes(a: &[u8], b: &[u8]) -> (same: bool)
    ensures
        same == (a@ == b@),
{
    if a.len() != b.len() {
        return false;
    }
    let mut i: usize = 0;
    while i < a.len()
        invariant
            i <= a@.len() == b@.len(),
            a@.subrange(0, i as int) == b@.subrange(0, i as int),
        decreases a@.len() - i,
    {
        if a[i] != b[i] {
            return false;
        }
        i += 1;
    }
    assert(a@ =~= a@.subrange(0, i as int));
    assert(b@ =~= b@.subrange(0, i as int));
    true
}

/// What `m` holds under `key`, if anything.
pub open spec fn lookup(m: Map<Seq<u8>, Seq<u8>>, key: Seq<u8>) -> Option<Seq<u8>> {
    if m.contains_key(key) {
        Some(m[key])
    } else {
        None
    }
}

struct Record {
    key: Vec<u8>,
    value: Vec<u8>,
}

spec fn holds(records: Seq<Record>, key: Seq<u8>) -> bool {
    exists|i: int| 0 <= i < records.len() && #[trigger] records[i].key@ == key
}

spec fn place_of(records: Seq<Record>, key: Seq<u8>) -> int {
    choose|i: int| 0 <= i < records.len() && #[trigger] records[i].key@ == key
}

spec fn distinct_keys(records: Seq<Record>) -> bool {
    forall|i: int, j: int|
        0 <= i < j < records.len() ==> #[trigger] records[i].key@ != #[trigger] records[j].key@
}

spec fn contents(records: Seq<Record>) -> Map<Seq<u8>, Seq<u8>> {
    Map::new(|k: Seq<u8>| holds(records, k), |k: Seq<u8>| records[place_of(records, k)].value@)
}

/// One namespace of a key-value store, held in memory.
pub struct Table {
    records: Vec<Record>,
    open: bool,
}

impl View for Table {
    type V = Map<Seq<u8>, Seq<u8>>;

    /// The value stored under each key.
    closed spec fn view(&self) -> Map<Seq<u8>, Seq<u8>> {
        contents(self.records@)
    }
}

impl Table {
    #[verifier::type_invariant]
    spec fn well_formed(self) -> bool {
        distinct_keys(self.records@)
    }

    /// Whether the handle still serves reads and writes.
    pub closed spec fn spec_is_open(&self) -> bool {
        self.open
    }

    /// An open table that holds nothing.
    pub fn new() -> (table: Table)
        ensures
            table.is_open(),
            table@ == Map::<Seq<u8>, Seq<u8>>::empty(),
    {
        Table { records: Vec::new(), open: true }
    }

    /// Whether the handle still serves reads and writes.
    #[verifier::when_used_as_spec(spec_is_open)]
    pub fn is_open(&self) -> (open: bool)
        ensures
            open == self.spec_is_open(),
    {
        self.open
    }

    /// Closes the handle. The contents stay, but nothing reads or writes
    /// them through this handle any more.
    pub fn close(&mut self)
        ensures
            !final(self).is_open(),
            final(self)@ == old(self)@,
    {
        proof {
            use_type_invariant(&*self);
        }
        self.open = false;
    }

    fn find(&self, key: &[u8]) -> (found: Option<usize>)
        ensures
            match found {
                Some(i) => i < self.records@.len() && self.records@[i as int].key@ == key@,
                None => !holds(self.records@, key@),
            },
    {
        let mut i: usize = 0;
        while i < self.records.len()
            invariant
                i <= self.records@.len(),
                forall|j: int| 0 <= j < i ==> #[trigger] self.records@[j].key@ != key@,
            decreases self.records@.len() - i,
        {
            if same_bytes(self.records[i].key.as_slice(), key) {
                return Some(i);
            }
            i += 1;
        }
        None
    }

    /// Reads a copy of the value stored under `key`.
    ///
    /// A closed handle refuses with [`IndexError::StoreError`]; a key that holds
    /// nothing reads as `None`.
    pub fn get(&self, key: &[u8]) -> (r: Result<Option<Vec<u8>>, IndexError>)
        ensures
            match r {
                Ok(Some(value)) => self.is_open() && lookup(self@, key@) == Some(value@),
                Ok(None) => self.is_open() && lookup(self@, key@).is_none(),
                Err(e) => !self.is_open() && e == IndexError::StoreError,
            },
    {
        proof {
            use_type_invariant(self);
        }
        if !self.open {
            return Err(IndexError::StoreError);
        }
        match self.find(key) {
            Some(i) => {
                Ok(Some(slice_to_vec(self.records[i].value.as_slice())))
            },
            None => Ok(None),
        }
    }

    /// Stores `value` under `key`, in place of what the key held, and
    /// returns what it held.
    ///
    /// A closed handle refuses with [`IndexError::StoreError`] and keeps its
    /// contents.
    pub fn insert(&mut self, key: &[u8], value: Vec<u8>) -> (r: Result<Option<Vec<u8>>, IndexError>)
        ensures
            final(self).is_open() == old(self).is_open(),
            match r {
                Ok(previous) => {
                    &&& old(self).is_open()
                    &&& final(self)@ == old(self)@.insert(key@, value@)
                    &&& match previous {
                        Some(p) => lookup(old(self)@, key@) == Some(p@),
                        None => lookup(old(self)@, key@).is_none(),
                    }
                },
                Err(e) => !old(self).is_open() && e == IndexError::StoreError && final(self)@ == old(
                    self,
                )@,
            },
    {
        proof {
            use_type_invariant(&*self);
        }
        if !self.open {
            return Err(IndexError::StoreError);
        }
        let ghost before = self.records@;
        let found = self.find(key);
        // The records leave the table while they change, and come back whole.
        let mut records: Vec<Record> = Vec::new();
        core::mem::swap(&mut self.records, &mut records);
        match found {
            Some(i) => {
                let taken = records.swap_remove(i);
                records.push(Record { key: taken.key, value });
                proof {
                    let after = records@;
                    let last = after.len() - 1;
                    assert forall|k: Seq<u8>| holds(after, k) <==> (k == key@ || holds(
                        before,
                        k,
                    )) by {
                        if k == key@ {
                            assert(after[last].key@ == k);
                        }
                        if holds(before, k) && k != key@ {
                            let j = place_of(before, k);
                            let moved = if j == last {
                                i as int
                            } else {
                                j
                            };
                            assert(after[moved].key@ == k);
                        }
                    }
                    assert(contents(after) =~= contents(before).insert(key@, value@));
                }
                core::mem::swap(&mut self.records, &mut records);
                Ok(Some(taken.value))
            },
            None => {
                records.push(Record { key: slice_to_vec(key), value });
                proof {
                    let after = records@;
                    let last = after.len() - 1;
                    assert forall|k: Seq<u8>| holds(after, k) <==> (k == key@ || holds(
                        before,
                        k,
                    )) by {
                        if k == key@ {
                            assert(after[last].key@ == k);
                        }
                        if holds(before, k) {
                            assert(after[place_of(before, k)].key@ == k);
                        }
                    }
                    assert(contents(after) =~= contents(before).insert(key@, value@));
                }
                core::mem::swap(&mut self.records, &mut records);
                Ok(None)
            },
        }
    }
}

} // verus!
