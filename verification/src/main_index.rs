//! The store: five typed record slots over one table.
//!
//! Each accessor states its contract as a predicate of the index, so that
//! what holds of a write followed by a read can be stated, and is proved, at
//! the end of this file.

use vstd::prelude::*;
use crate::dictionary::{is_set_image, read_set, set_bytes, set_image, set_keys, set_valid};
use crate::error::IndexError;
use crate::radix::{
    be_bytes, be_value, lemma_be_bytes_len, lemma_be_bytes_of_value, lemma_be_value_bound,
    lemma_be_value_of_bytes, lemma_radix_pow_values, u64_from_be_bytes, u64_to_be_bytes,
};
use crate::ranked_map::{is_image, lemma_image_injective, RankedMap};
use crate::slot::{lemma_keys_distinct, Slot};
use crate::table::{lookup, Table};

verus! {

/// What a read of the document counter returns for what its slot holds:
/// 0 for an empty slot, the number for eight bytes, and an error for
/// anything else.
pub open spec fn counter_read(stored: Option<Seq<u8>>) -> Result<u64, IndexError> {
    match stored {
        None => Ok(0),
        Some(bytes) => if bytes.len() == 8 {
            Ok(be_value(bytes) as u64)
        } else {
            Err(IndexError::DecodeError)
        },
    }
}

/// What a read of the schema returns for what the decoder made of the
/// stored bytes.
pub open spec fn schema_read<S, E>(decoded: Result<S, E>) -> Result<Option<S>, IndexError> {
    match decoded {
        Ok(schema) => Ok(Some(schema)),
        Err(_) => Err(IndexError::DecodeError),
    }
}

/// The answer of the schema accessor to what the decoder made of the
/// stored bytes.
pub fn schema_from<S, E>(decoded: Result<S, E>) -> (r: Result<Option<S>, IndexError>)
    ensures
        r == schema_read(decoded),
{
    match decoded {
        Ok(schema) => Ok(Some(schema)),
        Err(_) => Err(IndexError::DecodeError),
    }
}

/// The persisted metadata of one index.
pub struct MainIndex(pub(crate) Table);

impl View for MainIndex {
    type V = Map<Seq<u8>, Seq<u8>>;

    /// What the table holds under each key.
    open spec fn view(&self) -> Map<Seq<u8>, Seq<u8>> {
        self.table()@
    }
}

impl MainIndex {
    /// The table that the index is bound to.
    pub closed spec fn table(&self) -> Table {
        self.0
    }

    /// Whether the table still serves reads and writes.
    pub open spec fn is_open(&self) -> bool {
        self.table().is_open()
    }

    /// The bytes that a slot holds, if it holds any.
    pub open spec fn stored(&self, slot: Slot) -> Option<Seq<u8>> {
        lookup(self@, slot.key())
    }

    /// How a write of `bytes` to `slot` that answered `r` took the index
    /// from `self` to `after`: done on an open table, refused on a closed
    /// one, and nothing but that one slot changed.
    pub open spec fn wrote(
        &self,
        after: &MainIndex,
        slot: Slot,
        bytes: Seq<u8>,
        r: Result<(), IndexError>,
    ) -> bool {
        &&& after.is_open() == self.is_open()
        &&& if self.is_open() {
            r.is_ok() && after@ == self@.insert(slot.key(), bytes)
        } else {
            r == Err::<(), IndexError>(IndexError::StoreError) && after@ == self@
        }
    }

    /// Whether `r` is the answer of a read of the schema through `decode`:
    /// a store error on a closed table, `None` for an empty slot, and else
    /// what `decode` made of the stored bytes.
    pub open spec fn read_schema<S, E, D: FnOnce(Vec<u8>) -> Result<S, E>>(
        &self,
        decode: D,
        r: Result<Option<S>, IndexError>,
    ) -> bool {
        if !self.is_open() {
            r == Err::<Option<S>, IndexError>(IndexError::StoreError)
        } else {
            match self.stored(Slot::Schema) {
                None => r == Ok::<Option<S>, IndexError>(None),
                Some(stored) => exists|bytes: Vec<u8>, decoded: Result<S, E>|
                    bytes@ == stored && call_ensures(decode, (bytes,), decoded) && r == schema_read(
                        decoded,
                    ),
            }
        }
    }

    /// How a write of `schema` through `encode` that answered `r` took the
    /// index from `self` to `after`: where `encode` refused, an encode error
    /// and no change; else a write of the bytes that `encode` made.
    pub open spec fn wrote_schema<S, E, C: FnOnce(&S) -> Result<Vec<u8>, E>>(
        &self,
        after: &MainIndex,
        schema: &S,
        encode: C,
        r: Result<(), IndexError>,
    ) -> bool {
        exists|encoded: Result<Vec<u8>, E>|
            call_ensures(encode, (schema,), encoded) && match encoded {
                Ok(bytes) => self.wrote(after, Slot::Schema, bytes@, r),
                Err(_) => r == Err::<(), IndexError>(IndexError::EncodeError) && after@ == self@
                    && after.is_open() == self.is_open(),
            }
    }

    /// Whether `r` is the answer of a read of the dictionary in `slot`: a
    /// store error on a closed table, `None` for an empty slot, the set
    /// with the stored image where the slot holds one, and a decode error
    /// for any other bytes.
    pub open spec fn read_dictionary(
        &self,
        slot: Slot,
        r: Result<Option<fst::Set>, IndexError>,
    ) -> bool {
        if !self.is_open() {
            r matches Err(e) && e == IndexError::StoreError
        } else {
            match self.stored(slot) {
                None => r matches Ok(None),
                Some(stored) => if is_set_image(stored) {
                    r matches Ok(Some(set)) && set_image(set) == stored && set_valid(set)
                } else {
                    r matches Err(e) && e == IndexError::DecodeError
                },
            }
        }
    }

    /// Whether `r` is the answer of a read of the ranked map: a store error
    /// on a closed table, `None` for an empty slot, the map with the stored
    /// image where the slot holds one, and a decode error for any other
    /// bytes.
    pub open spec fn read_ranked_map(&self, r: Result<Option<RankedMap>, IndexError>) -> bool {
        if !self.is_open() {
            r matches Err(e) && e == IndexError::StoreError
        } else {
            match self.stored(Slot::RankedMap) {
                None => r matches Ok(None),
                Some(stored) => if is_image(stored) {
                    r matches Ok(Some(map)) && map.wf() && map.image() == stored
                } else {
                    r matches Err(e) && e == IndexError::DecodeError
                },
            }
        }
    }

    /// The answer of a read of the number of documents: a store error on a
    /// closed table, and else what the slot's bytes read as.
    pub open spec fn read_counter(&self) -> Result<u64, IndexError> {
        if self.is_open() {
            counter_read(self.stored(Slot::NumberOfDocuments))
        } else {
            Err(IndexError::StoreError)
        }
    }

    /// How an update of the number of documents by `f` that answered `r`
    /// took the index from `self` to `after`: where the number cannot be
    /// read, the error of the read and no change; else `f` was applied to
    /// the number, and what it gave was written and returned.
    pub open spec fn updated_counter<F: FnOnce(u64) -> u64>(
        &self,
        after: &MainIndex,
        f: F,
        r: Result<u64, IndexError>,
    ) -> bool {
        &&& after.is_open() == self.is_open()
        &&& match self.read_counter() {
            Ok(current) => r matches Ok(new) && call_ensures(f, (current,), new) && after@
                == self@.insert(Slot::NumberOfDocuments.key(), be_bytes(new as nat, 8)),
            Err(e) => r == Err::<u64, IndexError>(e) && after@ == self@,
        }
    }

    /// Binds an index to `table`.
    pub fn new(table: Table) -> (index: MainIndex)
        ensures
            index.table() == table,
    {
        MainIndex(table)
    }

    /// The table that the index is bound to.
    pub fn as_table(&self) -> (table: &Table)
        ensures
            *table == self.table(),
    {
        &self.0
    }

    /// Gives the table back.
    pub fn into_table(self) -> (table: Table)
        ensures
            table == self.table(),
    {
        self.0
    }

    fn read(&self, slot: Slot) -> (r: Result<Option<Vec<u8>>, IndexError>)
        ensures
            match r {
                Ok(Some(bytes)) => self.is_open() && self.stored(slot) == Some(bytes@),
                Ok(None) => self.is_open() && self.stored(slot).is_none(),
                Err(e) => !self.is_open() && e == IndexError::StoreError,
            },
    {
        self.0.get(slot.key_bytes())
    }

    fn write(&mut self, slot: Slot, bytes: Vec<u8>) -> (r: Result<(), IndexError>)
        ensures
            old(self).wrote(final(self), slot, bytes@, r),
    {
        match self.0.insert(slot.key_bytes(), bytes) {
            Ok(_) => Ok(()),
            Err(e) => Err(e),
        }
    }

    fn dictionary(&self, slot: Slot) -> (r: Result<Option<fst::Set>, IndexError>)
        ensures
            self.read_dictionary(slot, r),
    {
        match self.read(slot) {
            Ok(Some(bytes)) => match read_set(bytes) {
                Ok(set) => Ok(Some(set)),
                Err(e) => Err(e),
            },
            Ok(None) => Ok(None),
            Err(e) => Err(e),
        }
    }

    /// The schema, as `decode` reads it from the bytes of its slot, or
    /// `None` where the slot is empty.
    ///
    /// Fails with [`IndexError::StoreError`] on a closed table, and with
    /// [`IndexError::DecodeError`] where `decode` refuses the stored bytes.
    /// `decode` is called only where the slot holds bytes, and on those.
    pub fn schema<S, E, D: FnOnce(Vec<u8>) -> Result<S, E>>(&self, decode: D) -> (r: Result<
        Option<S>,
        IndexError,
    >)
        requires
            forall|bytes: Vec<u8>|
                self.is_open() && self.stored(Slot::Schema) == Some(bytes@) ==> call_requires(
                    decode,
                    (bytes,),
                ),
        ensures
            self.read_schema(decode, r),
    {
        match self.read(Slot::Schema) {
            Ok(Some(bytes)) => schema_from(decode(bytes)),
            Ok(None) => Ok(None),
            Err(e) => Err(e),
        }
    }

    /// Stores the schema, as `encode` writes it.
    ///
    /// Fails with [`IndexError::EncodeError`] where `encode` refuses the
    /// schema, before anything is written, and with
    /// [`IndexError::StoreError`] on a closed table.
    pub fn set_schema<S, E, C: FnOnce(&S) -> Result<Vec<u8>, E>>(
        &mut self,
        schema: &S,
        encode: C,
    ) -> (r: Result<(), IndexError>)
        requires
            call_requires(encode, (schema,)),
        ensures
            old(self).wrote_schema(final(self), schema, encode, r),
    {
        match encode(schema) {
            Ok(bytes) => self.write(Slot::Schema, bytes),
            Err(_) => Err(IndexError::EncodeError),
        }
    }

    /// The dictionary of indexed words, or `None` where none was stored.
    ///
    /// Fails with [`IndexError::StoreError`] on a closed table, and with
    /// [`IndexError::DecodeError`] where the stored bytes are not the image
    /// of a set.
    pub fn words_set(&self) -> (r: Result<Option<fst::Set>, IndexError>)
        ensures
            self.read_dictionary(Slot::Words, r),
    {
        self.dictionary(Slot::Words)
    }

    /// Stores the dictionary of indexed words.
    ///
    /// Fails with [`IndexError::StoreError`] on a closed table.
    pub fn set_words_set(&mut self, value: &fst::Set) -> (r: Result<(), IndexError>)
        ensures
            old(self).wrote(final(self), Slot::Words, set_image(*value), r),
            set_valid(*value),
    {
        self.write(Slot::Words, set_bytes(value))
    }

    /// The dictionary of synonym keys, or `None` where none was stored.
    ///
    /// Fails with [`IndexError::StoreError`] on a closed table, and with
    /// [`IndexError::DecodeError`] where the stored bytes are not the image
    /// of a set.
    pub fn synonyms_set(&self) -> (r: Result<Option<fst::Set>, IndexError>)
        ensures
            self.read_dictionary(Slot::Synonyms, r),
    {
        self.dictionary(Slot::Synonyms)
    }

    /// Stores the dictionary of synonym keys.
    ///
    /// Fails with [`IndexError::StoreError`] on a closed table.
    pub fn set_synonyms_set(&mut self, value: &fst::Set) -> (r: Result<(), IndexError>)
        ensures
            old(self).wrote(final(self), Slot::Synonyms, set_image(*value), r),
            set_valid(*value),
    {
        self.write(Slot::Synonyms, set_bytes(value))
    }

    /// The ranked map, or `None` where none was stored.
    ///
    /// Fails with [`IndexError::StoreError`] on a closed table, and with
    /// [`IndexError::DecodeError`] where the stored bytes are not the image
    /// of a ranked map.
    pub fn ranked_map(&self) -> (r: Result<Option<RankedMap>, IndexError>)
        ensures
            self.read_ranked_map(r),
    {
        match self.read(Slot::RankedMap) {
            Ok(Some(bytes)) => match RankedMap::read_from_bin(bytes.as_slice()) {
                Ok(map) => Ok(Some(map)),
                Err(e) => Err(e),
            },
            Ok(None) => Ok(None),
            Err(e) => Err(e),
        }
    }

    /// Stores the ranked map.
    ///
    /// Fails with [`IndexError::StoreError`] on a closed table.
    pub fn set_ranked_map(&mut self, value: &RankedMap) -> (r: Result<(), IndexError>)
        ensures
            old(self).wrote(final(self), Slot::RankedMap, value.image(), r),
    {
        let mut bytes: Vec<u8> = Vec::new();
        value.write_to_bin(&mut bytes);
        self.write(Slot::RankedMap, bytes)
    }

    /// How many documents the index holds: 0 where the count was never
    /// stored.
    ///
    /// Fails with [`IndexError::StoreError`] on a closed table, and with
    /// [`IndexError::DecodeError`] where the slot holds other than eight
    /// bytes.
    pub fn number_of_documents(&self) -> (r: Result<u64, IndexError>)
        ensures
            r == self.read_counter(),
    {
        match self.read(Slot::NumberOfDocuments) {
            Ok(Some(bytes)) => {
                if bytes.len() != 8 {
                    return Err(IndexError::DecodeError);
                }
                Ok(u64_from_be_bytes(bytes.as_slice()))
            },
            Ok(None) => Ok(0),
            Err(e) => Err(e),
        }
    }

    /// Replaces the number of documents by what `f` makes of it, and
    /// returns the new number.
    ///
    /// The number is read, then `f` is applied, then the result is written:
    /// the exclusive borrow of the index is what makes the caller the only
    /// writer meanwhile. Where the read fails, `f` is not called and
    /// nothing is written.
    pub fn set_number_of_documents<F: FnOnce(u64) -> u64>(&mut self, f: F) -> (r: Result<
        u64,
        IndexError,
    >)
        requires
            old(self).read_counter() matches Ok(current) ==> call_requires(f, (current,)),
        ensures
            old(self).updated_counter(final(self), f, r),
    {
        let current = match self.number_of_documents() {
            Ok(current) => current,
            Err(e) => {
                return Err(e);
            },
        };
        let new = f(current);
        match self.write(Slot::NumberOfDocuments, u64_to_be_bytes(new)) {
            Ok(()) => Ok(new),
            Err(e) => Err(e),
        }
    }
}

/// A write to one slot, done or refused, leaves every other slot as it
/// was: as empty, or with the same bytes.
pub proof fn lemma_slots_independent(
    before: MainIndex,
    after: MainIndex,
    written: Slot,
    other: Slot,
    bytes: Seq<u8>,
    r: Result<(), IndexError>,
)
    requires
        before.wrote(&after, written, bytes, r),
        written != other,
    ensures
        after.stored(other) == before.stored(other),
{
    lemma_keys_distinct(written, other);
}

/// A write of the schema, done or refused, leaves every other slot as it
/// was.
pub proof fn lemma_schema_independent<S, E, C: FnOnce(&S) -> Result<Vec<u8>, E>>(
    before: MainIndex,
    after: MainIndex,
    schema: &S,
    encode: C,
    other: Slot,
    r: Result<(), IndexError>,
)
    requires
        before.wrote_schema(&after, schema, encode, r),
        other != Slot::Schema,
    ensures
        after.stored(other) == before.stored(other),
{
    lemma_keys_distinct(Slot::Schema, other);
}

/// An update of the number of documents, done or refused, leaves every
/// other slot as it was.
pub proof fn lemma_counter_independent<F: FnOnce(u64) -> u64>(
    before: MainIndex,
    after: MainIndex,
    f: F,
    other: Slot,
    r: Result<u64, IndexError>,
)
    requires
        before.updated_counter(&after, f, r),
        other != Slot::NumberOfDocuments,
    ensures
        after.stored(other) == before.stored(other),
{
    lemma_keys_distinct(Slot::NumberOfDocuments, other);
}

/// On an open table that holds nothing, the schema, the dictionaries and
/// the ranked map read as `None`, and the number of documents as 0.
pub proof fn lemma_fresh_index_is_empty<S, E, D: FnOnce(Vec<u8>) -> Result<S, E>>(
    index: MainIndex,
    decode: D,
    schema: Result<Option<S>, IndexError>,
    words: Result<Option<fst::Set>, IndexError>,
    synonyms: Result<Option<fst::Set>, IndexError>,
    ranked_map: Result<Option<RankedMap>, IndexError>,
)
    requires
        index.is_open(),
        index@ == Map::<Seq<u8>, Seq<u8>>::empty(),
        index.read_schema(decode, schema),
        index.read_dictionary(Slot::Words, words),
        index.read_dictionary(Slot::Synonyms, synonyms),
        index.read_ranked_map(ranked_map),
    ensures
        schema == Ok::<Option<S>, IndexError>(None),
        words matches Ok(None),
        synonyms matches Ok(None),
        ranked_map matches Ok(None),
        index.read_counter() == Ok::<u64, IndexError>(0),
{
}

/// Whether `decode` reads back what `encode` writes for `schema`: of
/// whatever bytes `encode` may make of `schema`, `decode` makes `schema`
/// and nothing else.
pub open spec fn reads_back<
    S,
    E1,
    E2,
    C: FnOnce(&S) -> Result<Vec<u8>, E1>,
    D: FnOnce(Vec<u8>) -> Result<S, E2>,
>(encode: C, decode: D, schema: S) -> bool {
    forall|written: Vec<u8>, given: Vec<u8>, decoded: Result<S, E2>|
        #![trigger
            call_ensures(encode, (&schema,), Ok(written)),
            call_ensures(decode, (given,), decoded)
        ]
        call_ensures(encode, (&schema,), Ok(written)) && given@ == written@ && call_ensures(
            decode,
            (given,),
            decoded,
        ) ==> decoded == Ok::<S, E2>(schema)
}

/// The schema that was stored is the schema that is read, for every codec
/// that reads back what it wrote: a read after a write of `schema` answers
/// with `schema`.
pub proof fn lemma_schema_round_trip<
    S,
    E1,
    E2,
    C: FnOnce(&S) -> Result<Vec<u8>, E1>,
    D: FnOnce(Vec<u8>) -> Result<S, E2>,
>(
    before: MainIndex,
    after: MainIndex,
    schema: S,
    encode: C,
    decode: D,
    read: Result<Option<S>, IndexError>,
)
    requires
        reads_back(encode, decode, schema),
        before.wrote_schema(&after, &schema, encode, Ok(())),
        after.read_schema(decode, read),
    ensures
        read == Ok::<Option<S>, IndexError>(Some(schema)),
{
    let encoded = choose|encoded: Result<Vec<u8>, E1>|
        call_ensures(encode, (&schema,), encoded) && match encoded {
            Ok(bytes) => before.wrote(&after, Slot::Schema, bytes@, Ok(())),
            Err(_) => false,
        };
    let written = encoded->Ok_0;
    assert(call_ensures(encode, (&schema,), Ok(written)));
    assert(after.stored(Slot::Schema) == Some(written@));
}

/// The dictionary that was stored is the dictionary that is read: after a
/// write of a set to the slot of the words or of the synonyms, a read of
/// that slot answers with a set that has the same image and the same keys.
pub proof fn lemma_dictionary_round_trip(
    before: MainIndex,
    after: MainIndex,
    slot: Slot,
    value: fst::Set,
    read: Result<Option<fst::Set>, IndexError>,
)
    requires
        set_valid(value),
        before.wrote(&after, slot, set_image(value), Ok(())),
        after.read_dictionary(slot, read),
    ensures
        read matches Ok(Some(set)) && set_image(set) == set_image(value) && set_keys(set)
            == set_keys(value),
{
}

/// The ranked map that was stored is the ranked map that is read: after a
/// write of a map, a read answers with a map of the same entries, and so
/// the same ranks.
pub proof fn lemma_ranked_map_round_trip(
    before: MainIndex,
    after: MainIndex,
    value: RankedMap,
    read: Result<Option<RankedMap>, IndexError>,
)
    requires
        value.wf(),
        before.wrote(&after, Slot::RankedMap, value.image(), Ok(())),
        after.read_ranked_map(read),
    ensures
        read matches Ok(Some(map)) && map.entries() == value.entries() && map@ == value@,
{
    assert(is_image(value.image()));
    lemma_image_injective(read->Ok_0->Some_0.entries(), value.entries());
}

/// The number that an update of the number of documents returned is the
/// number that is read after it.
pub proof fn lemma_counter_round_trip<F: FnOnce(u64) -> u64>(
    before: MainIndex,
    after: MainIndex,
    f: F,
    new: u64,
)
    requires
        before.updated_counter(&after, f, Ok(new)),
    ensures
        after.read_counter() == Ok::<u64, IndexError>(new),
{
    lemma_be_bytes_len(new as nat, 8);
    lemma_radix_pow_values();
    lemma_be_value_of_bytes(new as nat, 8);
}

/// Eight bytes that read as a number of documents are the bytes that the
/// number is stored as.
pub proof fn lemma_counter_bytes_round_trip(bytes: Seq<u8>)
    requires
        bytes.len() == 8,
    ensures
        counter_read(Some(bytes)) matches Ok(number) && be_bytes(number as nat, 8) == bytes,
{
    lemma_be_value_bound(bytes);
    lemma_radix_pow_values();
    lemma_be_bytes_of_value(bytes);
}

/// Fewer or more than eight bytes in the slot of the number of documents
/// read as a decode error.
pub proof fn lemma_counter_of_other_length(index: MainIndex, bytes: Seq<u8>)
    requires
        index.is_open(),
        index.stored(Slot::NumberOfDocuments) == Some(bytes),
        bytes.len() != 8,
    ensures
        index.read_counter() == Err::<u64, IndexError>(IndexError::DecodeError),
{
}

} // verus!
