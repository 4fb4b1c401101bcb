//! The ranked map: the rank of each ranked attribute of each document, and
//! its binary image.
//!
//! The image is a count followed by that many entries of 22 bytes, every
//! field little-endian:
//!
//! | bytes | field |
//! |---|---|
//! | 8 | number of entries |
//! | 8 | document id |
//! | 2 | attribute |
//! | 4 | kind of number: 0 unsigned, 1 signed, 2 float |
//! | 8 | the number: its value, its two's complement, or its IEEE 754 bits |
//!
//! Entries are written in increasing order of (document, attribute), so a
//! map has exactly one image and an image denotes exactly one map.

use vstd::prelude::*;
use crate::error::IndexError;
use crate::radix::{
    le_bytes, le_value, lemma_le_bytes_len, lemma_le_bytes_of_value, lemma_le_value_bound,
    lemma_le_value_of_bytes, lemma_radix_pow_values, push_le, read_le,
};

verus! {

/// A rank.
#[derive(Clone, Copy, Debug, PartialEq, Eq, Structural)]
pub enum Number {
    /// A natural number.
    Unsigned(u64),
    /// An integer.
    Signed(i64),
    /// A binary64 floating-point number, held as its IEEE 754 bit pattern.
    Float(u64),
}

impl Number {
    /// The kind of the number, as the image writes it.
    pub open spec fn tag(self) -> nat {
        match self {
            Number::Unsigned(_) => 0,
            Number::Signed(_) => 1,
            Number::Float(_) => 2,
        }
    }

    /// The eight-byte quantity that the image writes for the number.
    pub open spec fn payload(self) -> nat {
        match self {
            Number::Unsigned(v) => v as nat,
            Number::Signed(v) => if v >= 0 {
                v as nat
            } else {
                (v + 0x1_0000_0000_0000_0000) as nat
            },
            Number::Float(bits) => bits as nat,
        }
    }

    /// The number of the given kind that the image writes as `payload`.
    pub open spec fn from_parts(tag: nat, payload: nat) -> Option<Number> {
        if tag == 0 {
            Some(Number::Unsigned(payload as u64))
        } else if tag == 1 {
            Some(
                Number::Signed(
                    if payload < 0x8000_0000_0000_0000 {
                        payload as i64
                    } else {
                        (payload - 0x1_0000_0000_0000_0000) as i64
                    },
                ),
            )
        } else if tag == 2 {
            Some(Number::Float(payload as u64))
        } else {
            None
        }
    }

    fn tag_value(&self) -> (tag: u64)
        ensures
            tag as nat == self.tag(),
    {
        match self {
            Number::Unsigned(_) => 0,
            Number::Signed(_) => 1,
            Number::Float(_) => 2,
        }
    }

    fn payload_value(&self) -> (payload: u64)
        ensures
            payload as nat == self.payload(),
    {
        match self {
            Number::Unsigned(v) => *v,
            Number::Signed(v) => {
                if *v >= 0 {
                    *v as u64
                } else {
                    ((*v + i64::MAX) + 1) as u64 + 0x8000_0000_0000_0000u64
                }
            },
            Number::Float(bits) => *bits,
        }
    }

    fn assemble(tag: u64, payload: u64) -> (number: Option<Number>)
        ensures
            number == Number::from_parts(tag as nat, payload as nat),
    {
        if tag == 0 {
            Some(Number::Unsigned(payload))
        } else if tag == 1 {
            if payload < 0x8000_0000_0000_0000u64 {
                Some(Number::Signed(payload as i64))
            } else {
                Some(Number::Signed((payload - 0x8000_0000_0000_0000u64) as i64 + i64::MIN))
            }
        } else if tag == 2 {
            Some(Number::Float(payload))
        } else {
            None
        }
    }
}

/// One rank: the number of one attribute of one document.
#[derive(Clone, Copy, Debug, PartialEq, Eq, Structural)]
pub struct Entry {
    /// The document that is ranked.
    pub document: u64,
    /// The attribute of the document that the rank is taken from.
    pub attribute: u16,
    /// The rank.
    pub number: Number,
}

/// The bytes that one entry takes in an image.
pub const ENTRY_WIDTH: usize = 22;

/// Whether the key `a` comes before the key `b`: by document, then by
/// attribute.
pub open spec fn key_before(a: (u64, u16), b: (u64, u16)) -> bool {
    a.0 < b.0 || (a.0 == b.0 && a.1 < b.1)
}

impl Entry {
    /// What the entry is found by.
    pub open spec fn key(self) -> (u64, u16) {
        (self.document, self.attribute)
    }

    /// Whether the entry comes before `other` in an image.
    pub open spec fn before(self, other: Entry) -> bool {
        key_before(self.key(), other.key())
    }

    /// The 22 bytes of the entry.
    pub open spec fn bytes(self) -> Seq<u8> {
        le_bytes(self.document as nat, 8) + le_bytes(self.attribute as nat, 2) + le_bytes(
            self.number.tag(),
            4,
        ) + le_bytes(self.number.payload(), 8)
    }

    /// The entry that 22 bytes denote, if they denote one.
    pub open spec fn parse(chunk: Seq<u8>) -> Option<Entry> {
        match Number::from_parts(
            le_value(chunk.subrange(10, 14)),
            le_value(chunk.subrange(14, 22)),
        ) {
            Some(number) => Some(
                Entry {
                    document: le_value(chunk.subrange(0, 8)) as u64,
                    attribute: le_value(chunk.subrange(8, 10)) as u16,
                    number,
                },
            ),
            None => None,
        }
    }
}

/// An entry takes 22 bytes, and they denote it.
pub proof fn lemma_entry_parses(entry: Entry)
    ensures
        entry.bytes().len() == ENTRY_WIDTH,
        Entry::parse(entry.bytes()) == Some(entry),
{
    let a = le_bytes(entry.document as nat, 8);
    let b = le_bytes(entry.attribute as nat, 2);
    let c = le_bytes(entry.number.tag(), 4);
    let d = le_bytes(entry.number.payload(), 8);
    lemma_le_bytes_len(entry.document as nat, 8);
    lemma_le_bytes_len(entry.attribute as nat, 2);
    lemma_le_bytes_len(entry.number.tag(), 4);
    lemma_le_bytes_len(entry.number.payload(), 8);
    lemma_radix_pow_values();
    lemma_le_value_of_bytes(entry.document as nat, 8);
    lemma_le_value_of_bytes(entry.attribute as nat, 2);
    lemma_le_value_of_bytes(entry.number.tag(), 4);
    lemma_le_value_of_bytes(entry.number.payload(), 8);
    let whole = entry.bytes();
    assert(whole.subrange(0, 8) =~= a);
    assert(whole.subrange(8, 10) =~= b);
    assert(whole.subrange(10, 14) =~= c);
    assert(whole.subrange(14, 22) =~= d);
}

/// Twenty-two bytes that denote an entry are the bytes of that entry.
pub proof fn lemma_parsed_entry_bytes(chunk: Seq<u8>)
    requires
        chunk.len() == ENTRY_WIDTH,
        Entry::parse(chunk).is_some(),
    ensures
        Entry::parse(chunk).unwrap().bytes() == chunk,
{
    let a = chunk.subrange(0, 8);
    let b = chunk.subrange(8, 10);
    let c = chunk.subrange(10, 14);
    let d = chunk.subrange(14, 22);
    lemma_radix_pow_values();
    lemma_le_value_bound(a);
    lemma_le_value_bound(b);
    lemma_le_value_bound(d);
    lemma_le_bytes_of_value(a);
    lemma_le_bytes_of_value(b);
    lemma_le_bytes_of_value(c);
    lemma_le_bytes_of_value(d);
}

/// Whether the entries stand in strictly increasing order of their keys.
pub open spec fn sorted(entries: Seq<Entry>) -> bool {
    forall|i: int, j: int| 0 <= i < j < entries.len() ==> entries[i].before(entries[j])
}

/// The bytes of the entries, one after the other.
pub open spec fn entries_bytes(entries: Seq<Entry>) -> Seq<u8>
    decreases entries.len(),
{
    if entries.len() == 0 {
        Seq::empty()
    } else {
        entries_bytes(entries.drop_last()) + entries.last().bytes()
    }
}

/// The image of a map with the given entries: their count, then the entries.
pub open spec fn image(entries: Seq<Entry>) -> Seq<u8> {
    le_bytes(entries.len(), 8) + entries_bytes(entries)
}

/// Whether `bytes` is the image of a ranked map.
pub open spec fn is_image(bytes: Seq<u8>) -> bool {
    exists|entries: Seq<Entry>| sorted(entries) && #[trigger] image(entries) == bytes
}

/// The rank that the entries give to each key.
pub open spec fn ranks(entries: Seq<Entry>) -> Map<(u64, u16), Number> {
    Map::new(
        |key: (u64, u16)| exists|i: int| 0 <= i < entries.len() && #[trigger] entries[i].key() == key,
        |key: (u64, u16)|
            entries[choose|i: int| 0 <= i < entries.len() && #[trigger] entries[i].key() == key].number,
    )
}

/// The entries take 22 bytes each.
pub proof fn lemma_entries_bytes_len(entries: Seq<Entry>)
    ensures
        entries_bytes(entries).len() == ENTRY_WIDTH * entries.len(),
    decreases entries.len(),
{
    if entries.len() > 0 {
        lemma_entries_bytes_len(entries.drop_last());
        lemma_entry_parses(entries.last());
    }
}

/// The bytes of the `i`-th entry stand at offset `22 * i`.
pub proof fn lemma_entries_bytes_at(entries: Seq<Entry>, i: int)
    requires
        0 <= i < entries.len(),
    ensures
        entries_bytes(entries).len() == ENTRY_WIDTH * entries.len(),
        entries_bytes(entries).subrange(ENTRY_WIDTH * i, ENTRY_WIDTH * i + ENTRY_WIDTH)
            == entries[i].bytes(),
        entries_bytes(entries).subrange(0, ENTRY_WIDTH * i) == entries_bytes(
            entries.subrange(0, i),
        ),
    decreases entries.len(),
{
    let front = entries.drop_last();
    lemma_entries_bytes_len(front);
    lemma_entry_parses(entries.last());
    if i < entries.len() - 1 {
        lemma_entries_bytes_at(front, i);
        assert(entries.subrange(0, i) =~= front.subrange(0, i));
    }
}

/// An image is its count field followed by its entries, 22 bytes each.
pub proof fn lemma_image_shape(entries: Seq<Entry>)
    ensures
        image(entries).len() == 8 + ENTRY_WIDTH * entries.len(),
        image(entries).subrange(8, image(entries).len() as int) == entries_bytes(entries),
        entries.len() < 0x1_0000_0000_0000_0000 ==> le_value(image(entries).subrange(0, 8))
            == entries.len(),
{
    let count = le_bytes(entries.len(), 8);
    lemma_le_bytes_len(entries.len(), 8);
    lemma_entries_bytes_len(entries);
    assert(image(entries).subrange(0, 8) =~= count);
    if entries.len() < 0x1_0000_0000_0000_0000 {
        lemma_radix_pow_values();
        lemma_le_value_of_bytes(entries.len(), 8);
    }
}

/// In an image, the `i`-th entry is what the 22 bytes at offset `8 + 22 * i`
/// denote.
pub proof fn lemma_image_entry(entries: Seq<Entry>, i: int)
    requires
        0 <= i < entries.len(),
    ensures
        8 + ENTRY_WIDTH * i + ENTRY_WIDTH <= image(entries).len(),
        Entry::parse(
            image(entries).subrange(8 + ENTRY_WIDTH * i, 8 + ENTRY_WIDTH * i + ENTRY_WIDTH),
        ) == Some(entries[i]),
{
    lemma_le_bytes_len(entries.len(), 8);
    lemma_entries_bytes_at(entries, i);
    lemma_entry_parses(entries[i]);
    assert(image(entries).subrange(8 + ENTRY_WIDTH * i, 8 + ENTRY_WIDTH * i + ENTRY_WIDTH)
        =~= entries_bytes(entries).subrange(ENTRY_WIDTH * i, ENTRY_WIDTH * i + ENTRY_WIDTH));
}

/// Two lists of entries with one image are one list.
pub proof fn lemma_image_injective(a: Seq<Entry>, b: Seq<Entry>)
    requires
        image(a) == image(b),
    ensures
        a == b,
{
    lemma_image_shape(a);
    lemma_image_shape(b);
    assert forall|i: int| 0 <= i < a.len() implies a[i] == b[i] by {
        lemma_image_entry(a, i);
        lemma_image_entry(b, i);
    }
}

/// In a sorted list every entry is the one that its key finds.
pub proof fn lemma_ranks_at(entries: Seq<Entry>, i: int)
    requires
        sorted(entries),
        0 <= i < entries.len(),
    ensures
        ranks(entries).contains_key(entries[i].key()),
        ranks(entries)[entries[i].key()] == entries[i].number,
{
    let key = entries[i].key();
    let j = choose|j: int| 0 <= j < entries.len() && #[trigger] entries[j].key() == key;
    if j < i {
        assert(entries[j].before(entries[i]));
    } else if i < j {
        assert(entries[i].before(entries[j]));
    }
}

/// Whether `at` is where a sorted list turns from keys before `key` to keys
/// not before it: the place of `key` in the list, if it holds the key, and
/// else the place where `key` would stand.
spec fn turns_at(entries: Seq<Entry>, at: int, key: (u64, u16)) -> bool {
    &&& 0 <= at <= entries.len()
    &&& forall|j: int| 0 <= j < at ==> key_before((#[trigger] entries[j]).key(), key)
    &&& forall|j: int| at <= j < entries.len() ==> !key_before((#[trigger] entries[j]).key(), key)
}

/// A sorted list holds a key at the place where it turns, or nowhere.
proof fn lemma_absent(entries: Seq<Entry>, at: int, key: (u64, u16))
    requires
        sorted(entries),
        turns_at(entries, at, key),
        !(at < entries.len() && entries[at].key() == key),
    ensures
        !ranks(entries).contains_key(key),
{
    assert forall|j: int| 0 <= j < entries.len() implies (#[trigger] entries[j]).key() != key by {
        if j > at {
            assert(entries[at].before(entries[j]));
        }
    }
}

/// Putting an entry at the place of its key, in place of the entry that has
/// the key or between its neighbours, keeps the list sorted and gives the
/// key the rank of the entry.
proof fn lemma_put(before: Seq<Entry>, at: int, entry: Entry, after: Seq<Entry>)
    requires
        sorted(before),
        turns_at(before, at, entry.key()),
        after == (if at < before.len() && before[at].key() == entry.key() {
            before.update(at, entry)
        } else {
            before.insert(at, entry)
        }),
    ensures
        sorted(after),
        ranks(after) == ranks(before).insert(entry.key(), entry.number),
{
    let key = entry.key();
    let found = at < before.len() && before[at].key() == key;
    let shift: int = if found {
        0
    } else {
        1
    };
    // Where each entry of the new list stood in the old one.
    let old_place = |j: int|
        if j < at {
            j
        } else {
            j - shift
        };
    assert forall|i: int, j: int| 0 <= i < j < after.len() implies after[i].before(after[j]) by {
        if i != at && j != at {
            assert(before[old_place(i)].before(before[old_place(j)]));
        } else if i == at && at < before.len() {
            assert(before[at].before(before[old_place(j)]) || old_place(j) == at);
        }
    }
    assert(after[at].key() == key);
    assert forall|k: (u64, u16)| k != key implies (ranks(after).contains_key(k) <==> ranks(
        before,
    ).contains_key(k)) by {
        if ranks(after).contains_key(k) {
            let j = choose|j: int| 0 <= j < after.len() && #[trigger] after[j].key() == k;
            assert(before[old_place(j)].key() == k);
        }
        if ranks(before).contains_key(k) {
            let j = choose|j: int| 0 <= j < before.len() && #[trigger] before[j].key() == k;
            let new_place = if j < at {
                j
            } else {
                j + shift
            };
            assert(after[new_place].key() == k);
        }
    }
    assert forall|k: (u64, u16)| #[trigger] ranks(after).contains_key(k) implies ranks(after)[k]
        == ranks(before).insert(key, entry.number)[k] by {
        let j = choose|j: int| 0 <= j < after.len() && #[trigger] after[j].key() == k;
        if k != key {
            lemma_ranks_at(before, old_place(j));
        } else {
            lemma_ranks_at(after, at);
        }
    }
    assert(ranks(after) =~= ranks(before).insert(key, entry.number));
}

/// Taking an entry out keeps the list sorted and takes its key out of the
/// ranks.
proof fn lemma_take(before: Seq<Entry>, at: int)
    requires
        sorted(before),
        0 <= at < before.len(),
    ensures
        sorted(before.remove(at)),
        ranks(before.remove(at)) == ranks(before).remove(before[at].key()),
        ranks(before).contains_key(before[at].key()),
        ranks(before)[before[at].key()] == before[at].number,
{
    let after = before.remove(at);
    let key = before[at].key();
    // Where each entry of the new list stood in the old one.
    let old_place = |j: int|
        if j < at {
            j
        } else {
            j + 1
        };
    lemma_ranks_at(before, at);
    assert forall|i: int, j: int| 0 <= i < j < after.len() implies after[i].before(after[j]) by {
        assert(before[old_place(i)].before(before[old_place(j)]));
    }
    assert forall|k: (u64, u16)| #[trigger]
        ranks(after).contains_key(k) <==> (k != key && ranks(before).contains_key(k)) by {
        if ranks(after).contains_key(k) {
            let j = choose|j: int| 0 <= j < after.len() && #[trigger] after[j].key() == k;
            assert(before[old_place(j)].key() == k);
            if old_place(j) < at {
                assert(before[old_place(j)].before(before[at]));
            } else {
                assert(before[at].before(before[old_place(j)]));
            }
        }
        if ranks(before).contains_key(k) && k != key {
            let j = choose|j: int| 0 <= j < before.len() && #[trigger] before[j].key() == k;
            let new_place = if j < at {
                j
            } else {
                j - 1
            };
            assert(after[new_place].key() == k);
        }
    }
    assert forall|k: (u64, u16)| #[trigger] ranks(after).contains_key(k) implies ranks(after)[k]
        == ranks(before)[k] by {
        let j = choose|j: int| 0 <= j < after.len() && #[trigger] after[j].key() == k;
        lemma_ranks_at(before, old_place(j));
    }
    assert(ranks(after) =~= ranks(before).remove(key));
}

/// Two sorted lists that give every key the same rank are one list: a map
/// has one list of entries, and so one image.
pub proof fn lemma_ranks_injective(a: Seq<Entry>, b: Seq<Entry>)
    requires
        sorted(a),
        sorted(b),
        ranks(a) == ranks(b),
    ensures
        a == b,
    decreases a.len(),
{
    if a.len() == 0 || b.len() == 0 {
        if a.len() > 0 {
            lemma_ranks_at(a, 0);
        }
        if b.len() > 0 {
            lemma_ranks_at(b, 0);
        }
        assert(a =~= b);
    } else {
        // The last entry of each list has the greatest key of the map.
        let last_a = a.len() - 1;
        let last_b = b.len() - 1;
        lemma_ranks_at(a, last_a);
        lemma_ranks_at(b, last_b);
        let in_b = choose|j: int| 0 <= j < b.len() && #[trigger] b[j].key() == a[last_a].key();
        let in_a = choose|i: int| 0 <= i < a.len() && #[trigger] a[i].key() == b[last_b].key();
        if in_b < last_b {
            assert(b[in_b].before(b[last_b]));
        }
        if in_a < last_a {
            assert(a[in_a].before(a[last_a]));
        }
        assert(a[last_a] == b[last_b]);
        lemma_take(a, last_a);
        lemma_take(b, last_b);
        lemma_ranks_injective(a.remove(last_a), b.remove(last_b));
        assert(a =~= a.remove(last_a).push(a[last_a]));
        assert(b =~= b.remove(last_b).push(b[last_b]));
    }
}

/// The rank of each ranked attribute of each document.
#[derive(Debug, PartialEq, Eq)]
pub struct RankedMap {
    entries: Vec<Entry>,
}

impl View for RankedMap {
    type V = Map<(u64, u16), Number>;

    /// The rank under each key.
    open spec fn view(&self) -> Map<(u64, u16), Number> {
        ranks(self.entries())
    }
}

fn read_entry(bytes: &[u8], at: usize) -> (entry: Option<Entry>)
    requires
        at + ENTRY_WIDTH <= bytes@.len(),
    ensures
        entry == Entry::parse(bytes@.subrange(at as int, at + ENTRY_WIDTH)),
{
    let ghost chunk = bytes@.subrange(at as int, at + ENTRY_WIDTH);
    proof {
        assert(bytes@.len() == bytes.len());
        assert(chunk.subrange(0, 8) =~= bytes@.subrange(at as int, at + 8));
        assert(chunk.subrange(8, 10) =~= bytes@.subrange(at + 8, at + 8 + 2));
        assert(chunk.subrange(10, 14) =~= bytes@.subrange(at + 10, at + 10 + 4));
        assert(chunk.subrange(14, 22) =~= bytes@.subrange(at + 14, at + 14 + 8));
    }
    let document: u64 = read_le(bytes, at, 8);
    let attribute: u64 = read_le(bytes, at + 8, 2);
    let tag: u64 = read_le(bytes, at + 10, 4);
    let payload: u64 = read_le(bytes, at + 14, 8);
    match Number::assemble(tag, payload) {
        Some(number) => Some(Entry { document, attribute: attribute as u16, number }),
        None => None,
    }
}

fn push_entry(out: &mut Vec<u8>, entry: &Entry)
    ensures
        final(out)@ == old(out)@ + entry.bytes(),
{
    push_le(out, entry.document, 8);
    push_le(out, entry.attribute as u64, 2);
    push_le(out, entry.number.tag_value(), 4);
    push_le(out, entry.number.payload_value(), 8);
}

impl Clone for RankedMap {
    /// A map with the same ranks.
    fn clone(&self) -> (copy: RankedMap)
        ensures
            copy.wf(),
            copy.entries() == self.entries(),
    {
        proof {
            use_type_invariant(self);
        }
        let mut entries: Vec<Entry> = Vec::new();
        let mut i: usize = 0;
        while i < self.entries.len()
            invariant
                i <= self.entries@.len(),
                entries@ == self.entries@.subrange(0, i as int),
            decreases self.entries@.len() - i,
        {
            entries.push(self.entries[i]);
            i += 1;
        }
        RankedMap { entries }
    }
}

impl RankedMap {
    /// The entries of the map, in the order of their keys.
    pub closed spec fn entries(&self) -> Seq<Entry> {
        self.entries@
    }

    /// What holds of every ranked map: its entries stand in strictly
    /// increasing order of their keys.
    #[verifier::type_invariant]
    pub open spec fn wf(&self) -> bool {
        sorted(self.entries())
    }

    /// The image of the map.
    pub open spec fn image(&self) -> Seq<u8> {
        image(self.entries())
    }

    /// A map that ranks nothing.
    pub fn new() -> (map: RankedMap)
        ensures
            map.wf(),
            map.entries() == Seq::<Entry>::empty(),
            map@ == Map::<(u64, u16), Number>::empty(),
    {
        RankedMap { entries: Vec::new() }
    }

    /// How many ranks the map holds.
    pub fn len(&self) -> (n: usize)
        ensures
            n == self.entries().len(),
    {
        self.entries.len()
    }

    /// Whether the map ranks nothing.
    pub fn is_empty(&self) -> (empty: bool)
        ensures
            empty == (self.entries().len() == 0),
    {
        self.entries.len() == 0
    }

    /// Where the key stands among the entries, or where it would, and
    /// whether it stands there.
    fn locate(&self, document: u64, attribute: u16) -> (place: (usize, bool))
        ensures
            turns_at(self.entries(), place.0 as int, (document, attribute)),
            place.1 <==> place.0 < self.entries().len() && self.entries()[place.0 as int].key() == (
                document,
                attribute,
            ),
    {
        proof {
            use_type_invariant(self);
        }
        let ghost key = (document, attribute);
        let mut low: usize = 0;
        let mut high: usize = self.entries.len();
        while low < high
            invariant
                low <= high <= self.entries@.len(),
                sorted(self.entries@),
                key == (document, attribute),
                forall|j: int| 0 <= j < low ==> key_before((#[trigger] self.entries@[j]).key(), key),
                forall|j: int|
                    high <= j < self.entries@.len() ==> !key_before(
                        (#[trigger] self.entries@[j]).key(),
                        key,
                    ),
            decreases high - low,
        {
            let middle: usize = low + (high - low) / 2;
            let entry = &self.entries[middle];
            if entry.document < document || (entry.document == document && entry.attribute
                < attribute) {
                assert forall|j: int| 0 <= j < middle + 1 implies key_before(
                    (#[trigger] self.entries@[j]).key(),
                    key,
                ) by {
                    if j < middle {
                        assert(self.entries@[j].before(self.entries@[middle as int]));
                    }
                }
                low = middle + 1;
            } else {
                assert forall|j: int| middle <= j < self.entries@.len() implies !key_before(
                    (#[trigger] self.entries@[j]).key(),
                    key,
                ) by {
                    if middle < j {
                        assert(self.entries@[middle as int].before(self.entries@[j]));
                    }
                }
                high = middle;
            }
        }
        let found = low < self.entries.len() && self.entries[low].document == document
            && self.entries[low].attribute == attribute;
        (low, found)
    }

    /// The rank of `attribute` in `document`, if the map holds one.
    pub fn get(&self, document: u64, attribute: u16) -> (rank: Option<Number>)
        ensures
            rank == (if self@.contains_key((document, attribute)) {
                Some(self@[(document, attribute)])
            } else {
                None
            }),
    {
        proof {
            use_type_invariant(self);
        }
        let (at, found) = self.locate(document, attribute);
        if found {
            proof {
                lemma_ranks_at(self.entries@, at as int);
            }
            Some(self.entries[at].number)
        } else {
            proof {
                lemma_absent(self.entries@, at as int, (document, attribute));
            }
            None
        }
    }

    /// Gives `attribute` in `document` the rank `number`, in place of the
    /// rank it had.
    pub fn insert(&mut self, document: u64, attribute: u16, number: Number)
        ensures
            final(self).wf(),
            final(self)@ == old(self)@.insert((document, attribute), number),
    {
        proof {
            use_type_invariant(&*self);
        }
        let ghost before = self.entries@;
        let entry = Entry { document, attribute, number };
        let (at, found) = self.locate(document, attribute);
        // The entries leave the map while they change, and come back sorted.
        let mut entries: Vec<Entry> = Vec::new();
        core::mem::swap(&mut self.entries, &mut entries);
        if found {
            entries.set(at, entry);
        } else {
            entries.insert(at, entry);
        }
        proof {
            lemma_put(before, at as int, entry, entries@);
        }
        core::mem::swap(&mut self.entries, &mut entries);
    }

    /// Takes the rank of `attribute` in `document` out of the map, and
    /// returns it.
    pub fn remove(&mut self, document: u64, attribute: u16) -> (rank: Option<Number>)
        ensures
            final(self).wf(),
            final(self)@ == old(self)@.remove((document, attribute)),
            rank == (if old(self)@.contains_key((document, attribute)) {
                Some(old(self)@[(document, attribute)])
            } else {
                None
            }),
    {
        proof {
            use_type_invariant(&*self);
        }
        let ghost before = self.entries@;
        let ghost key = (document, attribute);
        let (at, found) = self.locate(document, attribute);
        if !found {
            proof {
                lemma_absent(before, at as int, key);
                assert(ranks(before).remove(key) =~= ranks(before));
            }
            return None;
        }
        let mut entries: Vec<Entry> = Vec::new();
        core::mem::swap(&mut self.entries, &mut entries);
        let taken = entries.remove(at);
        proof {
            lemma_take(before, at as int);
        }
        core::mem::swap(&mut self.entries, &mut entries);
        Some(taken.number)
    }

    /// Appends the image of the map to `out`.
    pub fn write_to_bin(&self, out: &mut Vec<u8>)
        ensures
            final(out)@ == old(out)@ + self.image(),
    {
        let ghost start = out@;
        let count: usize = self.entries.len();
        push_le(out, count as u64, 8);
        let mut i: usize = 0;
        while i < count
            invariant
                i <= count == self.entries@.len(),
                out@ == start + le_bytes(count as nat, 8) + entries_bytes(
                    self.entries@.subrange(0, i as int),
                ),
            decreases count - i,
        {
            push_entry(out, &self.entries[i]);
            proof {
                let head = self.entries@.subrange(0, i as int);
                let next = self.entries@.subrange(0, i + 1);
                assert(next.drop_last() =~= head);
                assert(next.last() == self.entries@[i as int]);
            }
            i += 1;
        }
        proof {
            assert(self.entries@.subrange(0, count as int) =~= self.entries@);
            assert(out@ =~= start + self.image());
        }
    }

    /// Reads the map that `bytes` is the image of.
    ///
    /// Fails with [`IndexError::DecodeError`] exactly when `bytes` is the image
    /// of no map: when the count or an entry is cut short, when bytes
    /// follow the last entry, when an entry names no kind of number, or
    /// when the entries do not stand in strictly increasing order.
    pub fn read_from_bin(bytes: &[u8]) -> (r: Result<RankedMap, IndexError>)
        ensures
            match r {
                Ok(map) => map.wf() && map.image() == bytes@,
                Err(e) => e == IndexError::DecodeError && !is_image(bytes@),
            },
    {
        let total: usize = bytes.len();
        proof {
            assert forall|w: Seq<Entry>| #[trigger] image(w) == bytes@ implies bytes@.len() == 8
                + ENTRY_WIDTH * w.len() && le_value(bytes@.subrange(0, 8)) == w.len() by {
                lemma_image_shape(w);
            }
        }
        if total < 8 {
            return Err(IndexError::DecodeError);
        }
        let count: u64 = read_le(bytes, 0, 8);
        let body: usize = total - 8;
        if body % ENTRY_WIDTH != 0 {
            return Err(IndexError::DecodeError);
        }
        let n: usize = body / ENTRY_WIDTH;
        if n as u64 != count {
            return Err(IndexError::DecodeError);
        }
        let mut entries: Vec<Entry> = Vec::new();
        let mut i: usize = 0;
        while i < n
            invariant
                i <= n,
                total == bytes@.len() == 8 + ENTRY_WIDTH * n,
                entries@.len() == i,
                sorted(entries@),
                entries_bytes(entries@) == bytes@.subrange(8, 8 + ENTRY_WIDTH * i),
                forall|w: Seq<Entry>|
                    sorted(w) && #[trigger] image(w) == bytes@ ==> w.len() == n && w.subrange(
                        0,
                        i as int,
                    ) == entries@,
            decreases n - i,
        {
            let at: usize = 8 + i * ENTRY_WIDTH;
            let ghost chunk = bytes@.subrange(at as int, at + ENTRY_WIDTH);
            let ghost parsed = entries@;
            proof {
                assert forall|w: Seq<Entry>|
                    sorted(w) && #[trigger] image(w) == bytes@ implies Entry::parse(chunk)
                    == Some(w[i as int]) by {
                    lemma_image_entry(w, i as int);
                }
            }
            let entry = match read_entry(bytes, at) {
                Some(entry) => entry,
                None => {
                    return Err(IndexError::DecodeError);
                },
            };
            if i > 0 {
                let last = &entries[i - 1];
                if !(last.document < entry.document || (last.document == entry.document
                    && last.attribute < entry.attribute)) {
                    proof {
                        assert forall|w: Seq<Entry>| sorted(w) && #[trigger] image(w)
                            == bytes@ implies false by {
                            assert(w.subrange(0, i as int)[i - 1] == w[i - 1]);
                            assert(w[i - 1].before(w[i as int]));
                        }
                    }
                    return Err(IndexError::DecodeError);
                }
            }
            entries.push(entry);
            proof {
                lemma_parsed_entry_bytes(chunk);
                assert(entries@.drop_last() =~= parsed);
                assert(entries_bytes(entries@) =~= bytes@.subrange(8, 8 + ENTRY_WIDTH * (i + 1)));
                assert(sorted(entries@)) by {
                    assert forall|a: int, b: int| 0 <= a < b < entries@.len() implies entries@[a].before(
                        entries@[b],
                    ) by {
                        if b == i {
                            if a < i - 1 {
                                assert(parsed[a].before(parsed[i - 1]));
                            }
                        } else {
                            assert(parsed[a].before(parsed[b]));
                        }
                    }
                }
                assert forall|w: Seq<Entry>| sorted(w) && #[trigger] image(w) == bytes@ implies w.len()
                    == n && w.subrange(0, i + 1) == entries@ by {
                    assert(w.subrange(0, i + 1) =~= w.subrange(0, i as int).push(w[i as int]));
                }
            }
            i += 1;
        }
        proof {
            let head = bytes@.subrange(0, 8);
            lemma_le_bytes_of_value(head);
            assert(bytes@ =~= head + bytes@.subrange(8, 8 + ENTRY_WIDTH * n));
        }
        Ok(RankedMap { entries })
    }
}

} // verus!
