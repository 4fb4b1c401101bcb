//! The five record slots and the keys they are stored under.

use vstd::prelude::*;
use vstd::string::*;

verus! {

/// One of the independently addressable records of an index.
#[derive(Clone, Copy, Debug, PartialEq, Eq, Structural)]
pub enum Slot {
    /// The document schema.
    Schema,
    /// The dictionary of indexed words.
    Words,
    /// The dictionary of synonym keys.
    Synonyms,
    /// The rank of each ranked attribute of each document.
    RankedMap,
    /// How many documents the index holds.
    NumberOfDocuments,
}

/// The bytes of a string of ASCII characters.
pub open spec fn ascii(name: Seq<char>) -> Seq<u8> {
    Seq::new(name.len(), |i: int| name[i] as u8)
}

impl Slot {
    /// The name the slot is stored under.
    pub open spec fn name(self) -> Seq<char> {
        match self {
            Slot::Schema => "schema"@,
            Slot::Words => "words"@,
            Slot::Synonyms => "synonyms"@,
            Slot::RankedMap => "ranked-map"@,
            Slot::NumberOfDocuments => "number-of-documents"@,
        }
    }

    /// The key of the slot in the table: the bytes of its name.
    pub open spec fn key(self) -> Seq<u8> {
        ascii(self.name())
    }

    /// The key of the slot in the table.
    pub fn key_bytes(self) -> (key: &'static [u8])
        ensures
            key@ == self.key(),
    {
        broadcast use is_ascii_spec_bytes;

        match self {
            Slot::Schema => {
                proof {
                    reveal_strlit("schema");
                }
                assert(is_ascii("schema"));
                "schema".as_bytes()
            },
            Slot::Words => {
                proof {
                    reveal_strlit("words");
                }
                assert(is_ascii("words"));
                "words".as_bytes()
            },
            Slot::Synonyms => {
                proof {
                    reveal_strlit("synonyms");
                }
                assert(is_ascii("synonyms"));
                "synonyms".as_bytes()
            },
            Slot::RankedMap => {
                proof {
                    reveal_strlit("ranked-map");
                }
                assert(is_ascii("ranked-map"));
                "ranked-map".as_bytes()
            },
            Slot::NumberOfDocuments => {
                proof {
                    reveal_strlit("number-of-documents");
                }
                assert(is_ascii("number-of-documents"));
                "number-of-documents".as_bytes()
            },
        }
    }
}

/// No two slots share a key.
pub proof fn lemma_keys_distinct(a: Slot, b: Slot)
    requires
        a != b,
    ensures
        a.key() != b.key(),
{
    reveal_strlit("schema");
    reveal_strlit("words");
    reveal_strlit("synonyms");
    reveal_strlit("ranked-map");
    reveal_strlit("number-of-documents");
    assert(a.key().len() != b.key().len());
}

} // verus!
