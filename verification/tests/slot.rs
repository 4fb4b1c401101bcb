use main_index::Slot;

#[test]
fn slot_keys_are_the_names() {
    assert_eq!(Slot::Schema.key_bytes(), b"schema");
    assert_eq!(Slot::Words.key_bytes(), b"words");
    assert_eq!(Slot::Synonyms.key_bytes(), b"synonyms");
    assert_eq!(Slot::RankedMap.key_bytes(), b"ranked-map");
    assert_eq!(Slot::NumberOfDocuments.key_bytes(), b"number-of-documents");
}

#[test]
fn slot_keys_are_distinct() {
    let slots = [
        Slot::Schema,
        Slot::Words,
        Slot::Synonyms,
        Slot::RankedMap,
        Slot::NumberOfDocuments,
    ];
    for (i, a) in slots.iter().enumerate() {
        for (j, b) in slots.iter().enumerate() {
            assert_eq!(a.key_bytes() == b.key_bytes(), i == j);
            assert_eq!(a == b, i == j);
        }
    }
}
