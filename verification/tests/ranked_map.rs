use main_index::{Entry, IndexError, Number, RankedMap};

fn image_of(map: &RankedMap) -> Vec<u8> {
    let mut out = Vec::new();
    map.write_to_bin(&mut out);
    out
}

fn sample() -> RankedMap {
    let mut map = RankedMap::new();
    map.insert(7, 1, Number::Unsigned(42));
    map.insert(3, 2, Number::Signed(-4));
    map.insert(3, 0, Number::Float(2.5f64.to_bits()));
    map.insert(u64::MAX, u16::MAX, Number::Unsigned(u64::MAX));
    map
}

#[test]
fn new_ranked_map_is_empty() {
    let map = RankedMap::new();
    assert_eq!(map.len(), 0);
    assert!(map.is_empty());
    assert_eq!(map.get(0, 0), None);
}

#[test]
fn insert_then_get_gives_the_rank() {
    let map = sample();
    assert_eq!(map.len(), 4);
    assert!(!map.is_empty());
    assert_eq!(map.get(7, 1), Some(Number::Unsigned(42)));
    assert_eq!(map.get(3, 2), Some(Number::Signed(-4)));
    assert_eq!(map.get(3, 0), Some(Number::Float(2.5f64.to_bits())));
    assert_eq!(map.get(u64::MAX, u16::MAX), Some(Number::Unsigned(u64::MAX)));
    assert_eq!(map.get(3, 1), None);
    assert_eq!(map.get(7, 0), None);
    assert_eq!(map.get(1, 7), None);
}

#[test]
fn insert_replaces_the_rank_of_a_key() {
    let mut map = sample();
    map.insert(3, 2, Number::Unsigned(9));
    assert_eq!(map.len(), 4);
    assert_eq!(map.get(3, 2), Some(Number::Unsigned(9)));
    assert_eq!(map.get(3, 0), Some(Number::Float(2.5f64.to_bits())));
    assert_eq!(map.get(7, 1), Some(Number::Unsigned(42)));
}

#[test]
fn remove_takes_one_rank_out() {
    let mut map = sample();
    assert_eq!(map.remove(3, 2), Some(Number::Signed(-4)));
    assert_eq!(map.len(), 3);
    assert_eq!(map.get(3, 2), None);
    assert_eq!(map.get(3, 0), Some(Number::Float(2.5f64.to_bits())));
    assert_eq!(map.get(7, 1), Some(Number::Unsigned(42)));
    assert_eq!(map.remove(3, 2), None);
    assert_eq!(map.remove(100, 100), None);
    assert_eq!(map.len(), 3);
}

#[test]
fn maps_with_the_same_ranks_are_equal_whatever_the_order_of_inserts() {
    let mut a = RankedMap::new();
    a.insert(1, 1, Number::Unsigned(1));
    a.insert(2, 2, Number::Unsigned(2));
    a.insert(1, 2, Number::Unsigned(3));
    let mut b = RankedMap::new();
    b.insert(1, 2, Number::Unsigned(0));
    b.insert(2, 2, Number::Unsigned(2));
    b.insert(1, 2, Number::Unsigned(3));
    b.insert(1, 1, Number::Unsigned(1));
    assert_eq!(a, b);
    assert_eq!(image_of(&a), image_of(&b));
    b.insert(1, 1, Number::Signed(1));
    assert_ne!(a, b);
}

#[test]
fn clone_has_the_same_ranks() {
    let map = sample();
    let mut copy = map.clone();
    assert_eq!(copy, map);
    copy.insert(0, 0, Number::Unsigned(0));
    assert_ne!(copy, map);
    assert_eq!(map.len(), 4);
}

#[test]
fn image_of_the_empty_map_is_a_zero_count() {
    assert_eq!(image_of(&RankedMap::new()), vec![0u8; 8]);
}

#[test]
fn image_of_one_entry_byte_for_byte() {
    let mut map = RankedMap::new();
    map.insert(0x0102, 0x0304, Number::Unsigned(5));
    let expected: Vec<u8> = vec![
        1, 0, 0, 0, 0, 0, 0, 0, // count
        2, 1, 0, 0, 0, 0, 0, 0, // document
        4, 3, // attribute
        0, 0, 0, 0, // kind
        5, 0, 0, 0, 0, 0, 0, 0, // number
    ];
    assert_eq!(image_of(&map), expected);
}

#[test]
fn image_of_each_kind_of_number() {
    let mut map = RankedMap::new();
    map.insert(1, 0, Number::Signed(-1));
    map.insert(1, 1, Number::Signed(i64::MIN));
    map.insert(1, 2, Number::Float(1.0f64.to_bits()));
    let image = image_of(&map);
    assert_eq!(image.len(), 8 + 3 * 22);
    assert_eq!(&image[0..8], &[3, 0, 0, 0, 0, 0, 0, 0]);
    assert_eq!(&image[18..22], &[1, 0, 0, 0]);
    assert_eq!(&image[22..30], &[255; 8]);
    assert_eq!(&image[40..44], &[1, 0, 0, 0]);
    assert_eq!(&image[44..52], &[0, 0, 0, 0, 0, 0, 0, 0x80]);
    assert_eq!(&image[62..66], &[2, 0, 0, 0]);
    assert_eq!(&image[66..74], &[0, 0, 0, 0, 0, 0, 0xF0, 0x3F]);
}

#[test]
fn image_is_written_in_the_order_of_the_keys() {
    let image = image_of(&sample());
    let keys: Vec<(u64, u64)> = (0..4)
        .map(|i| {
            let at = 8 + 22 * i;
            (
                main_index::radix::read_le(&image, at, 8),
                main_index::radix::read_le(&image, at + 8, 2),
            )
        })
        .collect();
    assert_eq!(keys, vec![(3, 0), (3, 2), (7, 1), (u64::MAX, 65_535)]);
}

#[test]
fn image_is_appended_to_what_the_buffer_holds() {
    let mut out = vec![9u8, 9];
    RankedMap::new().write_to_bin(&mut out);
    assert_eq!(out, vec![9, 9, 0, 0, 0, 0, 0, 0, 0, 0]);
}

#[test]
fn image_is_what_bincode_writes_for_the_same_entries() {
    let mut map = RankedMap::new();
    map.insert(1, 2, Number::Unsigned(3));
    map.insert(1, 3, Number::Signed(-4));
    map.insert(9, 0, Number::Float(2.5f64.to_bits()));
    let expected = bincode::serialize(&(
        3u64,
        ((1u64, 2u16), (0u32, 3u64)),
        ((1u64, 3u16), (1u32, -4i64)),
        ((9u64, 0u16), (2u32, 2.5f64)),
    ))
    .unwrap();
    assert_eq!(image_of(&map), expected);
}

#[test]
fn bincode_image_of_a_sorted_list_is_read() {
    let entries: Vec<((u64, u16), (u32, u64))> =
        vec![((1, 1), (0, 10)), ((1, 2), (0, 20)), ((5, 0), (0, 30))];
    let image = bincode::serialize(&entries).unwrap();
    let map = RankedMap::read_from_bin(&image).unwrap();
    assert_eq!(map.len(), 3);
    assert_eq!(map.get(1, 1), Some(Number::Unsigned(10)));
    assert_eq!(map.get(1, 2), Some(Number::Unsigned(20)));
    assert_eq!(map.get(5, 0), Some(Number::Unsigned(30)));
}

#[test]
fn read_gives_back_the_map_that_was_written() {
    let map = sample();
    let back = RankedMap::read_from_bin(&image_of(&map)).unwrap();
    assert_eq!(back, map);
    assert_eq!(back.get(3, 2), Some(Number::Signed(-4)));
    let empty = RankedMap::read_from_bin(&image_of(&RankedMap::new())).unwrap();
    assert_eq!(empty, RankedMap::new());
}

#[test]
fn read_gives_back_extreme_numbers() {
    let mut map = RankedMap::new();
    map.insert(0, 0, Number::Signed(i64::MIN));
    map.insert(0, 1, Number::Signed(i64::MAX));
    map.insert(0, 2, Number::Signed(-1));
    map.insert(0, 3, Number::Signed(0));
    map.insert(0, 4, Number::Unsigned(u64::MAX));
    map.insert(0, 5, Number::Float(f64::NEG_INFINITY.to_bits()));
    map.insert(0, 6, Number::Float(u64::MAX));
    let back = RankedMap::read_from_bin(&image_of(&map)).unwrap();
    assert_eq!(back, map);
    assert_eq!(back.get(0, 0), Some(Number::Signed(i64::MIN)));
    assert_eq!(back.get(0, 1), Some(Number::Signed(i64::MAX)));
    assert_eq!(back.get(0, 2), Some(Number::Signed(-1)));
    assert_eq!(back.get(0, 6), Some(Number::Float(u64::MAX)));
}

#[test]
fn written_again_a_read_image_is_the_same_bytes() {
    let image = image_of(&sample());
    let back = RankedMap::read_from_bin(&image).unwrap();
    assert_eq!(image_of(&back), image);
}

#[test]
fn read_refuses_a_count_cut_short() {
    assert_eq!(RankedMap::read_from_bin(&[]), Err(IndexError::DecodeError));
    assert_eq!(RankedMap::read_from_bin(&[0; 7]), Err(IndexError::DecodeError));
}

#[test]
fn read_refuses_an_entry_cut_short() {
    let mut image = image_of(&sample());
    image.pop();
    assert_eq!(RankedMap::read_from_bin(&image), Err(IndexError::DecodeError));
    image.truncate(8 + 22);
    assert_eq!(RankedMap::read_from_bin(&image), Err(IndexError::DecodeError));
}

#[test]
fn read_refuses_bytes_after_the_last_entry() {
    let mut image = image_of(&sample());
    image.push(0);
    assert_eq!(RankedMap::read_from_bin(&image), Err(IndexError::DecodeError));
    assert_eq!(RankedMap::read_from_bin(&[0; 9]), Err(IndexError::DecodeError));
    assert_eq!(RankedMap::read_from_bin(&[0; 30]), Err(IndexError::DecodeError));
}

#[test]
fn read_refuses_a_count_that_is_not_the_number_of_entries() {
    let mut image = image_of(&sample());
    image[0] = 3;
    assert_eq!(RankedMap::read_from_bin(&image), Err(IndexError::DecodeError));
    image[0] = 4;
    image[7] = 1;
    assert_eq!(RankedMap::read_from_bin(&image), Err(IndexError::DecodeError));
    let mut huge = vec![255u8; 8];
    huge.extend_from_slice(&[0; 22]);
    assert_eq!(RankedMap::read_from_bin(&huge), Err(IndexError::DecodeError));
}

#[test]
fn read_refuses_an_unknown_kind_of_number() {
    let mut map = RankedMap::new();
    map.insert(1, 1, Number::Unsigned(1));
    let mut image = image_of(&map);
    image[18] = 3;
    assert_eq!(RankedMap::read_from_bin(&image), Err(IndexError::DecodeError));
    image[18] = 0;
    image[21] = 1;
    assert_eq!(RankedMap::read_from_bin(&image), Err(IndexError::DecodeError));
    image[21] = 0;
    assert_eq!(RankedMap::read_from_bin(&image), Ok(map));
}

#[test]
fn read_refuses_entries_out_of_order() {
    let unordered: Vec<((u64, u16), (u32, u64))> = vec![((2, 0), (0, 1)), ((1, 0), (0, 1))];
    let image = bincode::serialize(&unordered).unwrap();
    assert_eq!(RankedMap::read_from_bin(&image), Err(IndexError::DecodeError));
    let by_attribute: Vec<((u64, u16), (u32, u64))> = vec![((1, 5), (0, 1)), ((1, 4), (0, 1))];
    let image = bincode::serialize(&by_attribute).unwrap();
    assert_eq!(RankedMap::read_from_bin(&image), Err(IndexError::DecodeError));
}

#[test]
fn read_refuses_a_key_written_twice() {
    let twice: Vec<((u64, u16), (u32, u64))> = vec![((1, 1), (0, 1)), ((1, 1), (0, 2))];
    let image = bincode::serialize(&twice).unwrap();
    assert_eq!(RankedMap::read_from_bin(&image), Err(IndexError::DecodeError));
}

#[test]
fn entry_is_plain_data() {
    let entry = Entry { document: 1, attribute: 2, number: Number::Unsigned(3) };
    let copy = entry;
    assert_eq!(copy, entry);
    assert_eq!(copy.document, 1);
    assert_eq!(copy.attribute, 2);
    assert_eq!(copy.number, Number::Unsigned(3));
}
