use aitia::dpki::{DpkiService, KeyMutation, KeyState, MutationKind};
use std::sync::Arc;
use aitia::gossip::{decode_bloom_filter, encode_bloom_filter, same_filter, BloomParts, HEADER_LEN};

fn parts() -> BloomParts {
    BloomParts {
        bitmap_bits: 0x0102_0304_0506_0708,
        k_num: 0x0a0b_0c0d,
        first_keys: (1, 0x1122_3344_5566_7788),
        second_keys: (u64::MAX, 0),
        bitmap: vec![0xf0, 0x0f, 0xaa],
    }
}

#[test]
fn bloom_filter_is_written_lowest_byte_first() {
    let bytes = encode_bloom_filter(&parts());
    assert_eq!(bytes.len(), HEADER_LEN + 3);
    assert_eq!(&bytes[0..8], &[0x08, 0x07, 0x06, 0x05, 0x04, 0x03, 0x02, 0x01]);
    assert_eq!(&bytes[8..12], &[0x0d, 0x0c, 0x0b, 0x0a]);
    assert_eq!(&bytes[12..20], &[1, 0, 0, 0, 0, 0, 0, 0]);
    assert_eq!(&bytes[20..28], &[0x88, 0x77, 0x66, 0x55, 0x44, 0x33, 0x22, 0x11]);
    assert_eq!(&bytes[28..36], &[0xff; 8]);
    assert_eq!(&bytes[36..44], &[0; 8]);
    assert_eq!(&bytes[44..], &[0xf0, 0x0f, 0xaa]);
}

#[test]
fn bloom_filter_is_read_back() {
    let bytes = encode_bloom_filter(&parts());
    let read = decode_bloom_filter(&bytes).unwrap();
    assert!(same_filter(&read, &parts()));
    assert_eq!(read.bitmap_bits, 0x0102_0304_0506_0708);
    assert_eq!(read.k_num, 0x0a0b_0c0d);
    assert_eq!(read.first_keys, (1, 0x1122_3344_5566_7788));
    assert_eq!(read.second_keys, (u64::MAX, 0));
    assert_eq!(read.bitmap, vec![0xf0, 0x0f, 0xaa]);
    assert_eq!(encode_bloom_filter(&read), bytes);
}

#[test]
fn bloom_filter_needs_all_its_numbers() {
    assert!(decode_bloom_filter(&[0; 43]).is_none());
    assert!(decode_bloom_filter(&[]).is_none());
    let empty = decode_bloom_filter(&[0; 44]).unwrap();
    assert!(empty.bitmap.is_empty());
    assert_eq!(empty.k_num, 0);
}

#[test]
fn filters_differ_if_any_part_differs() {
    let mut other = parts();
    assert!(same_filter(&other, &parts()));
    other.bitmap[2] = 0xab;
    assert!(!same_filter(&other, &parts()));
    let mut other = parts();
    other.bitmap.push(0);
    assert!(!same_filter(&other, &parts()));
    let mut other = parts();
    other.second_keys.1 = 1;
    assert!(!same_filter(&other, &parts()));
    let mut other = parts();
    other.k_num = 1;
    assert!(!same_filter(&other, &parts()));
}

#[test]
fn only_a_valid_key_is_valid() {
    assert!(KeyState::Valid(1u8).is_valid());
    assert!(!KeyState::Invalidated(1u8).is_valid());
    assert!(!KeyState::<u8>::NotFound.is_valid());
}

#[test]
fn key_mutations_name_the_right_keys() {
    let register = KeyMutation::register_key("new");
    assert_eq!((register.old_key, register.new_key), (None, Some("new")));
    assert!(matches!(register.kind(), MutationKind::Register));

    let update = KeyMutation::update_key("old", "new");
    assert_eq!((update.old_key, update.new_key), (Some("old"), Some("new")));
    assert!(matches!(update.kind(), MutationKind::Update));

    let remove = KeyMutation::remove_key("old");
    assert_eq!((remove.old_key, remove.new_key), (Some("old"), None));
    assert!(matches!(remove.kind(), MutationKind::Remove));

    let nothing: KeyMutation<&str> = KeyMutation { old_key: None, new_key: None };
    assert!(matches!(nothing.kind(), MutationKind::Nothing));
}

#[test]
fn registry_is_found_by_the_hash_of_its_network() {
    let mut service: DpkiService<Arc<&'static str>> = DpkiService::new();
    assert!(service.get_dpki_cell(&[1, 2, 3]).is_none());
    service.insert(vec![1, 2, 3], Arc::new("first"));
    service.insert(vec![1, 2], Arc::new("second"));
    assert_eq!(service.get_dpki_cell(&[1, 2, 3]), Some(Arc::new("first")));
    assert_eq!(service.get_dpki_cell(&[1, 2]), Some(Arc::new("second")));
    assert!(service.get_dpki_cell(&[1]).is_none());
    assert!(service.get_dpki_cell(&[1, 2, 4]).is_none());
    service.insert(vec![1, 2, 3], Arc::new("third"));
    assert_eq!(service.get_dpki_cell(&[1, 2, 3]), Some(Arc::new("third")));
    assert_eq!(service.get_dpki_cell(&[1, 2]), Some(Arc::new("second")));
}
