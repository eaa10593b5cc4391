use pklib::{byte_pair_hash, CompressionMode, DictionarySize, ImplodeState};

#[test]
fn test_byte_pair_hash() {
    let buffer = b"AB";
    let hash = byte_pair_hash(buffer);
    let expected = (b'A' as usize * 4) + (b'B' as usize * 5);
    assert_eq!(hash, expected);
}

#[test]
fn byte_pair_hash_extremes() {
    assert_eq!(byte_pair_hash(&[0, 0]), 0);
    assert_eq!(byte_pair_hash(&[255, 255, 7]), 255 * 9);
}

fn state_with(data: &[u8]) -> ImplodeState {
    let mut state = ImplodeState::new(CompressionMode::Binary, DictionarySize::Size1K).unwrap();
    state.work_buff[..data.len()].copy_from_slice(data);
    state
}

#[test]
fn sort_buffer_orders_pairs_by_hash() {
    let mut state = state_with(b"ABCABC");
    state.sort_buffer(0, 6);
    let ab = byte_pair_hash(b"AB");
    let ca = byte_pair_hash(b"CA");
    let bc = byte_pair_hash(b"BC");
    assert_eq!((ab, ca, bc), (590, 593, 599));
    // Pairs AB(0) BC(1) CA(2) AB(3) BC(4), ordered by hash, then position.
    assert_eq!(&state.phash_offs[..5], &[0, 3, 2, 1, 4]);
    assert_eq!(state.phash_to_index[ab], 0);
    assert_eq!(state.phash_to_index[ca], 2);
    assert_eq!(state.phash_to_index[bc], 3);
    assert_eq!(state.phash_to_index[0], 0);
    assert_eq!(state.phash_to_index[ab + 1], 2);
    assert_eq!(state.phash_to_index[2303], 5);
}

#[test]
fn sort_buffer_stores_buffer_positions() {
    let mut state = state_with(b"xxABAB");
    state.sort_buffer(2, 6);
    // Pairs AB(2) BA(3) AB(4), counted from the start of the work buffer;
    // BA (589) comes before AB (590).
    let ab = byte_pair_hash(b"AB");
    let ba = byte_pair_hash(b"BA");
    assert_eq!((ba, ab), (589, 590));
    assert_eq!(&state.phash_offs[..3], &[3, 2, 4]);
    assert_eq!(state.phash_to_index[ba], 0);
    assert_eq!(state.phash_to_index[ab], 1);
    assert!(state.validate_hash_table(2, 6));

    let mut state = state_with(b"XABC");
    state.sort_buffer(1, 4);
    assert_eq!(&state.phash_offs[..2], &[1, 2]);
    assert_eq!(state.phash_to_index[590], 0);
    assert_eq!(state.phash_to_index[599], 1);
}

#[test]
fn sort_buffer_too_short_changes_nothing() {
    let mut state = state_with(b"AB");
    state.phash_to_index[5] = 9;
    state.sort_buffer(0, 1);
    assert_eq!(state.phash_to_index[5], 9);
    state.sort_buffer(3, 3);
    assert_eq!(state.phash_to_index[5], 9);
    state.sort_buffer(0, 2);
    assert_eq!(state.phash_to_index[5], 0);
    assert_eq!(state.phash_to_index[byte_pair_hash(b"AB")], 0);
    assert_eq!(state.phash_to_index[byte_pair_hash(b"AB") + 1], 1);
}

#[test]
fn hash_index_and_offset_lookup() {
    let mut state = state_with(b"ABCABC");
    state.sort_buffer(0, 6);
    // The first AB is at position 0.
    assert_eq!(state.get_hash_index(byte_pair_hash(b"AB")), Some(0));
    assert_eq!(state.get_hash_index(byte_pair_hash(b"AA")), None);
    assert_eq!(state.get_hash_index(2303), None);
    assert_eq!(state.get_hash_index(byte_pair_hash(b"BC")), Some(3));
    assert_eq!(state.get_hash_index(byte_pair_hash(b"CA")), Some(2));
    assert_eq!(state.get_hash_index(5000), None);
    assert_eq!(state.get_hash_offset(3), Some(1));
    assert_eq!(state.get_hash_offset(0), None);
    assert_eq!(state.get_hash_offset(100_000), None);
}

#[test]
fn hash_positions_search() {
    let mut state = state_with(b"ABCABC");
    state.sort_buffer(0, 6);
    let mut it = state.find_hash_positions(byte_pair_hash(b"BC"), 5);
    assert_eq!(it.next(), Some(1));
    assert_eq!(it.next(), Some(4));
    assert_eq!(it.next(), None);
    // Positions at or after the current one end the search.
    let mut it = state.find_hash_positions(byte_pair_hash(b"BC"), 4);
    assert_eq!(it.next(), Some(1));
    assert_eq!(it.next(), None);
    // A pair at position 0 is found too.
    let mut it = state.find_hash_positions(byte_pair_hash(b"AB"), 5);
    assert_eq!(it.next(), Some(0));
    assert_eq!(it.next(), Some(3));
    assert_eq!(it.next(), None);
    // A hash that no pair has searches nothing.
    let mut it = state.find_hash_positions(byte_pair_hash(b"ZZ"), 5);
    assert_eq!(it.next(), None);
}

#[test]
fn hash_positions_skip_too_far_back() {
    let mut state = state_with(b"");
    state.phash_to_index[7] = 0;
    state.phash_to_index[8] = 3;
    state.phash_offs[0] = 3;
    state.phash_offs[1] = 1500;
    state.phash_offs[2] = 1600;
    state.phash_offs[3] = 0;
    // Dictionary of 1024 bytes: from 2000, offsets below 976 are skipped.
    let mut it = state.find_hash_positions(7, 2000);
    assert_eq!(it.next(), Some(1500));
    assert_eq!(it.next(), Some(1600));
    assert_eq!(it.next(), None);
}

#[test]
fn update_hash_incremental_fills_first_empty_entry() {
    let mut state = state_with(b"ABCABC");
    state.sort_buffer(0, 6);
    state.update_hash_incremental(5);
    assert_eq!(state.phash_offs[0], 5);
    assert_eq!(&state.phash_offs[1..6], &[3, 2, 1, 4, 0]);
    state.update_hash_incremental(7);
    assert_eq!(state.phash_offs[5], 7);
    // A pair that does not fit into the work buffer is not recorded.
    state.update_hash_incremental(state.work_buff.len() - 1);
    assert_eq!(state.phash_offs[6], 0);
}

#[test]
fn validate_hash_table_checks_ranges() {
    let mut state = state_with(b"ABCABC");
    state.sort_buffer(0, 6);
    assert!(state.validate_hash_table(0, 6));
    assert!(!state.validate_hash_table(2, 6));
    assert!(!state.validate_hash_table(0, 4));
    state.phash_to_index[0] = 60000;
    assert!(!state.validate_hash_table(0, 6));
}

#[test]
fn new_state_tables() {
    let st = ImplodeState::new(CompressionMode::Binary, DictionarySize::Size4K).unwrap();
    assert_eq!(st.ctype, 0);
    assert_eq!((st.dsize_bits, st.dsize_mask, st.dsize_bytes), (6, 0x3F, 4096));
    assert_eq!(st.literal_bits.len(), 0x306);
    assert_eq!((st.literal_bits[0x41], st.literal_codes[0x41]), (9, 0x82));
    // Length 2: class 0, code 5 in three bits, after the repetition flag.
    assert_eq!((st.literal_bits[0x100], st.literal_codes[0x100]), (4, 0x0B));
    // The end marker: class 15 with all eight extra bits set.
    assert_eq!((st.literal_bits[0x305], st.literal_codes[0x305]), (16, 0xFF01));
    assert_eq!((st.dist_bits[0], st.dist_codes[0]), (2, 3));
    assert_eq!((st.dist_bits[63], st.dist_codes[63]), (8, 0));
    let st = ImplodeState::new(CompressionMode::ASCII, DictionarySize::Size1K).unwrap();
    assert_eq!(st.ctype, 1);
    assert_eq!((st.dsize_bits, st.dsize_mask, st.dsize_bytes), (4, 0x0F, 1024));
    assert_eq!((st.literal_bits[0], st.literal_codes[0]), (12, 0x0920));
    assert_eq!((st.literal_bits[b' ' as usize], st.literal_codes[b' ' as usize]), (5, 0x1E));
}

#[test]
fn find_repetition_finds_earlier_bytes() {
    let mut state = state_with(b"XABCDABCD");
    state.work_bytes = 9;
    state.sort_buffer(0, 9);
    let m = state.find_repetition(5);
    assert!(m.is_match());
    assert_eq!((m.length, m.distance), (4, 4));
    let m = state.find_repetition(2);
    assert!(!m.is_match());
    assert_eq!((m.length, m.distance), (0, 0));
}

#[test]
fn hash_positions_stay_in_their_block() {
    let mut state = state_with(b"ABCABC");
    state.sort_buffer(0, 6);
    // The entries of BC follow those of CA; the search for CA stops before.
    let mut it = state.find_hash_positions(byte_pair_hash(b"CA"), 5);
    assert_eq!(it.next(), Some(2));
    assert_eq!(it.next(), None);

    let mut state = state_with(b"BABZ");
    state.sort_buffer(0, 4);
    let mut it = state.find_hash_positions(590, 4);
    assert_eq!(it.next(), Some(1));
    assert_eq!(it.next(), None);
}

#[test]
fn test_sort_buffer_basic() {
    let mut state = ImplodeState::new(CompressionMode::Binary, DictionarySize::Size1K).unwrap();

    // Set up test data
    let test_data = b"ABCABC";
    let len = test_data.len().min(state.work_buff.len());
    state.work_buff[..len].copy_from_slice(&test_data[..len]);

    // Sort the buffer
    state.sort_buffer(0, len);

    // Verify hash table was built
    let hash_ab = byte_pair_hash(b"AB");
    assert!(state.get_hash_index(hash_ab).is_some());

    // Verify we can find positions
    let mut positions = state.find_hash_positions(hash_ab, len);
    let mut count = 0;
    while positions.next().is_some() {
        count += 1;
    }
    assert!(count != 0);
}

#[test]
fn test_hash_table_edge_cases() {
    let mut state = ImplodeState::new(CompressionMode::Binary, DictionarySize::Size1K).unwrap();

    // Test with empty buffer
    state.sort_buffer(0, 0);

    // Test with single byte
    state.work_buff[0] = b'A';
    state.sort_buffer(0, 1);

    // Test with two bytes
    state.work_buff[0] = b'A';
    state.work_buff[1] = b'B';
    state.sort_buffer(0, 2);

    let hash = byte_pair_hash(b"AB");
    assert!(state.get_hash_index(hash).is_some());
}

#[test]
fn sorting_twice_changes_nothing() {
    let mut state = state_with(b"the cat sat on the mat");
    state.sort_buffer(0, 22);
    let idx = state.phash_to_index.clone();
    let offs = state.phash_offs.clone();
    state.sort_buffer(0, 22);
    assert_eq!(state.phash_to_index, idx);
    assert_eq!(state.phash_offs, offs);
    assert!(state.validate_hash_table(0, 22));
}

#[test]
fn first_occurrence_is_found_after_sorting() {
    let mut state = state_with(b"QABCDBCE");
    state.sort_buffer(0, 8);
    // BC first starts at 2; its entry holds 2.
    let h = byte_pair_hash(b"BC");
    let i = state.get_hash_index(h).unwrap();
    assert_eq!(i, state.phash_to_index[h] as usize);
    assert_eq!(state.get_hash_offset(i), Some(2));
    assert_eq!(state.get_hash_offset(i + 1), Some(5));
}

#[test]
fn find_repetition_uses_position_zero() {
    let mut state = state_with(b"ABABAB");
    state.work_bytes = 6;
    state.sort_buffer(0, 6);
    let m = state.find_repetition(2);
    assert_eq!((m.length, m.distance), (4, 2));
}
