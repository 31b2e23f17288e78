use dictd::codec::MAX_BLOCK;
use dictd::store::{
    Block, CompressedMap, StoreError, DEFAULT_BLOCK_BYTES, DEFAULT_LEVEL, MAX_DEFINITION,
};

fn filled() -> CompressedMap {
    let mut m = CompressedMap::with_defaults();
    for (w, d) in [
        ("banana", "A long yellow fruit"),
        ("apple", "A round fruit"),
        ("apricot", "A small orange fruit"),
        ("Cherry", "A small red fruit"),
        ("application", "A program"),
        ("apply", "To put to use"),
    ] {
        m.insert(w.as_bytes(), d.as_bytes()).unwrap();
    }
    m
}

#[test]
fn defaults_of_the_map() {
    assert_eq!(DEFAULT_BLOCK_BYTES, 128 * 1024);
    assert_eq!(DEFAULT_LEVEL, 7);
    let m = CompressedMap::with_defaults();
    assert_eq!(m.len(), 0);
    assert!(!m.frozen());
    assert_eq!(m.get(b"apple"), None);
}

#[test]
fn what_is_inserted_is_found() {
    let m = filled();
    assert_eq!(m.len(), 6);
    assert_eq!(m.get(b"apple"), Some(b"A round fruit".to_vec()));
    assert_eq!(m.get(b"banana"), Some(b"A long yellow fruit".to_vec()));
    assert_eq!(m.get(b"apply"), Some(b"To put to use".to_vec()));
    assert_eq!(m.get(b"pear"), None);
    assert_eq!(m.get(b"app"), None);
    assert_eq!(m.get(b""), None);
    assert!(m.contains(b"apricot"));
    assert!(!m.contains(b"apric"));
}

#[test]
fn lookup_folds_ascii_case_on_both_sides() {
    let m = filled();
    assert_eq!(m.get(b"APPLE"), Some(b"A round fruit".to_vec()));
    assert_eq!(m.get(b"cherry"), Some(b"A small red fruit".to_vec()));
    assert_eq!(m.get(b"CHERRY"), Some(b"A small red fruit".to_vec()));
    assert!(m.contains(b"Cherry"));
}

#[test]
fn later_insert_replaces_the_earlier() {
    let mut m = filled();
    m.insert(b"apple", b"A fruit of the apple tree").unwrap();
    assert_eq!(m.get(b"apple"), Some(b"A fruit of the apple tree".to_vec()));
    assert_eq!(m.stored_word(b"Apple"), Some(b"apple".to_vec()));
    m.insert(b"APPLE", b"Shouted").unwrap();
    assert_eq!(m.get(b"apple"), Some(b"Shouted".to_vec()));
    assert_eq!(m.stored_word(b"apple"), Some(b"APPLE".to_vec()));
    assert_eq!(m.prefix_find(b"appl", 1), vec![b"APPLE".to_vec()]);
    assert_eq!(m.stored_word(b"pear"), None);
    assert_eq!(m.len(), 6);
}

#[test]
fn empty_words_and_definitions_are_stored() {
    let mut m = CompressedMap::with_defaults();
    m.insert(b"", b"nothing").unwrap();
    m.insert(b"void", b"").unwrap();
    assert_eq!(m.get(b""), Some(b"nothing".to_vec()));
    assert_eq!(m.get(b"void"), Some(Vec::new()));
    m.finalize().unwrap();
    assert_eq!(m.get(b""), Some(b"nothing".to_vec()));
    assert_eq!(m.get(b"void"), Some(Vec::new()));
}

#[test]
fn prefix_find_is_ascending_and_limited() {
    let m = filled();
    assert_eq!(
        m.prefix_find(b"app", 10),
        vec![b"apple".to_vec(), b"application".to_vec(), b"apply".to_vec()]
    );
    assert_eq!(m.prefix_find(b"app", 2), vec![b"apple".to_vec(), b"application".to_vec()]);
    assert_eq!(m.prefix_find(b"app", 1), vec![b"apple".to_vec()]);
    assert_eq!(m.prefix_find(b"app", 0), Vec::<Vec<u8>>::new());
    assert_eq!(m.prefix_find(b"AP", 10).len(), 4);
    assert_eq!(m.prefix_find(b"apple", 10), vec![b"apple".to_vec()]);
    assert_eq!(m.prefix_find(b"applesauce", 10), Vec::<Vec<u8>>::new());
    assert_eq!(m.prefix_find(b"c", 10), vec![b"Cherry".to_vec()]);
    assert_eq!(m.prefix_find(b"CHERRY", 10), vec![b"Cherry".to_vec()]);
    assert_eq!(m.prefix_find(b"z", 10), Vec::<Vec<u8>>::new());
    assert_eq!(m.prefix_find(b"", 100).len(), 6);
}

#[test]
fn every_prefix_match_begins_with_the_word() {
    let m = filled();
    for word in ["a", "Ap", "APP", "b", "ch", ""] {
        let folded = word.to_ascii_lowercase();
        let found = m.prefix_find(word.as_bytes(), 100);
        for head in &found {
            assert!(head.to_ascii_lowercase().starts_with(folded.as_bytes()));
        }
        let folded_found: Vec<Vec<u8>> = found.iter().map(|h| h.to_ascii_lowercase()).collect();
        let mut sorted = folded_found.clone();
        sorted.sort();
        sorted.dedup();
        assert_eq!(folded_found, sorted);
    }
}

#[test]
fn frozen_map_takes_no_entries() {
    let mut m = filled();
    assert_eq!(m.finalize(), Ok(()));
    assert!(m.frozen());
    assert_eq!(m.insert(b"pear", b"A fruit"), Err(StoreError::Frozen));
    assert_eq!(
        m.extend(&vec![(b"pear".to_vec(), b"A fruit".to_vec())]),
        Err(StoreError::Frozen)
    );
    assert_eq!(m.get(b"pear"), None);
    assert_eq!(m.get(b"apple"), Some(b"A round fruit".to_vec()));
    assert_eq!(m.len(), 6);
}

#[test]
fn finalizing_twice_changes_nothing() {
    let mut m = filled();
    assert_eq!(m.finalize(), Ok(()));
    assert_eq!(m.finalize(), Ok(()));
    assert!(m.frozen());
    assert_eq!(m.get(b"banana"), Some(b"A long yellow fruit".to_vec()));
    assert_eq!(m.prefix_find(b"app", 1), vec![b"apple".to_vec()]);
    let mut empty = CompressedMap::with_defaults();
    assert_eq!(empty.finalize(), Ok(()));
    assert_eq!(empty.finalize(), Ok(()));
    assert_eq!(empty.len(), 0);
}

#[test]
fn definitions_survive_many_small_blocks() {
    let mut m = CompressedMap::new(64, 3);
    let mut expected: Vec<(Vec<u8>, Vec<u8>)> = Vec::new();
    for i in 0..500u32 {
        let word = format!("word{:04}", (i * 7919) % 500).into_bytes();
        let definition = format!("definition number {} {}", i, "x".repeat((i % 90) as usize)).into_bytes();
        m.insert(&word, &definition).unwrap();
        expected.push((word, definition));
    }
    for (word, definition) in &expected {
        assert_eq!(m.get(word).as_ref(), Some(definition));
    }
    assert_eq!(m.finalize(), Ok(()));
    for (word, definition) in &expected {
        assert_eq!(m.get(word).as_ref(), Some(definition));
    }
    assert_eq!(m.len(), 500);
    assert_eq!(m.prefix_find(b"word049", 3), vec![b"word0490".to_vec(), b"word0491".to_vec(), b"word0492".to_vec()]);
}

#[test]
fn a_definition_larger_than_a_block_gets_a_block_of_its_own() {
    let mut m = CompressedMap::new(16, 1);
    let big = vec![b'z'; 10_000];
    m.insert(b"small", b"s").unwrap();
    m.insert(b"big", &big).unwrap();
    m.insert(b"tiny", b"t").unwrap();
    m.finalize().unwrap();
    assert_eq!(m.get(b"big"), Some(big));
    assert_eq!(m.get(b"small"), Some(b"s".to_vec()));
    assert_eq!(m.get(b"tiny"), Some(b"t".to_vec()));
}

#[test]
fn block_size_is_kept_within_bounds() {
    let mut m = CompressedMap::new(0, 0);
    m.insert(b"a", b"1").unwrap();
    m.insert(b"b", b"2").unwrap();
    m.finalize().unwrap();
    assert_eq!(m.get(b"a"), Some(b"1".to_vec()));
    assert_eq!(m.get(b"b"), Some(b"2".to_vec()));
    let mut n = CompressedMap::new(usize::MAX, 22);
    n.insert(b"a", b"1").unwrap();
    n.finalize().unwrap();
    assert_eq!(n.get(b"a"), Some(b"1".to_vec()));
}

#[test]
fn a_definition_beyond_the_compressor_is_kept_as_it_is() {
    assert_eq!(MAX_BLOCK, 128 * 1024 * 1024);
    assert_eq!(MAX_DEFINITION, usize::MAX - 8);
    let mut m = CompressedMap::with_defaults();
    let mut large = vec![b'a'; MAX_BLOCK];
    large[MAX_BLOCK / 2] = b'b';
    m.insert(b"before", b"1").unwrap();
    m.insert(b"Large", &large).unwrap();
    m.insert(b"after", b"2").unwrap();
    assert_eq!(m.finalize(), Ok(()));
    assert!(m.frozen());
    assert!(m.get(b"large").as_ref() == Some(&large));
    assert_eq!(m.get(b"before"), Some(b"1".to_vec()));
    assert_eq!(m.get(b"after"), Some(b"2".to_vec()));
    assert_eq!(m.finalize(), Ok(()));
    let kept = Block::close(large, None, 3);
    assert!(!kept.packed());
}

#[test]
fn extend_stores_a_batch_in_order() {
    let mut m = CompressedMap::with_defaults();
    let batch = vec![
        (b"one".to_vec(), b"1".to_vec()),
        (b"two".to_vec(), b"2".to_vec()),
        (b"ONE".to_vec(), b"uno".to_vec()),
    ];
    assert_eq!(m.extend(&batch), Ok(()));
    assert_eq!(m.len(), 2);
    assert_eq!(m.get(b"one"), Some(b"uno".to_vec()));
    assert_eq!(m.get(b"two"), Some(b"2".to_vec()));
    assert_eq!(m.extend(&Vec::new()), Ok(()));
    assert_eq!(m.len(), 2);
}

#[test]
fn a_block_without_a_frame() {
    let kept = Block::close(b"payload".to_vec(), None, 3);
    assert!(!kept.packed());
    match Block::pack(b"payload".to_vec(), None, 3) {
        Err(e) => assert_eq!(e, StoreError::Compression),
        Ok(_) => panic!("a block was packed without a frame"),
    }
}
