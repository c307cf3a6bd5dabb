use std::collections::BTreeMap;

use art::Art;

#[test]
fn an_empty_tree_has_no_entries() {
    let art = Art::new();
    assert_eq!(art.iterate(), vec![]);
}

#[test]
fn entries_come_in_ascending_order_with_the_shorter_key_first() {
    let mut art = Art::new();
    art.insert(b"world", 3);
    art.insert(b"hello", 1);
    art.insert(b"hell", 2);
    assert_eq!(
        art.iterate(),
        vec![
            (b"hell".to_vec(), 2),
            (b"hello".to_vec(), 1),
            (b"world".to_vec(), 3),
        ]
    );
}

#[test]
fn iterate_can_be_repeated_and_follows_the_tree() {
    let mut art = Art::new();
    art.insert(b"b", 2);
    art.insert(b"a", 1);
    let first = art.iterate();
    assert_eq!(first, art.iterate());
    assert_eq!(first, vec![(b"a".to_vec(), 1), (b"b".to_vec(), 2)]);
    art.insert(b"", 0);
    art.insert(b"b", 5);
    art.delete(b"a");
    assert_eq!(art.iterate(), vec![(b"".to_vec(), 0), (b"b".to_vec(), 5)]);
}

#[test]
fn every_class_is_walked_in_byte_order() {
    for n in [3usize, 10, 40, 200, 256] {
        let mut art = Art::new();
        // insert in an order that is not the byte order
        for i in 0..n {
            let byte = ((i * 97) % n) as u8;
            art.insert(&[b'p', byte, b'q'], byte as u64);
        }
        art.insert(b"p", 999);
        let mut want = vec![(b"p".to_vec(), 999u64)];
        for byte in 0..n {
            want.push((vec![b'p', byte as u8, b'q'], byte as u64));
        }
        assert_eq!(art.iterate(), want);
    }
}

/// A small generator of repeatable numbers.
fn next(state: &mut u64) -> u64 {
    *state = state
        .wrapping_mul(6364136223846793005)
        .wrapping_add(1442695040888963407);
    *state >> 33
}

fn random_key(state: &mut u64, alphabet: u64, longest: u64) -> Vec<u8> {
    let len = next(state) % (longest + 1);
    (0..len).map(|_| (next(state) % alphabet) as u8).collect()
}

#[test]
fn the_tree_agrees_with_an_ordered_map() {
    for (seed, alphabet, longest) in [(1u64, 2u64, 6u64), (2, 3, 5), (3, 60, 3), (4, 256, 2)] {
        let mut state = seed;
        let mut art = Art::new();
        let mut map: BTreeMap<Vec<u8>, u64> = BTreeMap::new();
        for step in 0..4000u64 {
            let key = random_key(&mut state, alphabet, longest);
            match next(&mut state) % 4 {
                0 | 1 => assert_eq!(art.insert(&key, step), map.insert(key, step)),
                2 => assert_eq!(art.delete(&key), map.remove(&key)),
                _ => assert_eq!(art.get(&key), map.get(&key).copied()),
            }
            if step % 500 == 0 {
                let want: Vec<(Vec<u8>, u64)> =
                    map.iter().map(|(k, v)| (k.clone(), *v)).collect();
                assert_eq!(art.iterate(), want);
            }
        }
        let want: Vec<(Vec<u8>, u64)> = map.iter().map(|(k, v)| (k.clone(), *v)).collect();
        assert_eq!(art.iterate(), want);
        for (key, value) in want.iter() {
            assert_eq!(art.get(key), Some(*value));
            assert_eq!(art.delete(key), Some(*value));
        }
        assert_eq!(art.iterate(), vec![]);
    }
}
