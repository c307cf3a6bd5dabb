use art::tree::Kind;
use art::Art;
use art::Cell;

fn key(byte: u8) -> Vec<u8> {
    vec![b'k', byte, b'!']
}

/// A tree with the keys `k<byte>!` for the first `n` bytes.
fn fan(n: usize) -> Art {
    let mut art = Art::new();
    for byte in 0..n {
        assert_eq!(art.insert(&key(byte as u8), byte as u64 + 1000), None);
    }
    art
}

#[test]
fn the_fifth_child_moves_a_node_to_the_second_class() {
    let mut art = Art::new();
    art.insert(b"hello", 42);
    art.insert(b"hella", 43);
    art.insert(b"helli", 44);
    assert_eq!(art.root().kind(), Kind::Inner4);
    art.insert(b"hellu", 45);
    assert_eq!(art.root().kind(), Kind::Inner4);
    assert_eq!(art.root().children_count(), 4);
    art.insert(b"hellyolo", 46);
    assert_eq!(art.root().kind(), Kind::Inner16);
    assert_eq!(art.root().children_count(), 5);
    assert_eq!(art.root().path(), b"hell");
    assert_eq!(art.get(b"hello"), Some(42));
    assert_eq!(art.get(b"hella"), Some(43));
    assert_eq!(art.get(b"helli"), Some(44));
    assert_eq!(art.get(b"hellu"), Some(45));
    assert_eq!(art.get(b"hellyolo"), Some(46));
}

#[test]
fn the_class_follows_the_children_count() {
    let bounds: [(usize, Kind); 10] = [
        (2, Kind::Inner4),
        (4, Kind::Inner4),
        (5, Kind::Inner16),
        (16, Kind::Inner16),
        (17, Kind::Inner48),
        (48, Kind::Inner48),
        (49, Kind::Inner256),
        (100, Kind::Inner256),
        (255, Kind::Inner256),
        (256, Kind::Inner256),
    ];
    for (n, kind) in bounds.iter() {
        let art = fan(*n);
        assert_eq!(art.root().kind(), *kind, "{} children", n);
        assert_eq!(art.root().children_count(), *n as u64);
        assert_eq!(art.root().path(), b"k");
        for byte in 0..*n {
            assert_eq!(art.get(&key(byte as u8)), Some(byte as u64 + 1000));
        }
        if *n < 256 {
            assert_eq!(art.get(&key(*n as u8)), None);
        }
    }
}

#[test]
fn the_largest_class_holds_every_byte_and_the_end() {
    let mut art = fan(256);
    assert_eq!(art.insert(b"k", 7), None);
    assert_eq!(art.root().kind(), Kind::Inner256);
    assert_eq!(art.root().children_count(), 257);
    assert_eq!(art.get(b"k"), Some(7));
    assert_eq!(art.root().child(Cell::End).unwrap().value(), Some(7));
    for byte in 0..=255u8 {
        assert_eq!(art.get(&key(byte)), Some(byte as u64 + 1000));
        assert_eq!(
            art.root().child(Cell::Byte(byte)).unwrap().path(),
            &[byte, b'!'][..]
        );
    }
    assert_eq!(art.insert(b"k", 8), Some(7));
    assert_eq!(art.root().children_count(), 257);
}

#[test]
fn the_end_selector_counts_towards_the_class() {
    let mut art = fan(4);
    art.insert(b"k", 1);
    assert_eq!(art.root().kind(), Kind::Inner16);
    assert_eq!(art.root().selector_at(0), Cell::End);
    assert_eq!(art.root().selector_at(1), Cell::Byte(0));
    assert_eq!(art.root().selector_at(4), Cell::Byte(3));
    assert_eq!(art.root().selector_at(5), Cell::Vacant);

    let mut art = fan(16);
    art.insert(b"k", 1);
    assert_eq!(art.root().kind(), Kind::Inner48);
    assert_eq!(art.get(b"k"), Some(1));

    let mut art = fan(48);
    art.insert(b"k", 1);
    assert_eq!(art.root().kind(), Kind::Inner256);
    assert_eq!(art.get(b"k"), Some(1));
    assert_eq!(art.insert(b"k", 2), Some(1));
}

#[test]
fn small_classes_keep_their_selectors_sorted() {
    let mut art = Art::new();
    for byte in [9u8, 3, 7, 1, 5, 8, 2, 6, 4, 0] {
        art.insert(&key(byte), byte as u64);
    }
    assert_eq!(art.root().kind(), Kind::Inner16);
    for slot in 0..10 {
        assert_eq!(art.root().selector_at(slot), Cell::Byte(slot as u8));
    }
    for slot in 10..16 {
        assert_eq!(art.root().selector_at(slot), Cell::Vacant);
    }
}

#[test]
fn large_classes_recurse_like_small_ones() {
    let mut art = fan(60);
    assert_eq!(art.insert(&[b'k', 7, b'!', b'x'], 1), None);
    assert_eq!(art.insert(&[b'k', 7, b'?'], 2), None);
    assert_eq!(art.insert(&[b'k', 7], 3), None);
    assert_eq!(art.root().kind(), Kind::Inner256);
    assert_eq!(art.root().children_count(), 60);
    let child = art.root().child(Cell::Byte(7)).unwrap();
    assert_eq!(child.path(), &[7u8][..]);
    assert_eq!(child.children_count(), 3);
    assert_eq!(art.get(&[b'k', 7, b'!']), Some(1007));
    assert_eq!(art.get(&[b'k', 7, b'!', b'x']), Some(1));
    assert_eq!(art.get(&[b'k', 7, b'?']), Some(2));
    assert_eq!(art.get(&[b'k', 7]), Some(3));

    let mut art = fan(20);
    assert_eq!(art.insert(&[b'k', 7, b'!', b'x'], 1), None);
    assert_eq!(art.root().kind(), Kind::Inner48);
    assert_eq!(art.insert(&[b'k', 7, b'!', b'x'], 5), Some(1));
    assert_eq!(art.get(&[b'k', 7, b'!', b'x']), Some(5));
    assert_eq!(art.get(&[b'k', 7, b'!']), Some(1007));
}
