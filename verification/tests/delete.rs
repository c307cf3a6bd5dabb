use art::tree::Kind;
use art::Art;
use art::Cell;
use art::Node;

/// The structure below a node, written out: class, children count, path,
/// value, and each child under its selector.
fn outline(node: &Node, out: &mut String) {
    out.push_str(&format!(
        "{:?} {} {:?} {:?} [",
        node.kind(),
        node.children_count(),
        node.path(),
        node.value()
    ));
    for rank in 0..=256u16 {
        let cell = Cell::from_rank(rank);
        if let Some(child) = node.child(cell) {
            out.push_str(&format!("{:?} => ", cell));
            outline(child, out);
            out.push_str(", ");
        }
    }
    out.push(']');
}

fn structure(art: &Art) -> String {
    let mut out = String::new();
    outline(art.root(), &mut out);
    out
}

fn key(byte: u8) -> Vec<u8> {
    vec![b'k', byte, b'!']
}

fn fan(n: usize) -> Art {
    let mut art = Art::new();
    for byte in 0..n {
        art.insert(&key(byte as u8), byte as u64 + 1000);
    }
    art
}

#[test]
fn delete_on_an_empty_tree_finds_nothing() {
    let mut art = Art::new();
    assert_eq!(art.delete(b"hello"), None);
    assert_eq!(art.delete(b""), None);
    assert_eq!(art.root().kind(), Kind::Empty);
}

#[test]
fn delete_returns_the_value_and_forgets_the_key() {
    let mut art = Art::new();
    art.insert(b"hello", 42);
    art.insert(b"hella", 43);
    art.insert(b"hey", 44);
    assert_eq!(art.delete(b"hella"), Some(43));
    assert_eq!(art.get(b"hella"), None);
    assert_eq!(art.get(b"hello"), Some(42));
    assert_eq!(art.get(b"hey"), Some(44));
    assert_eq!(art.delete(b"hella"), None);
    assert_eq!(art.delete(b"he"), None);
    assert_eq!(art.delete(b"hello!"), None);
    assert_eq!(art.delete(b"world"), None);
    assert_eq!(art.get(b"hello"), Some(42));
    assert_eq!(art.get(b"hey"), Some(44));
}

#[test]
fn deleting_a_key_that_is_not_there_changes_nothing() {
    let mut art = Art::new();
    for (i, key) in [&b"hello"[..], b"hella", b"hey", b"", b"h"].iter().enumerate() {
        art.insert(key, i as u64);
    }
    let before = structure(&art);
    for key in [&b"he"[..], b"hell", b"hello!", b"x", b"hex", b"heyy"] {
        assert_eq!(art.delete(key), None);
        assert_eq!(structure(&art), before);
    }
}

#[test]
fn deleting_the_last_key_empties_the_root() {
    let mut art = Art::new();
    art.insert(b"hello", 42);
    assert_eq!(art.delete(b"hello"), Some(42));
    assert_eq!(art.root().kind(), Kind::Empty);
    assert_eq!(art.root().children_count(), 0);
    assert_eq!(art.root().path(), b"");
    assert_eq!(art.iterate(), vec![]);

    art.insert(b"a", 1);
    art.insert(b"b", 2);
    assert_eq!(art.delete(b"a"), Some(1));
    assert_eq!(art.delete(b"b"), Some(2));
    assert_eq!(art.root().kind(), Kind::Empty);
    assert_eq!(structure(&art), structure(&Art::new()));
}

#[test]
fn a_single_child_under_a_byte_is_merged_into_its_parent() {
    let mut art = Art::new();
    art.insert(b"hello", 42);
    art.insert(b"hella", 43);
    art.insert(b"hey", 44);
    assert_eq!(art.delete(b"hey"), Some(44));
    assert_eq!(art.root().path(), b"hell");
    assert_eq!(art.root().kind(), Kind::Inner4);
    assert_eq!(art.root().children_count(), 2);
    assert_eq!(art.delete(b"hello"), Some(42));
    assert_eq!(art.root().path(), b"hella");
    assert_eq!(art.root().kind(), Kind::Leaf);
    assert_eq!(art.root().value(), Some(43));
    assert_eq!(art.root().children_count(), 1);
}

#[test]
fn a_single_child_under_the_end_selector_stays() {
    let mut art = Art::new();
    art.insert(b"hell", 43);
    art.insert(b"hello", 42);
    assert_eq!(art.delete(b"hello"), Some(42));
    assert_eq!(art.root().kind(), Kind::Inner4);
    assert_eq!(art.root().children_count(), 1);
    assert_eq!(art.root().path(), b"hell");
    assert_eq!(art.root().selector_at(0), Cell::End);
    assert_eq!(art.root().selector_at(1), Cell::Vacant);
    assert_eq!(art.root().child(Cell::End).unwrap().value(), Some(43));
    assert_eq!(art.get(b"hell"), Some(43));
    assert_eq!(art.get(b"hello"), None);
    assert_eq!(art.iterate(), vec![(b"hell".to_vec(), 43)]);
    assert_eq!(art.delete(b"hell"), Some(43));
    assert_eq!(art.root().kind(), Kind::Empty);
}

#[test]
fn deleting_under_the_end_selector_merges_what_is_left() {
    let mut art = Art::new();
    art.insert(b"hello", 42);
    art.insert(b"hell", 43);
    assert_eq!(art.delete(b"hell"), Some(43));
    assert_eq!(art.root().kind(), Kind::Leaf);
    assert_eq!(art.root().path(), b"hello");
    assert_eq!(art.root().value(), Some(42));
}

#[test]
fn an_inner_child_that_is_alone_takes_its_parents_path() {
    let mut art = Art::new();
    art.insert(b"abcx1", 1);
    art.insert(b"abcx2", 2);
    art.insert(b"abd", 3);
    assert_eq!(art.root().path(), b"ab");
    assert_eq!(art.delete(b"abd"), Some(3));
    assert_eq!(art.root().path(), b"abcx");
    assert_eq!(art.root().kind(), Kind::Inner4);
    assert_eq!(art.root().children_count(), 2);
    assert_eq!(art.get(b"abcx1"), Some(1));
    assert_eq!(art.get(b"abcx2"), Some(2));
}

#[test]
fn the_class_shrinks_with_the_children_count() {
    let mut art = fan(256);
    art.insert(b"k", 1);
    assert_eq!(art.root().children_count(), 257);
    let mut left = 257u64;
    for byte in (0..=255u8).rev() {
        assert_eq!(art.delete(&key(byte)), Some(byte as u64 + 1000));
        left -= 1;
        assert_eq!(art.root().children_count(), left);
        let kind = if left <= 4 {
            Kind::Inner4
        } else if left <= 16 {
            Kind::Inner16
        } else if left <= 48 {
            Kind::Inner48
        } else {
            Kind::Inner256
        };
        assert_eq!(art.root().kind(), kind, "{} children", left);
        assert_eq!(art.get(&key(byte)), None);
        assert_eq!(art.get(b"k"), Some(1));
        if byte > 0 {
            assert_eq!(art.get(&key(byte - 1)), Some(byte as u64 - 1 + 1000));
        }
    }
    assert_eq!(art.root().children_count(), 1);
    assert_eq!(art.root().kind(), Kind::Inner4);
    assert_eq!(art.delete(b"k"), Some(1));
    assert_eq!(art.root().kind(), Kind::Empty);
}

#[test]
fn deleting_from_the_middle_of_a_large_class_keeps_the_rest() {
    for n in [17usize, 30, 48, 49, 80] {
        let mut art = fan(n);
        for byte in (0..n).step_by(3) {
            assert_eq!(art.delete(&key(byte as u8)), Some(byte as u64 + 1000));
        }
        for byte in 0..n {
            let want = if byte % 3 == 0 { None } else { Some(byte as u64 + 1000) };
            assert_eq!(art.get(&key(byte as u8)), want);
        }
        for byte in (0..n).step_by(3) {
            assert_eq!(art.insert(&key(byte as u8), 5), None);
        }
        assert_eq!(art.root().children_count(), n as u64);
        for byte in 0..n {
            let want = if byte % 3 == 0 { 5 } else { byte as u64 + 1000 };
            assert_eq!(art.get(&key(byte as u8)), Some(want));
        }
    }
}

#[test]
fn delete_right_after_insert_restores_the_structure() {
    let bases: Vec<Vec<&[u8]>> = vec![
        vec![],
        vec![b"hello"],
        vec![b"hello", b"world"],
        vec![b"hello", b"hella", b"helli", b"hellu"],
        vec![b"hello", b"hell"],
        vec![b"hello", b"hella", b"hey"],
        vec![b"", b"a", b"ab", b"abc"],
    ];
    let fresh: Vec<&[u8]> = vec![
        b"help", b"h", b"hexagon", b"x", b"hellx", b"helloo", b"he", b"hel", b"abcd", b"b",
    ];
    for base in bases.iter() {
        for key in fresh.iter() {
            let mut art = Art::new();
            for (i, k) in base.iter().enumerate() {
                art.insert(k, i as u64);
            }
            if art.get(key).is_some() {
                continue;
            }
            // a key that runs on behind a leaf turns the leaf into a
            // dispatch node, which stays when the key is deleted again
            let behind_a_leaf = base
                .iter()
                .any(|k| key.starts_with(k) && !base.iter().any(|o| o.len() > k.len() && o.starts_with(k)));
            let before = structure(&art);
            assert_eq!(art.insert(key, 99), None);
            assert_ne!(structure(&art), before);
            assert_eq!(art.delete(key), Some(99));
            if behind_a_leaf {
                assert_ne!(structure(&art), before, "{:?} + {:?}", base, key);
            } else {
                assert_eq!(structure(&art), before, "{:?} + {:?}", base, key);
            }
            for (i, k) in base.iter().enumerate() {
                assert_eq!(art.get(k), Some(i as u64));
            }
        }
    }
}

#[test]
fn delete_right_after_insert_restores_the_class() {
    for n in [4usize, 16, 48] {
        let mut art = fan(n);
        let before = structure(&art);
        let kind = art.root().kind();
        assert_eq!(art.insert(&key(200), 1), None);
        assert_ne!(art.root().kind(), kind);
        assert_eq!(art.delete(&key(200)), Some(1));
        assert_eq!(art.root().kind(), kind);
        assert_eq!(structure(&art), before);

        assert_eq!(art.insert(b"k", 1), None);
        assert_ne!(art.root().kind(), kind);
        assert_eq!(art.delete(b"k"), Some(1));
        assert_eq!(structure(&art), before);
    }
}
