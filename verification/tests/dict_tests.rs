use wordle::dict::Trie;

#[test]
fn search_after_insert() {
    let mut t = Trie::new();
    t.insert(b"apple");
    t.insert(b"mango");
    assert!(t.search(b"apple"));
    assert!(t.search(b"mango"));
    assert!(!t.search(b"grape"));
    assert!(!t.search(b"appl"));
    assert!(!t.search(b"apples"));
    assert!(!t.search(b""));
}

#[test]
fn insert_is_idempotent() {
    let mut t = Trie::new();
    t.insert(b"apple");
    t.insert(b"apple");
    assert!(t.search(b"apple"));
    let words = t.get_all_words();
    assert_eq!(words, vec![b"apple".to_vec()]);
}

#[test]
fn prefixes_are_not_members() {
    let mut t = Trie::new();
    t.insert(b"apple");
    t.insert(b"app");
    assert!(t.search(b"app"));
    assert!(t.search(b"apple"));
    assert!(!t.search(b"ap"));
    assert!(!t.search(b"appl"));
}

#[test]
fn enumerate_is_insertion_order_independent() {
    let names: [&[u8]; 4] = [b"mango", b"apple", b"grape", b"peach"];
    let mut t1 = Trie::new();
    for w in names.iter() {
        t1.insert(w);
    }
    let mut t2 = Trie::new();
    for w in names.iter().rev() {
        t2.insert(w);
    }
    t2.insert(b"mango");
    let mut w1 = t1.get_all_words();
    let mut w2 = t2.get_all_words();
    w1.sort();
    w2.sort();
    assert_eq!(w1, w2);
    assert_eq!(
        w1,
        vec![
            b"apple".to_vec(),
            b"grape".to_vec(),
            b"mango".to_vec(),
            b"peach".to_vec()
        ]
    );
}

#[test]
fn enumerate_has_no_duplicates() {
    let mut t = Trie::new();
    t.insert(b"apple");
    t.insert(b"apple");
    t.insert(b"mango");
    t.insert(b"mango");
    let words = t.get_all_words();
    assert_eq!(words.len(), 2);
    for i in 0..words.len() {
        for j in (i + 1)..words.len() {
            assert_ne!(words[i], words[j]);
        }
    }
}

#[test]
fn enumerate_is_sorted() {
    let mut t = Trie::new();
    t.insert(b"mango");
    t.insert(b"app");
    t.insert(b"apple");
    let words = t.get_all_words();
    assert_eq!(
        words,
        vec![b"app".to_vec(), b"apple".to_vec(), b"mango".to_vec()]
    );
    for i in 1..words.len() {
        assert!(words[i - 1] < words[i]);
    }
}

#[test]
fn enumerate_empty_dictionary() {
    let t = Trie::new();
    assert!(t.get_all_words().is_empty());
}
