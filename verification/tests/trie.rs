use enigma::value::order::{encode_term, key_less, sequence_less};
use enigma::value::{hash_term, term_eq, Node, Term, HAMT};
use std::sync::Arc;

fn key(i: i32) -> Term {
    match i % 4 {
        0 => Term::small(i),
        1 => Term::tup2(Term::small(i), Term::atom(i as u32)),
        2 => Term::cons(Term::small(i), Term::nil()),
        _ => Term::Regex(format!("key {}", i)),
    }
}

#[test]
fn many_keys() {
    let mut m = HAMT::new();
    for i in 0..3000 {
        m.insert(key(i), Term::small(i));
        assert_eq!(m.len(), (i + 1) as usize);
    }
    for i in 0..3000 {
        assert_eq!(m.get(&key(i)), Some(&Term::small(i)), "{}", i);
        assert!(m.contains_key(&key(i)));
    }
    assert_eq!(m.get(&key(3000)), None);
    // a key again: the value changes, the size does not
    for i in 0..3000 {
        if i % 3 == 0 {
            m.insert(key(i), Term::small(-i));
        }
    }
    assert_eq!(m.len(), 3000);
    assert_eq!(m.get(&key(9)), Some(&Term::small(-9)));
    assert_eq!(m.get(&key(10)), Some(&Term::small(10)));
    let mut entries = m.iter();
    assert_eq!(entries.len(), 3000);
    entries.sort_by_key(|(_, v)| match v {
        Term::Int(i) => i.abs(),
        _ => panic!(),
    });
    for (i, (k, _)) in entries.iter().enumerate() {
        assert_eq!(*k, key(i as i32));
    }
    assert_eq!(m.keys().len(), 3000);
    assert_eq!(m.values().len(), 3000);
    for i in 0..3000 {
        if i % 2 == 0 {
            m.remove(&key(i));
        }
    }
    assert_eq!(m.len(), 1500);
    for i in 0..3000 {
        assert_eq!(m.contains_key(&key(i)), i % 2 == 1, "{}", i);
    }
    m.remove(&key(0));
    assert_eq!(m.len(), 1500);
}

#[test]
fn keys_of_one_hash_share_a_leaf() {
    // compiled patterns all have one hash
    let a = Term::Regex("a".to_string());
    let b = Term::Regex("b".to_string());
    let c = Term::Regex("c".to_string());
    assert_eq!(hash_term(&a), hash_term(&b));
    let mut m = HAMT::new();
    m.insert(a.clone(), Term::small(1));
    m.insert(b.clone(), Term::small(2));
    m.insert(c.clone(), Term::small(3));
    m.insert(Term::small(5), Term::small(4));
    assert_eq!(m.len(), 4);
    assert_eq!(m.get(&a), Some(&Term::small(1)));
    assert_eq!(m.get(&b), Some(&Term::small(2)));
    assert_eq!(m.get(&c), Some(&Term::small(3)));
    m.insert(b.clone(), Term::small(20));
    assert_eq!(m.len(), 4);
    assert_eq!(m.get(&b), Some(&Term::small(20)));
    m.remove(&a);
    assert_eq!(m.get(&a), None);
    assert_eq!(m.get(&c), Some(&Term::small(3)));
    assert_eq!(m.len(), 3);
    m.remove(&b);
    m.remove(&c);
    assert_eq!(m.len(), 1);
    assert_eq!(m.get(&Term::small(5)), Some(&Term::small(4)));
    // terms that are the same value have the same hash
    assert_eq!(hash_term(&key(5)), hash_term(&key(5).clone()));
    assert_ne!(hash_term(&Term::small(1)), hash_term(&Term::small(2)));
    assert_ne!(hash_term(&Term::small(1)), hash_term(&Term::atom(1)));
}

#[test]
fn maps_share_their_trie() {
    let mut m = HAMT::new();
    for i in 0..200 {
        m.insert(key(i), Term::small(i));
    }
    let copy = m.duplicate();
    match (&m.root, &copy.root) {
        (Some(a), Some(b)) => assert!(Arc::ptr_eq(a, b)),
        _ => panic!(),
    }
    let changed = m.update(key(7), Term::small(-7));
    assert_eq!(m.get(&key(7)), Some(&Term::small(7)));
    assert_eq!(copy.get(&key(7)), Some(&Term::small(7)));
    assert_eq!(changed.get(&key(7)), Some(&Term::small(-7)));
    assert_eq!(changed.len(), 200);
    // what does not lie on the way to the key is shared
    let parts = |m: &HAMT| match m.root.as_deref() {
        Some(Node::Branch { bitmap, children }) => (*bitmap, children.clone()),
        other => panic!("{:?}", other),
    };
    let (bits_before, before) = parts(&m);
    let (bits_after, after) = parts(&changed);
    assert_eq!(bits_before, bits_after);
    let mut shared = 0;
    let mut renewed = 0;
    for (a, b) in before.iter().zip(after.iter()) {
        if Arc::ptr_eq(a, b) {
            shared += 1;
        } else {
            renewed += 1;
        }
    }
    assert_eq!(renewed, 1);
    assert!(shared > 10);
    let (value, rest) = changed.extract(&key(7)).unwrap();
    assert_eq!(value, Term::small(-7));
    assert_eq!(rest.len(), 199);
    assert_eq!(changed.len(), 200);
    let term = Term::Hamt(m);
    assert_eq!(term.clone(), term);
}

#[test]
fn branches_keep_only_the_children_they_have() {
    let mut m = HAMT::new();
    m.insert(Term::small(1), Term::small(10));
    assert!(matches!(m.root.as_deref(), Some(Node::Leaf(_))));
    m.insert(Term::small(2), Term::small(20));
    m.insert(Term::small(3), Term::small(30));
    match m.root.as_deref() {
        Some(Node::Branch { bitmap, children }) => {
            assert_eq!(bitmap.count_ones() as usize, children.len());
            assert!(children.len() <= 3);
            // the children stand in the order of their slots
            let mut slots: Vec<u32> = Vec::new();
            for child in children.iter() {
                match &**child {
                    Node::Leaf(entries) => slots.push(hash_term(&entries[0].0) % 32),
                    Node::Branch { .. } => {}
                }
            }
            let mut sorted = slots.clone();
            sorted.sort();
            assert_eq!(slots, sorted);
            for s in slots {
                assert!(bitmap & (1 << s) != 0);
            }
        }
        other => panic!("{:?}", other),
    }
    assert_eq!(m.get(&Term::small(1)), Some(&Term::small(10)));
    assert_eq!(m.get(&Term::small(2)), Some(&Term::small(20)));
    assert_eq!(m.get(&Term::small(3)), Some(&Term::small(30)));
    assert_eq!(m.get(&Term::small(4)), None);
}

#[test]
fn removing_keys_leaves_no_trace() {
    let mut m = HAMT::new();
    m.insert(Term::small(1), Term::small(10));
    m.remove(&Term::small(2));
    assert_eq!(m.len(), 1);
    m.remove(&Term::small(1));
    assert_eq!(m.len(), 0);
    assert!(m.root.is_none());
    assert_eq!(Term::Hamt(m), Term::Hamt(HAMT::new()));

    let mut a = HAMT::new();
    for i in 0..500 {
        a.insert(key(i), Term::small(i));
    }
    let mut b = HAMT::new();
    for i in 0..1000 {
        b.insert(key(i), Term::small(i));
    }
    for i in 500..1000 {
        b.remove(&key(i));
        assert_eq!(b.len(), (1499 - i) as usize);
    }
    for i in 0..500 {
        assert_eq!(b.get(&key(i)), Some(&Term::small(i)));
    }
    assert_eq!(Term::Hamt(a.duplicate()), Term::Hamt(b));
    // down to one key, the trie is one leaf again
    for i in 1..500 {
        a.remove(&key(i));
    }
    assert!(matches!(a.root.as_deref(), Some(Node::Leaf(entries)) if entries.len() == 1));
    assert_eq!(a.get(&key(0)), Some(&Term::small(0)));
}

#[test]
fn maps_go_by_what_they_hold() {
    // a small integer and an atom with the same hash
    let a = Term::small(40);
    let b = Term::atom(9);
    assert_eq!(hash_term(&a), hash_term(&b));
    let mut one = HAMT::new();
    one.insert(a.clone(), Term::small(1));
    one.insert(b.clone(), Term::small(2));
    let mut other = HAMT::new();
    other.insert(b.clone(), Term::small(2));
    other.insert(a.clone(), Term::small(1));
    assert!(term_eq(&Term::Hamt(one.duplicate()), &Term::Hamt(other.duplicate())));
    assert_eq!(Term::Hamt(one.duplicate()), Term::Hamt(other.duplicate()));
    match one.root.as_deref() {
        Some(Node::Leaf(entries)) => {
            assert_eq!(entries.len(), 2);
            assert_eq!(entries[0].0, a);
            assert_eq!(entries[1].0, b);
        }
        node => panic!("{:?}", node),
    }

    // many keys of one hash, in any order
    let patterns: Vec<Term> = (0..40).map(|i| Term::Regex(format!("p{}", (i * 7) % 40))).collect();
    let mut forward = HAMT::new();
    let mut backward = HAMT::new();
    for (i, p) in patterns.iter().enumerate() {
        forward.insert(p.clone(), Term::small(i as i32));
    }
    for (i, p) in patterns.iter().enumerate().rev() {
        backward.insert(p.clone(), Term::small(i as i32));
    }
    backward.insert(Term::Regex("extra".to_string()), Term::nil());
    backward.remove(&Term::Regex("extra".to_string()));
    assert_eq!(Term::Hamt(forward.duplicate()), Term::Hamt(backward.duplicate()));
    // a map is a key like any other
    let mut outer = HAMT::new();
    outer.insert(Term::Hamt(forward), Term::small(1));
    assert_eq!(outer.get(&Term::Hamt(backward)), Some(&Term::small(1)));
    // maps of different size are different terms
    let mut more = one.duplicate();
    more.insert(Term::small(41), Term::nil());
    assert!(!term_eq(&Term::Hamt(one), &Term::Hamt(more)));
}

#[test]
fn terms_have_an_order() {
    let code = |t: &Term| {
        let mut out = vec![99];
        encode_term(t, &mut out);
        out
    };
    assert_eq!(code(&Term::nil()), vec![99, 0]);
    assert_eq!(code(&Term::small(-1)), vec![99, 1, 0x7fff_ffff]);
    assert_eq!(code(&Term::atom(5)), vec![99, 3, 5]);
    assert_eq!(
        code(&Term::tup2(Term::small(0), Term::atom(2))),
        vec![99, 7, 2, 1, 0x8000_0000, 3, 2]
    );
    assert_eq!(
        code(&Term::cons(Term::atom(1), Term::nil())),
        vec![99, 6, 3, 1, 0]
    );
    assert_eq!(code(&Term::Regex("ab".to_string())), vec![99, 12, 98, 99, 0]);
    assert_eq!(code(&Term::Hamt(HAMT::new())), vec![99, 8, 0, 0]);
    let mut m = HAMT::new();
    m.insert(Term::atom(1), Term::nil());
    assert_eq!(code(&Term::Hamt(m)), vec![99, 8, 1, 1, 1, 3, 1, 0]);

    assert!(sequence_less(&vec![], &vec![0]));
    assert!(!sequence_less(&vec![0], &vec![]));
    assert!(!sequence_less(&vec![1, 2], &vec![1, 2]));
    assert!(sequence_less(&vec![1, 2], &vec![1, 3]));
    assert!(sequence_less(&vec![1, 2], &vec![1, 2, 0]));
    assert!(!sequence_less(&vec![2], &vec![1, 9]));

    let terms = vec![
        Term::nil(),
        Term::small(-5),
        Term::small(7),
        Term::atom(0),
        Term::atom(3),
        Term::tup2(Term::nil(), Term::nil()),
    ];
    for (i, a) in terms.iter().enumerate() {
        for (j, b) in terms.iter().enumerate() {
            assert_eq!(key_less(a, b), i < j, "{} {}", i, j);
        }
    }
}
