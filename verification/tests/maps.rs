use enigma::atom::AtomTable;
use enigma::atom::{ERROR, OK};
use enigma::bif::maps::{
    find_2, from_list_1, get_2, is_key_2, keys_1, merge_2, put_3, remove_2, take_2, to_list_1,
    update_3, values_1,
};
use enigma::exception::Reason;
use enigma::process::Process;
use enigma::value::{Term, HAMT};
use enigma::vm::Machine;

fn str_to_atom(name: &str) -> Term {
    let mut table = AtomTable::new();
    for known in ["test", "test2", "test3", "fail"] {
        table.intern(known).unwrap();
    }
    Term::atom(table.intern(name).unwrap())
}

fn map(entries: Vec<(Term, Term)>) -> Term {
    let mut m = HAMT::new();
    for (key, value) in entries {
        m.insert(key, value);
    }
    Term::Hamt(m)
}

fn elements(list: &Term) -> Vec<Term> {
    let mut out = Vec::new();
    let mut cur = list;
    while let Term::Cons(cell) = cur {
        out.push(cell.head.clone());
        cur = &cell.tail;
    }
    out
}

#[test]
fn test_maps_find_2() {
    let vm = Machine::new(&[]);
    let process = Process::new(0);

    let key = str_to_atom("test");
    let map = map(vec![(key.clone(), Term::small(3))]);
    let args = vec![key, map];

    let res = find_2(&vm, &process, &args);

    if let Term::Tuple(tuple) = res.unwrap() {
        assert_eq!(tuple.len(), 2);
        let mut iter = tuple.iter();
        assert_eq!(iter.next(), Some(&Term::atom(OK)));
        assert_eq!(iter.next(), Some(&Term::small(3)));
    } else {
        panic!();
    }
}

#[test]
fn test_maps_find_2_error() {
    let vm = Machine::new(&[]);
    let process = Process::new(0);

    let key = str_to_atom("test");
    let map = map(vec![(key, Term::small(3))]);
    let args = vec![str_to_atom("fail"), map];

    let res = find_2(&vm, &process, &args);

    assert_eq!(res, Ok(Term::atom(ERROR)));
}

#[test]
fn test_maps_find_2_bad_map() {
    let vm = Machine::new(&[]);
    let process = Process::new(0);
    let args = vec![str_to_atom("fail"), str_to_atom("test")];

    if let Err(exception) = find_2(&vm, &process, &args) {
        assert_eq!(exception.reason, Reason::EXC_BADMAP);
        assert_eq!(exception.value, str_to_atom("test"));
    } else {
        panic!();
    }
}

#[test]
fn test_maps_get_2() {
    let vm = Machine::new(&[]);
    let process = Process::new(0);

    let map = map(vec![(str_to_atom("test"), Term::small(3))]);
    let args = vec![str_to_atom("test"), map];

    let res = get_2(&vm, &process, &args);

    assert_eq!(res, Ok(Term::small(3)));
}

#[test]
fn test_maps_get_2_bad_map() {
    let vm = Machine::new(&[]);
    let process = Process::new(0);
    let bad_map = Term::small(3);
    let args = vec![str_to_atom("test"), bad_map.clone()];

    if let Err(exception) = get_2(&vm, &process, &args) {
        assert_eq!(exception.reason, Reason::EXC_BADMAP);
        assert_eq!(exception.value, bad_map);
    } else {
        panic!();
    }
}

#[test]
fn test_maps_get_2_bad_key() {
    let vm = Machine::new(&[]);
    let process = Process::new(0);

    let map = map(vec![(str_to_atom("test"), Term::small(3))]);
    let args = vec![str_to_atom("fail"), map];

    if let Err(exception) = get_2(&vm, &process, &args) {
        assert_eq!(exception.reason, Reason::EXC_BADKEY);
        assert_eq!(exception.value, str_to_atom("fail"));
    } else {
        panic!();
    }
}

#[test]
fn test_maps_from_list_1() {
    let vm = Machine::new(&[]);
    let process = Process::new(0);

    let list = Term::cons(
        Term::tup2(str_to_atom("test"), Term::small(1)),
        Term::cons(Term::tup2(str_to_atom("test2"), Term::small(2)), Term::nil()),
    );
    let args = vec![list];
    let res = from_list_1(&vm, &process, &args);
    match res.unwrap() {
        Term::Hamt(m) => {
            assert_eq!(m.len(), 2);
            assert_eq!(m.get(&str_to_atom("test")), Some(&Term::small(1)));
            assert_eq!(m.get(&str_to_atom("test2")), Some(&Term::small(2)));
        }
        other => panic!("{:?}", other),
    }
}

#[test]
fn test_maps_from_list_1_not_map() {
    let vm = Machine::new(&[]);
    let process = Process::new(0);

    let bad_list = Term::small(1);
    let args = vec![bad_list];
    let res = from_list_1(&vm, &process, &args);

    if let Err(exception) = res {
        assert_eq!(exception.reason, Reason::EXC_BADARG);
    } else {
        panic!();
    }
}

#[test]
fn test_maps_from_list_1_bad_items() {
    let vm = Machine::new(&[]);
    let process = Process::new(0);

    let bad_tuple = Term::Tuple(vec![Term::small(1), Term::small(2), Term::small(3)]);
    let list = Term::cons(
        bad_tuple,
        Term::cons(Term::tup2(str_to_atom("test2"), Term::small(2)), Term::nil()),
    );
    let args = vec![list];
    let res = from_list_1(&vm, &process, &args);

    if let Err(exception) = res {
        assert_eq!(exception.reason, Reason::EXC_BADARG);
    } else {
        panic!();
    }
}

#[test]
fn test_maps_is_key_2() {
    let vm = Machine::new(&[]);
    let process = Process::new(0);

    let map = map(vec![(str_to_atom("test"), Term::small(1))]);
    let args = vec![str_to_atom("test"), map];

    let res = is_key_2(&vm, &process, &args);

    assert_eq!(res, Ok(Term::boolean(true)));
}

#[test]
fn test_maps_is_key_2_false() {
    let vm = Machine::new(&[]);
    let process = Process::new(0);

    let map = map(vec![(str_to_atom("test"), Term::small(3))]);
    let args = vec![str_to_atom("false"), map];

    let res = is_key_2(&vm, &process, &args);

    assert_eq!(res, Ok(Term::boolean(false)));
}

#[test]
fn test_maps_is_key_2_bad_map() {
    let vm = Machine::new(&[]);
    let process = Process::new(0);
    let bad_map = Term::small(3);
    let args = vec![str_to_atom("test"), bad_map.clone()];

    if let Err(exception) = is_key_2(&vm, &process, &args) {
        assert_eq!(exception.reason, Reason::EXC_BADMAP);
        assert_eq!(exception.value, bad_map);
    } else {
        panic!();
    }
}

#[test]
fn test_maps_keys_1() {
    let vm = Machine::new(&[]);
    let process = Process::new(0);

    let map = map(vec![
        (str_to_atom("test"), Term::small(1)),
        (str_to_atom("test2"), Term::small(2)),
    ]);
    let args = vec![map];

    let keys = elements(&keys_1(&vm, &process, &args).unwrap());
    assert!(keys.iter().any(|v| *v == str_to_atom("test")));
    assert!(keys.iter().any(|v| *v == str_to_atom("test2")));
    assert_eq!(keys.iter().count(), 2);
}

#[test]
fn test_maps_keys_1_bad_map() {
    let vm = Machine::new(&[]);
    let process = Process::new(0);
    let bad_map = Term::small(3);
    let args = vec![bad_map.clone(), str_to_atom("test")];

    if let Err(exception) = keys_1(&vm, &process, &args) {
        assert_eq!(exception.reason, Reason::EXC_BADMAP);
        assert_eq!(exception.value, bad_map);
    } else {
        panic!();
    }
}

#[test]
fn test_maps_merge_2() {
    let vm = Machine::new(&[]);
    let process = Process::new(0);

    let map1 = map(vec![
        (str_to_atom("test"), Term::small(1)),
        (str_to_atom("test2"), Term::small(2)),
    ]);
    let map2 = map(vec![
        (str_to_atom("test"), Term::small(3)),
        (str_to_atom("test3"), Term::small(4)),
    ]);
    let args = vec![map1, map2];

    let res = merge_2(&vm, &process, &args);
    if let Term::Hamt(map) = res.unwrap() {
        assert_eq!(map.len(), 3);
        assert_eq!(map.get(&str_to_atom("test")), Some(&Term::small(1)));
        assert_eq!(map.get(&str_to_atom("test2")), Some(&Term::small(2)));
        assert_eq!(map.get(&str_to_atom("test3")), Some(&Term::small(4)));
    } else {
        panic!();
    }
}

#[test]
fn test_maps_merge_2_bad_map() {
    let vm = Machine::new(&[]);
    let process = Process::new(0);

    let good = || {
        map(vec![
            (str_to_atom("test"), Term::small(1)),
            (str_to_atom("test2"), Term::small(2)),
        ])
    };
    let bad_map = Term::small(2);

    let args = vec![good(), bad_map.clone()];
    let res = merge_2(&vm, &process, &args);
    if let Err(exception) = res {
        assert_eq!(exception.reason, Reason::EXC_BADMAP);
        assert_eq!(exception.value, bad_map);
    } else {
        panic!();
    }

    let args = vec![bad_map.clone(), good()];
    let res = merge_2(&vm, &process, &args);
    if let Err(exception) = res {
        assert_eq!(exception.reason, Reason::EXC_BADMAP);
        assert_eq!(exception.value, bad_map);
    } else {
        panic!();
    }

    // Will return the first bad map
    let bad_map2 = Term::small(3);
    let args = vec![bad_map.clone(), bad_map2];
    let res = merge_2(&vm, &process, &args);
    if let Err(exception) = res {
        assert_eq!(exception.reason, Reason::EXC_BADMAP);
        assert_eq!(exception.value, bad_map);
    } else {
        panic!();
    }
}

#[test]
fn test_maps_put_3() {
    let vm = Machine::new(&[]);
    let process = Process::new(0);

    let key = str_to_atom("test");

    let value = Term::small(2);
    let map = HAMT::new();
    let args = vec![key.clone(), value.clone(), Term::Hamt(map)];

    let res = put_3(&vm, &process, &args);

    if let Term::Hamt(map) = res.unwrap() {
        assert_eq!(map.get(&key), Some(&value));
    } else {
        panic!();
    }
}

#[test]
fn test_maps_put_3_bad_map() {
    let vm = Machine::new(&[]);
    let process = Process::new(0);
    let key = str_to_atom("test");
    let value = Term::small(2);
    let bad_map = Term::small(3);
    let args = vec![key, value, bad_map.clone()];

    let res = put_3(&vm, &process, &args);

    if let Err(exception) = res {
        assert_eq!(exception.reason, Reason::EXC_BADMAP);
        assert_eq!(exception.value, bad_map);
    } else {
        panic!();
    }
}

#[test]
fn test_maps_remove_2() {
    let vm = Machine::new(&[]);
    let process = Process::new(0);

    let key = str_to_atom("test");
    let map = map(vec![(key.clone(), Term::small(1))]);
    let args = vec![key.clone(), map];

    let res = remove_2(&vm, &process, &args);

    if let Term::Hamt(map) = res.unwrap() {
        assert_eq!(map.get(&key).is_none(), true);
    } else {
        panic!();
    }
}

#[test]
fn test_maps_remove_2_bad_map() {
    let vm = Machine::new(&[]);
    let process = Process::new(0);
    let args = vec![Term::small(2), Term::small(1)];

    let res = remove_2(&vm, &process, &args);

    if let Err(exception) = res {
        assert_eq!(exception.reason, Reason::EXC_BADMAP);
        assert_eq!(exception.value, Term::small(1));
    } else {
        panic!();
    }
}

#[test]
fn test_maps_update_3() {
    let vm = Machine::new(&[]);
    let process = Process::new(0);

    let key = str_to_atom("test");
    let value = Term::small(1);
    let update_value = Term::small(2);
    let map = map(vec![(key.clone(), value)]);
    let args = vec![key.clone(), update_value.clone(), map];

    let res = update_3(&vm, &process, &args);

    if let Term::Hamt(map) = res.unwrap() {
        assert_eq!(map.get(&key), Some(&update_value));
    } else {
        panic!();
    }
}

#[test]
fn test_maps_update_3_bad_key() {
    let vm = Machine::new(&[]);
    let process = Process::new(0);

    let key = str_to_atom("test");
    let value = Term::small(2);
    let map = HAMT::new();
    let args = vec![key, value, Term::Hamt(map)];

    let res = update_3(&vm, &process, &args);

    if let Err(exception) = res {
        assert_eq!(exception.reason, Reason::EXC_BADKEY);
        assert_eq!(exception.value, str_to_atom("test"));
    } else {
        panic!();
    }
}

#[test]
fn test_maps_update_3_bad_map() {
    let vm = Machine::new(&[]);
    let process = Process::new(0);
    let key = str_to_atom("test");
    let value = Term::small(2);
    let bad_map = Term::small(3);
    let args = vec![key, value, bad_map.clone()];

    let res = update_3(&vm, &process, &args);

    if let Err(exception) = res {
        assert_eq!(exception.reason, Reason::EXC_BADMAP);
        assert_eq!(exception.value, bad_map);
    } else {
        panic!();
    }
}

#[test]
fn test_maps_values_1() {
    let vm = Machine::new(&[]);
    let process = Process::new(0);

    let map = map(vec![
        (str_to_atom("test"), Term::small(1)),
        (str_to_atom("test2"), Term::small(2)),
    ]);
    let args = vec![map];

    let values = elements(&values_1(&vm, &process, &args).unwrap());
    assert!(values.iter().any(|val| *val == Term::small(1)));
    assert!(values.iter().any(|val| *val == Term::small(2)));
    assert_eq!(values.iter().count(), 2);
}

#[test]
fn test_maps_values_1_bad_map() {
    let vm = Machine::new(&[]);
    let process = Process::new(0);
    let bad_map = Term::small(3);
    let args = vec![bad_map.clone()];

    if let Err(exception) = values_1(&vm, &process, &args) {
        assert_eq!(exception.reason, Reason::EXC_BADMAP);
        assert_eq!(exception.value, bad_map);
    } else {
        panic!();
    }
}

#[test]
fn test_maps_take_2() {
    let vm = Machine::new(&[]);
    let process = Process::new(0);

    let map = map(vec![
        (str_to_atom("test"), Term::small(1)),
        (str_to_atom("test2"), Term::small(2)),
    ]);
    let key = str_to_atom("test2");
    let args = vec![key, map];

    let res = take_2(&vm, &process, &args);
    if let Term::Tuple(tuple) = res.unwrap() {
        let mut iter = tuple.iter();
        assert_eq!(&Term::small(2), iter.next().unwrap());
        if let Term::Hamt(map) = iter.next().unwrap() {
            assert_eq!(map.len(), 1);
            assert_eq!(map.get(&str_to_atom("test")), Some(&Term::small(1)));
        } else {
            panic!();
        }
    } else {
        panic!();
    }
}

#[test]
fn test_maps_take_2_bad_map() {
    let vm = Machine::new(&[]);
    let process = Process::new(0);
    let bad_map = str_to_atom("test2");
    let key = str_to_atom("test2");
    let args = vec![key, bad_map.clone()];

    let res = take_2(&vm, &process, &args);
    if let Err(exception) = res {
        assert_eq!(exception.reason, Reason::EXC_BADMAP);
        assert_eq!(exception.value, bad_map);
    } else {
        panic!();
    }
}

#[test]
fn test_maps_take_2_bad_key() {
    let vm = Machine::new(&[]);
    let process = Process::new(0);

    let map = map(vec![
        (str_to_atom("test"), Term::small(1)),
        (str_to_atom("test2"), Term::small(2)),
    ]);
    let key = str_to_atom("test3");
    let args = vec![key, map];

    let res = take_2(&vm, &process, &args);
    if let Ok(value) = res {
        assert_eq!(value, str_to_atom("error"));
    } else {
        panic!();
    }
}

#[test]
fn maps_to_list_and_back() {
    let vm = Machine::new(&[]);
    let process = Process::new(0);
    let m = map(vec![
        (str_to_atom("test"), Term::small(1)),
        (Term::tup2(Term::small(1), Term::nil()), Term::small(2)),
        (Term::small(7), str_to_atom("test3")),
    ]);
    let list = to_list_1(&vm, &process, &[m.clone()]).unwrap();
    assert_eq!(elements(&list).len(), 3);
    let back = from_list_1(&vm, &process, &[list]).unwrap();
    match (m, back) {
        (Term::Hamt(a), Term::Hamt(b)) => {
            assert_eq!(a.len(), b.len());
            for (key, value) in a.iter() {
                assert_eq!(b.get(&key), Some(&value));
            }
        }
        _ => panic!(),
    }
}

#[test]
fn maps_merge_is_left_biased() {
    // maps:merge(#{a=>1,b=>2}, #{b=>3,c=>4}) is #{a=>1,b=>2,c=>4}
    let vm = Machine::new(&[]);
    let process = Process::new(0);
    let a = str_to_atom("test");
    let b = str_to_atom("test2");
    let c = str_to_atom("test3");
    let m1 = map(vec![(a.clone(), Term::small(1)), (b.clone(), Term::small(2))]);
    let m2 = map(vec![(b.clone(), Term::small(3)), (c.clone(), Term::small(4))]);
    match merge_2(&vm, &process, &[m1, m2]).unwrap() {
        Term::Hamt(m) => {
            assert_eq!(m.len(), 3);
            assert_eq!(m.get(&a), Some(&Term::small(1)));
            assert_eq!(m.get(&b), Some(&Term::small(2)));
            assert_eq!(m.get(&c), Some(&Term::small(4)));
        }
        other => panic!("{:?}", other),
    }
}

#[test]
fn maps_put_get_remove() {
    let mut m = HAMT::new();
    let k = Term::tup2(Term::small(1), str_to_atom("test"));
    m.insert(k.clone(), Term::small(5));
    assert_eq!(m.get(&k), Some(&Term::small(5)));
    assert!(m.contains_key(&k));
    m.insert(k.clone(), Term::small(6));
    assert_eq!(m.len(), 1);
    assert_eq!(m.get(&k), Some(&Term::small(6)));
    let updated = m.update(Term::small(0), Term::small(1));
    assert_eq!(updated.len(), 2);
    assert_eq!(m.len(), 1);
    let (value, rest) = updated.extract(&k).unwrap();
    assert_eq!(value, Term::small(6));
    assert_eq!(rest.len(), 1);
    assert!(updated.extract(&Term::small(9)).is_none());
    m.remove(&k);
    assert_eq!(m.get(&k), None);
    assert_eq!(m.len(), 0);
    // idempotent union of disjoint maps
    let left = map(vec![(Term::small(1), Term::small(1))]);
    let right = map(vec![(Term::small(2), Term::small(2))]);
    match (left, right) {
        (Term::Hamt(l), Term::Hamt(r)) => {
            let once = l.union(r.duplicate());
            assert_eq!(once.len(), 2);
            let twice = once.duplicate().union(r);
            assert_eq!(twice.len(), 2);
            assert_eq!(twice.keys().len(), 2);
            assert_eq!(twice.values().len(), 2);
        }
        _ => panic!(),
    }
}

#[test]
fn maps_values_come_once_for_every_key() {
    let vm = Machine::new(&[]);
    let process = Process::new(0);
    let m = map(vec![
        (Term::small(1), Term::atom(7)),
        (Term::small(2), Term::atom(7)),
        (Term::small(3), Term::atom(8)),
    ]);
    let values = elements(&values_1(&vm, &process, &[m]).unwrap());
    assert_eq!(values.len(), 3);
    assert_eq!(values.iter().filter(|v| **v == Term::atom(7)).count(), 2);
    assert_eq!(values.iter().filter(|v| **v == Term::atom(8)).count(), 1);
}

#[test]
fn maps_that_come_out_of_maps_are_maps() {
    let vm = Machine::new(&[]);
    let process = Process::new(0);
    let inner = map(vec![(Term::small(1), Term::small(10)), (Term::small(2), Term::small(20))]);
    let outer = map(vec![(Term::atom(OK), inner.clone())]);
    let got = get_2(&vm, &process, &[Term::atom(OK), outer.clone()]).unwrap();
    assert_eq!(got, inner);
    assert_eq!(get_2(&vm, &process, &[Term::small(2), got.clone()]), Ok(Term::small(20)));
    let more = put_3(&vm, &process, &[Term::small(3), Term::small(30), got]).unwrap();
    match &more {
        Term::Hamt(m) => assert_eq!(m.len(), 3),
        other => panic!("{:?}", other),
    }
    match find_2(&vm, &process, &[Term::atom(OK), outer.clone()]).unwrap() {
        Term::Tuple(pair) => assert_eq!(pair[1], inner),
        other => panic!("{:?}", other),
    }
    match take_2(&vm, &process, &[Term::atom(OK), outer]).unwrap() {
        Term::Tuple(pair) => {
            assert_eq!(pair[0], inner);
            assert_eq!(pair[1], Term::Hamt(HAMT::new()));
        }
        other => panic!("{:?}", other),
    }
}
