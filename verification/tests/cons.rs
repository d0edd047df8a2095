use enigma::exception::Reason;
use enigma::value::cons::unicode_list_to_buf;
use enigma::value::{Cons, Term};

#[test]
fn test_from_iter() {
    let tup = Term::Tuple(vec![Term::small(1), Term::small(2), Term::small(3)]);
    let t = match &tup {
        Term::Tuple(t) => t,
        _ => panic!("wasn't a tuple"),
    };

    let res = Cons::from_iter(t.clone());
    let cons = match &res {
        Term::Cons(cons) => cons,
        _ => panic!("wasn't a cons"),
    };

    let mut iter = cons.iter();
    assert_eq!(Some(&Term::small(1)), iter.next());
    assert_eq!(Some(&Term::small(2)), iter.next());
    assert_eq!(Some(&Term::small(3)), iter.next());
    assert_eq!(None, iter.next());
}

#[test]
fn test_from_empty_iter() {
    let items = vec![];

    let res = Cons::from_iter(items);
    assert!(res.is_nil());
}

#[test]
fn test_unicode_list_to_buf() {
    // '関数に渡すことで'
    let codes = [38306, 25968, 12395, 28193, 12377, 12371, 12392, 12391];
    let list = Cons::from_iter(codes.iter().map(|c| Term::small(*c)).collect());
    let cons = match &list {
        Term::Cons(cons) => cons,
        _ => panic!("wasn't a cons"),
    };
    assert_eq!(unicode_list_to_buf(cons, 100), Ok("関数に渡すことで".to_string()));

    // a surrogate is no character
    let bad = Cons::from_iter(vec![Term::small(65), Term::small(0xD800)]);
    let cons = match &bad {
        Term::Cons(cons) => cons,
        _ => panic!("wasn't a cons"),
    };
    match unicode_list_to_buf(cons, 100) {
        Err(e) => assert_eq!(e.reason, Reason::EXC_BADARG),
        Ok(s) => panic!("{}", s),
    }
    let bad = Cons::from_iter(vec![Term::atom(1)]);
    let cons = match &bad {
        Term::Cons(cons) => cons,
        _ => panic!("wasn't a cons"),
    };
    assert!(unicode_list_to_buf(cons, 100).is_err());
}
