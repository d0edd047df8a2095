use enigma::atom::{GLOBAL, NOMATCH, SCOPE, TRIM, TRIM_ALL};
use enigma::bif::binary::{
    compile_pattern_1, copy, copy_1, copy_2, first_1, last_1, longest_common_prefix,
    longest_common_prefix_1, match_2, match_3, match_term, matches_2, matches_3, matches_term,
    part, part_2, part_3, split_2, split_3, split_at_matches, split_binary_2, to_bytes,
    RealBinary, SearchOptions,
};
use enigma::bitstring::{Binary, RcBinary, SubBinary};
use enigma::exception::Reason;
use enigma::process::Process;
use enigma::value::{Cons, Term};
use enigma::vm::Machine;

fn setup(bytes: &[u8]) -> (Machine, Process, Term) {
    let vm = Machine::new(&[]);
    let mut process = Process::new(0);
    let rc = process.context.binaries.add(Binary::from(bytes.to_vec()));
    (vm, process, Term::Binary(rc))
}

fn bin(process: &mut Process, bytes: &[u8]) -> Term {
    Term::Binary(process.context.binaries.add(Binary::from(bytes.to_vec())))
}

fn items(list: &Term) -> Vec<Term> {
    let mut out = Vec::new();
    let mut cur = list;
    while let Term::Cons(cell) = cur {
        out.push(cell.head.clone());
        cur = &cell.tail;
    }
    assert_eq!(cur, &Term::Nil);
    out
}

fn texts(process: &Process, list: &Term) -> Vec<Vec<u8>> {
    items(list)
        .iter()
        .map(|t| to_bytes(t, &process.context.binaries).unwrap())
        .collect()
}

fn list(terms: Vec<Term>) -> Term {
    Cons::from_iter(terms)
}

fn is_badarg(r: Result<Term, enigma::exception::Exception>) -> bool {
    match r {
        Err(e) => e.reason == Reason::EXC_BADARG,
        Ok(_) => false,
    }
}

#[test]
fn split_binary_scenario() {
    let (vm, process, source) = setup(&[1, 2, 3, 4, 5]);
    let res = split_binary_2(&vm, &process, &[source.clone(), Term::small(2)]).unwrap();
    let parts = match res {
        Term::Tuple(parts) => parts,
        other => panic!("{:?}", other),
    };
    assert_eq!(parts.len(), 2);
    assert_eq!(to_bytes(&parts[0], &process.context.binaries), Some(vec![1, 2]));
    assert_eq!(to_bytes(&parts[1], &process.context.binaries), Some(vec![3, 4, 5]));
    // both results alias the source
    for part in parts.iter() {
        match part {
            Term::SubBinary(sb) => {
                assert_eq!(sb.original, RcBinary(0));
                assert!(!sb.is_writable);
            }
            other => panic!("{:?}", other),
        }
    }
    // the source is unchanged
    assert_eq!(to_bytes(&source, &process.context.binaries), Some(vec![1, 2, 3, 4, 5]));
    assert_eq!(process.context.binaries.bins.len(), 1);
}

#[test]
fn split_binary_edges_and_errors() {
    let (vm, process, source) = setup(&[1, 2, 3]);
    let whole = split_binary_2(&vm, &process, &[source.clone(), Term::small(3)]).unwrap();
    match whole {
        Term::Tuple(parts) => {
            assert_eq!(to_bytes(&parts[0], &process.context.binaries), Some(vec![1, 2, 3]));
            assert_eq!(to_bytes(&parts[1], &process.context.binaries), Some(vec![]));
        }
        other => panic!("{:?}", other),
    }
    assert!(is_badarg(split_binary_2(&vm, &process, &[source.clone(), Term::small(4)])));
    assert!(is_badarg(split_binary_2(&vm, &process, &[source.clone(), Term::small(-1)])));
    assert!(is_badarg(split_binary_2(&vm, &process, &[source, Term::atom(1)])));
    assert!(is_badarg(split_binary_2(&vm, &process, &[Term::small(1), Term::small(0)])));
    // the bits beyond the whole bytes go to the suffix
    let bits = Term::SubBinary(SubBinary::new(RcBinary(0), 19, 0, false));
    match split_binary_2(&vm, &process, &[bits.clone(), Term::small(1)]).unwrap() {
        Term::Tuple(parts) => match (&parts[0], &parts[1]) {
            (Term::SubBinary(a), Term::SubBinary(b)) => {
                assert_eq!((a.offset, a.size, a.bitsize), (0, 1, 0));
                assert_eq!((b.offset, b.size, b.bitsize), (1, 1, 3));
            }
            other => panic!("{:?}", other),
        },
        other => panic!("{:?}", other),
    }
    assert!(is_badarg(split_binary_2(&vm, &process, &[bits, Term::small(3)])));
    // a sub-binary with a bit offset keeps it
    let sub = Term::SubBinary(SubBinary::new(RcBinary(0), 16, 4, false));
    match split_binary_2(&vm, &process, &[sub, Term::small(1)]).unwrap() {
        Term::Tuple(parts) => {
            assert_eq!(to_bytes(&parts[0], &process.context.binaries), Some(vec![0x10]));
            assert_eq!(to_bytes(&parts[1], &process.context.binaries), Some(vec![0x20]));
        }
        other => panic!("{:?}", other),
    }
}

#[test]
fn part_scenario() {
    let (vm, process, hello) = setup(b"hello");
    let pair = |a: i32, b: i32| Term::tup2(Term::small(a), Term::small(b));
    let got = part_2(&vm, &process, &[hello.clone(), pair(1, 3)]).unwrap();
    assert_eq!(to_bytes(&got, &process.context.binaries), Some(b"ell".to_vec()));
    let got = part_2(&vm, &process, &[hello.clone(), pair(4, -2)]).unwrap();
    assert_eq!(to_bytes(&got, &process.context.binaries), Some(b"ll".to_vec()));
    assert!(is_badarg(part_2(&vm, &process, &[hello.clone(), pair(0, 6)])));
    assert!(is_badarg(part_2(&vm, &process, &[hello.clone(), pair(-1, 1)])));
    assert!(is_badarg(part_2(&vm, &process, &[hello.clone(), pair(1, -2)])));
    assert!(is_badarg(part_2(&vm, &process, &[hello.clone(), Term::small(1)])));
    assert!(is_badarg(part_2(
        &vm,
        &process,
        &[hello.clone(), Term::Tuple(vec![Term::small(1)])]
    )));
    let got = part_3(&vm, &process, &[hello.clone(), Term::small(5), Term::small(0)]).unwrap();
    assert_eq!(to_bytes(&got, &process.context.binaries), Some(vec![]));
    let got = part_3(&vm, &process, &[hello.clone(), Term::small(5), Term::small(-5)]).unwrap();
    assert_eq!(to_bytes(&got, &process.context.binaries), Some(b"hello".to_vec()));
    assert!(is_badarg(part_3(&vm, &process, &[hello.clone(), Term::small(6), Term::small(0)])));
    assert!(is_badarg(part_3(&vm, &process, &[hello.clone(), Term::atom(1), Term::small(0)])));
    assert!(is_badarg(part_3(&vm, &process, &[Term::nil(), Term::small(0), Term::small(0)])));
    let sb = part(&hello, &process.context.binaries, 2, 2).unwrap();
    assert_eq!((sb.offset, sb.size, sb.bitsize, sb.bit_offset), (2, 2, 0, 0));
    assert!(part(&hello, &process.context.binaries, 2, isize::MIN).is_err());
}

#[test]
fn split_scenario() {
    let (vm, mut process, subject) = setup(b"a,b,,c");
    let comma = bin(&mut process, b",");
    let options = list(vec![Term::atom(GLOBAL)]);
    let res = split_3(&vm, &process, &[subject.clone(), comma.clone(), options]).unwrap();
    assert_eq!(
        texts(&process, &res),
        vec![b"a".to_vec(), b"b".to_vec(), b"".to_vec(), b"c".to_vec()]
    );
    // the parts alias the subject
    for part in items(&res) {
        match part {
            Term::SubBinary(sb) => assert_eq!(sb.original, RcBinary(0)),
            other => panic!("{:?}", other),
        }
    }
    // the parts with the pattern between them are the subject again
    let (vm2, mut process2, ends) = setup(b"a,");
    let comma2 = bin(&mut process2, b",");
    let res = split_3(&vm2, &process2, &[ends, comma2, list(vec![Term::atom(GLOBAL)])]).unwrap();
    assert_eq!(texts(&process2, &res), vec![b"a".to_vec(), b"".to_vec()]);
    // without global, only the first match splits
    let res = split_2(&vm, &process, &[subject.clone(), comma.clone()]).unwrap();
    assert_eq!(texts(&process, &res), vec![b"a".to_vec(), b"b,,c".to_vec()]);
    // no match: the subject as it is
    let dash = bin(&mut process, b"-");
    let res = split_2(&vm, &process, &[subject.clone(), dash]).unwrap();
    assert_eq!(texts(&process, &res), vec![b"a,b,,c".to_vec()]);
}

#[test]
fn split_options() {
    let (vm, mut process, subject) = setup(b",a,,b,,");
    let comma = bin(&mut process, b",");
    let run = |process: &Process, options: Vec<Term>| {
        let res = split_3(&vm, process, &[subject.clone(), comma.clone(), list(options)]).unwrap();
        texts(process, &res)
    };
    let text = |parts: &[&str]| parts.iter().map(|p| p.as_bytes().to_vec()).collect::<Vec<_>>();
    // every part is kept, the empty one after the last match too
    assert_eq!(run(&process, vec![Term::atom(GLOBAL)]), text(&["", "a", "", "b", "", ""]));
    assert_eq!(
        run(&process, vec![Term::atom(GLOBAL), Term::atom(TRIM)]),
        text(&["", "a", "", "b"])
    );
    assert_eq!(
        run(&process, vec![Term::atom(GLOBAL), Term::atom(TRIM_ALL)]),
        text(&["a", "b"])
    );
    assert_eq!(run(&process, vec![Term::atom(TRIM_ALL)]), text(&["a,,b,,"]));
    let scope = |a: i32, b: i32| {
        Term::tup2(Term::atom(SCOPE), Term::tup2(Term::small(a), Term::small(b)))
    };
    assert_eq!(run(&process, vec![scope(2, 3)]), text(&[",a", ",b,,"]));
    assert_eq!(
        run(&process, vec![Term::atom(GLOBAL), scope(5, -3)]),
        text(&[",a", "", "b,,"])
    );
    // bad options
    let bad = |options: Term| {
        is_badarg(split_3(&vm, &process, &[subject.clone(), comma.clone(), options]))
    };
    assert!(bad(list(vec![Term::atom(NOMATCH)])));
    assert!(bad(list(vec![scope(0, 8)])));
    assert!(bad(list(vec![Term::tup2(Term::atom(GLOBAL), Term::small(1))])));
    assert!(bad(Term::atom(GLOBAL)));
    assert!(bad(Term::cons(Term::atom(GLOBAL), Term::atom(GLOBAL))));
    // bad subject and pattern
    assert!(is_badarg(split_2(&vm, &process, &[Term::small(1), comma.clone()])));
    assert!(is_badarg(split_2(&vm, &process, &[subject.clone(), Term::small(1)])));
    assert!(is_badarg(split_2(&vm, &process, &[subject.clone(), list(vec![Term::small(1)])])));
}

#[test]
fn patterns_are_taken_literally() {
    let (vm, mut process, subject) = setup(b"a.b*c|d");
    let dot = bin(&mut process, b".");
    let res = split_3(&vm, &process, &[subject.clone(), dot, list(vec![Term::atom(GLOBAL)])])
        .unwrap();
    assert_eq!(texts(&process, &res), vec![b"a".to_vec(), b"b*c|d".to_vec()]);
    let star = bin(&mut process, b"*");
    let bar = bin(&mut process, b"|");
    let alternatives = list(vec![star, bar]);
    let res = split_3(
        &vm,
        &process,
        &[subject.clone(), alternatives.clone(), list(vec![Term::atom(GLOBAL)])],
    )
    .unwrap();
    assert_eq!(
        texts(&process, &res),
        vec![b"a.b".to_vec(), b"c".to_vec(), b"d".to_vec()]
    );
    // a compiled pattern is its own source
    let compiled = compile_pattern_1(&vm, &process, &[alternatives]).unwrap();
    assert_eq!(compiled, Term::Regex("\\*|\\|".to_string()));
    let res = matches_2(&vm, &process, &[subject.clone(), compiled.clone()]).unwrap();
    assert_eq!(
        items(&res),
        vec![
            Term::tup2(Term::small(3), Term::small(1)),
            Term::tup2(Term::small(5), Term::small(1))
        ]
    );
    assert_eq!(compile_pattern_1(&vm, &process, &[compiled.clone()]), Ok(compiled));
    // an empty pattern, bytes that are no text and a broken pattern are bad arguments
    let empty = bin(&mut process, b"");
    assert!(is_badarg(compile_pattern_1(&vm, &process, &[empty])));
    let not_text = bin(&mut process, &[0xff, 0xfe]);
    assert!(is_badarg(compile_pattern_1(&vm, &process, &[not_text])));
    assert!(is_badarg(compile_pattern_1(&vm, &process, &[Term::nil()])));
    assert!(is_badarg(compile_pattern_1(&vm, &process, &[Term::Regex("(".to_string())])));
    assert!(is_badarg(match_2(&vm, &process, &[subject, Term::Regex("(".to_string())])));
}

#[test]
fn match_and_matches() {
    let (vm, mut process, subject) = setup(b"abcde abcde");
    let bc = bin(&mut process, b"bc");
    let cd = bin(&mut process, b"cd");
    let zz = bin(&mut process, b"zz");
    let found = match_2(&vm, &process, &[subject.clone(), bc.clone()]).unwrap();
    assert_eq!(found, Term::tup2(Term::small(1), Term::small(2)));
    let found = match_2(&vm, &process, &[subject.clone(), list(vec![cd.clone(), bc.clone()])])
        .unwrap();
    assert_eq!(found, Term::tup2(Term::small(1), Term::small(2)));
    assert_eq!(
        match_2(&vm, &process, &[subject.clone(), zz.clone()]),
        Ok(Term::atom(NOMATCH))
    );
    let scope = |a: i32, b: i32| {
        list(vec![Term::tup2(Term::atom(SCOPE), Term::tup2(Term::small(a), Term::small(b)))])
    };
    let found = match_3(&vm, &process, &[subject.clone(), bc.clone(), scope(2, 9)]).unwrap();
    assert_eq!(found, Term::tup2(Term::small(7), Term::small(2)));
    assert_eq!(
        match_3(&vm, &process, &[subject.clone(), bc.clone(), scope(2, 6)]),
        Ok(Term::atom(NOMATCH))
    );
    assert!(is_badarg(match_3(
        &vm,
        &process,
        &[subject.clone(), bc.clone(), list(vec![Term::atom(GLOBAL)])]
    )));
    assert!(is_badarg(match_3(&vm, &process, &[subject.clone(), bc.clone(), scope(2, 10)])));
    assert!(is_badarg(match_2(&vm, &process, &[Term::atom(1), bc.clone()])));

    let all = matches_2(&vm, &process, &[subject.clone(), bc.clone()]).unwrap();
    assert_eq!(
        items(&all),
        vec![
            Term::tup2(Term::small(1), Term::small(2)),
            Term::tup2(Term::small(7), Term::small(2))
        ]
    );
    let all = matches_3(&vm, &process, &[subject.clone(), bc.clone(), scope(7, 4)]).unwrap();
    assert_eq!(items(&all), vec![Term::tup2(Term::small(7), Term::small(2))]);
    assert_eq!(matches_2(&vm, &process, &[subject.clone(), zz]), Ok(Term::nil()));
    assert!(is_badarg(matches_2(&vm, &process, &[subject.clone(), Term::small(3)])));
    assert!(is_badarg(matches_3(&vm, &process, &[subject, bc, Term::small(3)])));
}

#[test]
fn results_for_given_matches() {
    assert_eq!(match_term(None, 3), Term::atom(NOMATCH));
    assert_eq!(match_term(Some((2, 5)), 3), Term::tup2(Term::small(5), Term::small(3)));
    assert_eq!(matches_term(&vec![], 0), Term::nil());
    assert_eq!(
        items(&matches_term(&vec![(0, 1), (4, 4)], 1)),
        vec![
            Term::tup2(Term::small(1), Term::small(1)),
            Term::tup2(Term::small(5), Term::small(0))
        ]
    );
    let rb = RealBinary { original: RcBinary(3), first_bit: 16, size: 10, bitsize: 0 };
    let plain = SearchOptions { global: true, trim: false, trim_all: false, scope: None };
    let views = split_at_matches(rb, &vec![(1, 2), (2, 4)], 2, plain);
    let spans: Vec<(usize, usize)> = views.iter().map(|v| (v.offset, v.size)).collect();
    assert_eq!(spans, vec![(2, 3), (6, 0), (8, 4)]);
    assert!(views.iter().all(|v| v.original == RcBinary(3) && !v.is_writable));
    let trim = SearchOptions { global: true, trim: true, trim_all: false, scope: None };
    let views = split_at_matches(rb, &vec![(0, 4), (4, 8)], 2, trim);
    let spans: Vec<(usize, usize)> = views.iter().map(|v| (v.offset, v.size)).collect();
    assert_eq!(spans, vec![(2, 2)]);
    let all = SearchOptions { global: true, trim: false, trim_all: true, scope: None };
    let views = split_at_matches(rb, &vec![(0, 4), (4, 8)], 2, all);
    assert_eq!(views.len(), 1);
    let views = split_at_matches(rb, &vec![], 0, all);
    assert_eq!(views.len(), 1);
    let empty = RealBinary { original: RcBinary(3), first_bit: 0, size: 0, bitsize: 0 };
    assert_eq!(split_at_matches(empty, &vec![], 0, plain).len(), 1);
    // a match that ends the subject has the empty part after it
    let short = RealBinary { original: RcBinary(3), first_bit: 0, size: 2, bitsize: 0 };
    let views = split_at_matches(short, &vec![(1, 2)], 0, plain);
    let spans: Vec<(usize, usize)> = views.iter().map(|v| (v.offset, v.size)).collect();
    assert_eq!(spans, vec![(0, 1), (2, 0)]);
    let single = SearchOptions { global: false, trim: false, trim_all: false, scope: None };
    assert_eq!(split_at_matches(empty, &vec![], 0, single).len(), 1);
}

#[test]
fn longest_common_prefix_lengths() {
    let words = vec![b"zebrawood".to_vec(), b"zebrafish".to_vec(), b"zebra mussel".to_vec()];
    assert_eq!(longest_common_prefix(&words), 5);
    assert_eq!(longest_common_prefix(&[]), 0);
    assert_eq!(longest_common_prefix(&[b"abc".to_vec()]), 3);
    assert_eq!(longest_common_prefix(&[b"abc".to_vec(), b"".to_vec()]), 0);
    assert_eq!(longest_common_prefix(&[b"abc".to_vec(), b"abd".to_vec(), b"ab".to_vec()]), 2);
    assert_eq!(longest_common_prefix(&[b"xbc".to_vec(), b"abc".to_vec()]), 0);

    let (vm, mut process, first) = setup(b"erlang");
    let second = bin(&mut process, b"ergonomy");
    let res = longest_common_prefix_1(&vm, &process, &[list(vec![first.clone(), second])]);
    assert_eq!(res, Ok(Term::small(2)));
    assert_eq!(longest_common_prefix_1(&vm, &process, &[Term::nil()]), Ok(Term::small(0)));
    assert!(is_badarg(longest_common_prefix_1(&vm, &process, &[first.clone()])));
    assert!(is_badarg(longest_common_prefix_1(
        &vm,
        &process,
        &[list(vec![first, Term::small(1)])]
    )));
}

#[test]
fn copy_first_last() {
    assert_eq!(copy(b"ab", 3).data, b"ababab".to_vec());
    assert_eq!(copy(b"ab", 0).data, Vec::<u8>::new());
    assert!(copy(b"", 5).is_writable);

    let (vm, mut process, source) = setup(b"xyz");
    let fresh = copy_1(&vm, &mut process, &[source.clone()]).unwrap();
    assert_eq!(fresh, Term::Binary(RcBinary(1)));
    assert_eq!(to_bytes(&fresh, &process.context.binaries), Some(b"xyz".to_vec()));
    let twice = copy_2(&vm, &mut process, &[source.clone(), Term::small(2)]).unwrap();
    assert_eq!(to_bytes(&twice, &process.context.binaries), Some(b"xyzxyz".to_vec()));
    let none = copy_2(&vm, &mut process, &[source.clone(), Term::small(0)]).unwrap();
    assert_eq!(to_bytes(&none, &process.context.binaries), Some(vec![]));
    assert!(is_badarg(copy_2(&vm, &mut process, &[source.clone(), Term::small(-1)])));
    assert!(is_badarg(copy_2(&vm, &mut process, &[source.clone(), Term::atom(2)])));
    assert!(is_badarg(copy_1(&vm, &mut process, &[Term::small(2)])));
    assert_eq!(process.context.binaries.bins.len(), 4);

    assert_eq!(first_1(&vm, &process, &[source.clone()]), Ok(Term::small(120)));
    assert_eq!(last_1(&vm, &process, &[source.clone()]), Ok(Term::small(122)));
    assert!(is_badarg(first_1(&vm, &process, &[none.clone()])));
    assert!(is_badarg(last_1(&vm, &process, &[none])));
    assert!(is_badarg(first_1(&vm, &process, &[Term::nil()])));
    assert!(is_badarg(last_1(&vm, &process, &[Term::small(0)])));
    // a handle that names no binary is no binary
    assert!(is_badarg(first_1(&vm, &process, &[Term::Binary(RcBinary(99))])));
}
