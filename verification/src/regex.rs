//! Searching bytes for a pattern. The search itself is the work of the
//! `regex` crate; what the library does with its results is verified.
use crate::atom;
use crate::bif::binary::{binary_bytes, is_position, match_term, readable, to_bytes};
use crate::bitstring::BinaryTable;
use crate::value::cons::lemma_list_of;
use crate::value::Cons;
use crate::exception::{badarg, Exception, Reason};
use crate::process::Process;
use crate::value::cons::{is_proper, list_items, proper_list};
use crate::value::{Term, WrongBoxError};
use crate::vm::Machine;
use vstd::prelude::*;

verus! {

/// Whether `regex::bytes::Regex::new` accepts the pattern.
pub uninterp spec fn pattern_compiles(pattern: Seq<char>) -> bool;

/// The matches that `regex::bytes::Regex::find_iter` yields for the pattern
/// in the subject, each as the offset of its first byte and the offset after
/// its last.
pub uninterp spec fn all_matches(pattern: Seq<char>, subject: Seq<u8>) -> Seq<(int, int)>;

/// The match that `regex::bytes::Regex::find` returns for the pattern in the
/// subject: the offset of its first byte and the offset after its last.
pub uninterp spec fn first_match(pattern: Seq<char>, subject: Seq<u8>) -> Option<(int, int)>;

/// Whether the character has a meaning of its own in a pattern.
pub open spec fn is_meta_character(c: char) -> bool {
    c == '\\' || c == '.' || c == '+' || c == '*' || c == '?' || c == '(' || c == ')' || c == '|'
        || c == '[' || c == ']' || c == '{' || c == '}' || c == '^' || c == '$' || c == '#' || c
        == '&' || c == '-' || c == '~'
}

/// The text with a backslash before each character that has a meaning of its
/// own in a pattern.
pub open spec fn escaped(text: Seq<char>) -> Seq<char>
    decreases text.len(),
{
    if text.len() == 0 {
        Seq::empty()
    } else if is_meta_character(text[0]) {
        seq!['\\', text[0]] + escaped(text.drop_first())
    } else {
        seq![text[0]] + escaped(text.drop_first())
    }
}

/// The matches lie in a subject of `len` bytes, one after the other without
/// overlap.
pub open spec fn ordered_matches(matches: Seq<(int, int)>, len: int) -> bool {
    &&& forall|i: int|
        0 <= i < matches.len() ==> 0 <= (#[trigger] matches[i]).0 <= matches[i].1 <= len
    &&& forall|i: int, j: int|
        0 <= i < j < matches.len() ==> (#[trigger] matches[i]).1 <= (#[trigger] matches[j]).0
}

/// The matches as numbers of the machine.
pub open spec fn matches_view(matches: Seq<(usize, usize)>) -> Seq<(int, int)> {
    Seq::new(matches.len(), |i: int| (matches[i].0 as int, matches[i].1 as int))
}

/// `regex::escape`: puts a backslash before each of the characters
/// `\ . + * ? ( ) | [ ] { } ^ $ # & - ~` and keeps every other character.
#[verifier::external_body]
pub(crate) fn escape(text: &str) -> (r: String)
    ensures
        r@ == escaped(text@),
{
    ::regex::escape(text)
}

/// `regex::bytes::Regex::new` followed by `Regex::find_iter`: `None` where
/// the pattern does not compile, else every match in the subject. The crate
/// documents that a match starts no later than it ends, that it lies inside
/// the subject, and that the matches follow one another without overlap.
#[verifier::external_body]
pub(crate) fn find_all(pattern: &str, subject: &[u8]) -> (r: Option<Vec<(usize, usize)>>)
    ensures
        r is Some <==> pattern_compiles(pattern@),
        r matches Some(found) ==> matches_view(found@) == all_matches(pattern@, subject@)
            && ordered_matches(matches_view(found@), subject@.len() as int),
{
    match ::regex::bytes::Regex::new(pattern) {
        Ok(re) => Some(re.find_iter(subject).map(|m| (m.start(), m.end())).collect()),
        Err(_) => None,
    }
}

/// `regex::bytes::Regex::new` followed by `Regex::find`: `None` where the
/// pattern does not compile, else the first match in the subject, if there
/// is one. The crate documents that a match starts no later than it ends and
/// lies inside the subject.
#[verifier::external_body]
pub(crate) fn find_first(pattern: &str, subject: &[u8]) -> (r: Option<Option<(usize, usize)>>)
    ensures
        r is Some <==> pattern_compiles(pattern@),
        r matches Some(found) ==> (match found {
            Some(m) => first_match(pattern@, subject@) == Some((m.0 as int, m.1 as int)) && m.0
                <= m.1 <= subject@.len(),
            None => first_match(pattern@, subject@) is None,
        }),
{
    match ::regex::bytes::Regex::new(pattern) {
        Ok(re) => Some(re.find(subject).map(|m| (m.start(), m.end()))),
        Err(_) => None,
    }
}

/// `std::str::from_utf8`: the bytes as text, where they are valid UTF-8.
#[verifier::external_body]
pub(crate) fn utf8_text(bytes: &[u8]) -> (r: Option<&str>)
    ensures
        r is Some <==> vstd::utf8::valid_utf8(bytes@),
        r matches Some(text) ==> text@ == vstd::utf8::decode_utf8(bytes@),
{
    core::str::from_utf8(bytes).ok()
}

/// The source of the compiled pattern that the term is.
pub fn cast_from(value: &Term) -> (r: Result<&String, WrongBoxError>)
    ensures
        match r {
            Ok(source) => *value == Term::Regex(*source),
            Err(_) => !(value is Regex),
        },
{
    match value {
        Term::Regex(source) => Ok(source),
        _ => Err(WrongBoxError),
    }
}

/// The term is a small integer that is a byte.
pub open spec fn is_byte(t: Term) -> bool {
    t matches Term::Int(i) && 0 <= i <= 255
}

/// The bytes that a term gives: those of a binary, or those that a proper
/// list of bytes lists.
pub open spec fn iodata(t: Term, table: &BinaryTable) -> Option<Seq<u8>> {
    if readable(t, table) {
        Some(binary_bytes(t, table))
    } else if is_proper(t) && (forall|i: int|
        0 <= i < list_items(t).len() ==> is_byte(#[trigger] list_items(t)[i])) {
        Some(Seq::new(list_items(t).len(), |i: int| list_items(t)[i]->Int_0 as u8))
    } else {
        None
    }
}

/// The bytes that a term gives; `None` for a term that gives none.
pub fn list_to_iodata(t: &Term, table: &BinaryTable) -> (r: Option<Vec<u8>>)
    ensures
        r is Some <==> iodata(*t, table) is Some,
        r matches Some(bytes) ==> iodata(*t, table) == Some(bytes@),
{
    match to_bytes(t, table) {
        Some(bytes) => Some(bytes),
        None => {
            let items: Vec<&Term> = match proper_list(t) {
                Some(items) => items,
                None => {
                    return None;
                },
            };
            let ghost all = list_items(*t);
            let mut out: Vec<u8> = Vec::new();
            let mut i: usize = 0;
            while i < items.len()
                invariant
                    i <= items.len(),
                    items.len() == all.len(),
                    all == list_items(*t),
                    is_proper(*t),
                    !readable(*t, table),
                    forall|k: int| 0 <= k < items.len() ==> *(#[trigger] items[k]) == all[k],
                    out.len() == i,
                    forall|k: int| 0 <= k < i ==> is_byte(#[trigger] all[k]),
                    forall|k: int| 0 <= k < i ==> #[trigger] out@[k] == all[k]->Int_0 as u8,
                decreases items.len() - i,
            {
                match items[i] {
                    Term::Int(b) => {
                        if *b < 0 || *b > 255 {
                            assert(!is_byte(all[i as int]));
                            return None;
                        }
                        out.push(*b as u8);
                    },
                    _ => {
                        assert(!is_byte(all[i as int]));
                        return None;
                    },
                }
                i = i + 1;
            }
            assert(out@ =~= Seq::new(all.len(), |i: int| all[i]->Int_0 as u8));
            Some(out)
        },
    }
}

/// The term is what `run` answers for the matches: the atom `nomatch` where
/// there is none, else `{match, [Positions]}`, where `Positions` lists each
/// match as its position and its length, the last match first.
pub open spec fn is_run_answer(t: Term, found: Seq<(int, int)>) -> bool {
    if found.len() == 0 {
        t == Term::Atom(atom::NOMATCH)
    } else {
        &&& t matches Term::Tuple(v) && v.len() == 2 && v[0] == Term::Atom(atom::MATCH)
        &&& is_proper(t->Tuple_0[1])
        &&& list_items(t->Tuple_0[1]).len() == 1
        &&& is_proper(list_items(t->Tuple_0[1])[0])
        &&& list_items(list_items(t->Tuple_0[1])[0]).len() == found.len()
        &&& forall|i: int|
            0 <= i < found.len() ==> is_position(
                #[trigger] list_items(list_items(t->Tuple_0[1])[0])[i],
                found[found.len() - 1 - i].0,
                found[found.len() - 1 - i].1 - found[found.len() - 1 - i].0,
            )
    }
}

/// What `run` answers for the matches that a search found.
pub fn run_result(found: &Vec<(usize, usize)>) -> (t: Term)
    requires
        forall|i: int| 0 <= i < found.len() ==> (#[trigger] found[i]).0 <= found[i].1,
    ensures
        is_run_answer(t, matches_view(found@)),
{
    if found.len() == 0 {
        return Term::Atom(atom::NOMATCH);
    }
    let mut values: Vec<Term> = Vec::new();
    let mut i: usize = 0;
    let n: usize = found.len();
    while i < n
        invariant
            i <= n,
            n == found.len(),
            values.len() == i,
            forall|k: int| 0 <= k < found.len() ==> (#[trigger] found[k]).0 <= found[k].1,
            forall|k: int|
                0 <= k < i ==> is_position(
                    #[trigger] values@[k],
                    found[n - 1 - k].0 as int,
                    found[n - 1 - k].1 - found[n - 1 - k].0,
                ),
        decreases n - i,
    {
        let m: (usize, usize) = found[n - 1 - i];
        values.push(match_term(Some(m), 0));
        i = i + 1;
    }
    proof {
        lemma_list_of(values@);
    }
    let inner: Term = Cons::from_iter(values);
    let mut outer: Vec<Term> = Vec::new();
    outer.push(inner);
    proof {
        lemma_list_of(outer@);
    }
    Term::tup2(Term::Atom(atom::MATCH), Cons::from_iter(outer))
}

/// `re:run(Subject, Pattern, Options)`: where the regular expression
/// `Pattern` matches in the subject.
pub fn run_3(_vm: &Machine, process: &Process, args: &[Term]) -> (r: Result<Term, Exception>)
    requires
        args.len() >= 2,
    ensures
        r is Ok <==> {
            let table = &process.context.binaries;
            &&& iodata(args[0], table) is Some
            &&& iodata(args[1], table) is Some
            &&& vstd::utf8::valid_utf8(iodata(args[1], table)->0)
            &&& pattern_compiles(vstd::utf8::decode_utf8(iodata(args[1], table)->0))
        },
        r matches Err(e) ==> e.reason == Reason::EXC_BADARG,
        r matches Ok(t) ==> {
            let found = all_matches(
                vstd::utf8::decode_utf8(iodata(args[1], &process.context.binaries)->0),
                iodata(args[0], &process.context.binaries)->0,
            );
            &&& is_run_answer(t, found)
            &&& ordered_matches(found, iodata(args[0], &process.context.binaries)->0.len() as int)
        },
{
    let string: Vec<u8> = match list_to_iodata(&args[0], &process.context.binaries) {
        Some(bytes) => bytes,
        None => {
            return Err(badarg());
        },
    };
    let pattern: Vec<u8> = match list_to_iodata(&args[1], &process.context.binaries) {
        Some(bytes) => bytes,
        None => {
            return Err(badarg());
        },
    };
    let text: &str = match utf8_text(pattern.as_slice()) {
        Some(text) => text,
        None => {
            return Err(badarg());
        },
    };
    match find_all(text, string.as_slice()) {
        Some(found) => {
            proof {
                let view = matches_view(found@);
                assert forall|i: int| 0 <= i < found.len() implies (#[trigger] found[i]).0
                    <= found[i].1 by {
                    assert(view[i] == (found[i].0 as int, found[i].1 as int));
                }
                assert(view.len() == found.len());
            }
            Ok(run_result(&found))
        },
        None => Err(badarg()),
    }
}

} // verus!
