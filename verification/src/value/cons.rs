//! Lists: chains of cells.
use crate::exception::{badarg, Exception, Reason};
use crate::value::{Term, WrongBoxError};
use vstd::prelude::*;
use vstd::utf8::is_scalar;

verus! {

/// A list cell. Lists may be improper: the tail need not be nil or another
/// cell.
#[derive(Clone, Debug, PartialEq, Eq)]
pub struct Cons {
    pub head: Term,
    pub tail: Term,
}

/// The elements of the list that starts at this cell: the heads of the
/// cells, up to the first tail that is no cell.
pub open spec fn elements(c: Cons) -> Seq<Term>
    decreases c,
{
    match c.tail {
        Term::Cons(next) => seq![c.head] + elements(*next),
        _ => seq![c.head],
    }
}

/// The elements of a list term; a term that is no cell has none.
pub open spec fn list_items(t: Term) -> Seq<Term> {
    match t {
        Term::Cons(c) => elements(*c),
        _ => Seq::empty(),
    }
}

/// The list ends in nil.
pub open spec fn is_proper(t: Term) -> bool
    decreases t,
{
    match t {
        Term::Nil => true,
        Term::Cons(c) => is_proper(c.tail),
        _ => false,
    }
}

/// The proper list of the items.
pub open spec fn list_of(items: Seq<Term>) -> Term
    decreases items.len(),
{
    if items.len() == 0 {
        Term::Nil
    } else {
        Term::Cons(Box::new(Cons { head: items[0], tail: list_of(items.drop_first()) }))
    }
}

/// The list of the items is proper and holds them.
pub proof fn lemma_list_of(items: Seq<Term>)
    ensures
        is_proper(list_of(items)),
        list_items(list_of(items)) == items,
    decreases items.len(),
{
    if items.len() > 0 {
        let rest = items.drop_first();
        lemma_list_of(rest);
        if rest.len() == 0 {
            assert(list_items(list_of(items)) =~= items);
        } else {
            assert(seq![items[0]] + rest =~= items);
        }
    }
}

/// A cursor over the elements of a list.
pub struct Iter<'a> {
    head: Option<&'a Cons>,
}

impl<'a> Iter<'a> {
    /// The elements that are still to come.
    pub closed spec fn rest(&self) -> Seq<Term> {
        match self.head {
            Some(c) => elements(*c),
            None => Seq::empty(),
        }
    }

    /// The next element, if there is one.
    pub fn next(&mut self) -> (r: Option<&'a Term>)
        ensures
            old(self).rest().len() == 0 ==> r is None && final(self).rest().len() == 0,
            old(self).rest().len() > 0 ==> r == Some(&old(self).rest()[0]) && final(self).rest()
                == old(self).rest().drop_first(),
    {
        match self.head {
            None => None,
            Some(node) => {
                match &node.tail {
                    Term::Cons(next) => {
                        assert((seq![node.head] + elements(**next)).drop_first() =~= elements(
                            **next,
                        ));
                        self.head = Some(&**next);
                    },
                    _ => {
                        assert(seq![node.head].drop_first() =~= Seq::<Term>::empty());
                        self.head = None;
                    },
                }
                Some(&node.head)
            },
        }
    }
}

impl Cons {
    /// The list cell that the term is.
    pub fn try_from(value: &Term) -> (r: Result<&Cons, WrongBoxError>)
        ensures
            match r {
                Ok(cell) => value matches Term::Cons(c) && *c == *cell,
                Err(_) => !(value is Cons),
            },
    {
        match value {
            Term::Cons(cell) => Ok(&**cell),
            _ => Err(WrongBoxError),
        }
    }

    /// A cursor at the first element.
    pub fn iter(&self) -> (it: Iter<'_>)
        ensures
            it.rest() == elements(*self),
    {
        Iter { head: Some(self) }
    }

    /// The proper list of the items, in their order.
    pub fn from_iter(items: Vec<Term>) -> (t: Term)
        ensures
            t == list_of(items@),
    {
        let mut items = items;
        let ghost all = items@;
        let mut acc: Term = Term::Nil;
        while items.len() > 0
            invariant
                items.len() <= all.len(),
                items@ == all.subrange(0, items.len() as int),
                acc == list_of(all.subrange(items.len() as int, all.len() as int)),
            decreases items.len(),
        {
            let ghost n = items.len() as int;
            let head: Term = items.pop().unwrap();
            proof {
                let tail_items = all.subrange(n, all.len() as int);
                let with_head = all.subrange(n - 1, all.len() as int);
                assert(with_head.drop_first() =~= tail_items);
                assert(with_head[0] == head);
                assert(items@ =~= all.subrange(0, n - 1));
            }
            acc = Term::Cons(Box::new(Cons { head, tail: acc }));
        }
        assert(all.subrange(0, all.len() as int) =~= all);
        acc
    }
}

/// The elements of a proper list; `None` for a term that is no proper list.
pub fn proper_list<'a>(t: &'a Term) -> (r: Option<Vec<&'a Term>>)
    ensures
        r is Some <==> is_proper(*t),
        r matches Some(v) ==> v.len() == list_items(*t).len() && forall|i: int|
            0 <= i < v.len() ==> *(#[trigger] v[i]) == list_items(*t)[i],
{
    let mut out: Vec<&'a Term> = Vec::new();
    let mut cur: &'a Term = t;
    loop
        invariant
            is_proper(*cur) == is_proper(*t),
            is_proper(*t) ==> list_items(*t) =~= Seq::new(out.len() as nat, |i: int| *out[i])
                + list_items(*cur),
        decreases cur,
    {
        match cur {
            Term::Cons(c) => {
                proof {
                    let before = Seq::new(out.len() as nat, |i: int| *out[i]);
                    assert(list_items(*cur) =~= seq![c.head] + list_items(c.tail));
                    assert(before.push(c.head) + list_items(c.tail) =~= before + list_items(
                        *cur,
                    ));
                }
                let ghost prev = out@;
                out.push(&c.head);
                assert(Seq::new(out.len() as nat, |i: int| *out[i]) =~= Seq::new(
                    prev.len() as nat,
                    |i: int| *prev[i],
                ).push(c.head));
                cur = &c.tail;
            },
            Term::Nil => {
                proof {
                    assert(list_items(*cur) =~= Seq::<Term>::empty());
                    if is_proper(*t) {
                        let got = Seq::new(out.len() as nat, |i: int| *out[i]);
                        assert(list_items(*t) =~= got);
                        assert forall|i: int| 0 <= i < out.len() implies *(#[trigger] out[i])
                            == list_items(*t)[i] by {
                            assert(got[i] == *out[i]);
                        }
                    }
                }
                return Some(out);
            },
            _ => {
                return None;
            },
        }
    }
}

/// `char::from_u32`: the character with this number, where the number is
/// a Unicode scalar value.
#[verifier::external_body]
fn char_from_u32(v: u32) -> (r: Option<char>)
    ensures
        r is Some <==> is_scalar(v),
        r matches Some(c) ==> c as u32 == v,
{
    core::char::from_u32(v)
}

/// `String::push`: the character is added at the end.
#[verifier::external_body]
fn string_push(s: &mut String, c: char)
    ensures
        final(s)@ == old(s)@.push(c),
{
    s.push(c);
}

/// The term is a small integer that is the number of a character.
pub open spec fn is_char_code(t: Term) -> bool {
    t matches Term::Int(i) && i >= 0 && is_scalar(i as u32)
}

/// The text whose characters the elements of a list number. An element
/// that is no number of a character is a bad argument.
pub fn unicode_list_to_buf(list: &Cons, _max_len: usize) -> (r: Result<String, Exception>)
    ensures
        r is Ok <==> forall|i: int|
            0 <= i < elements(*list).len() ==> is_char_code(#[trigger] elements(*list)[i]),
        r matches Err(e) ==> e.reason == Reason::EXC_BADARG,
        r matches Ok(s) ==> s@.len() == elements(*list).len() && forall|i: int|
            0 <= i < s@.len() ==> (#[trigger] s@[i]) as u32 == elements(*list)[i]->Int_0,
{
    let mut it = list.iter();
    let mut out: String = String::new();
    let ghost all = elements(*list);
    let ghost mut done: int = 0;
    loop
        invariant
            all == elements(*list),
            0 <= done <= all.len(),
            it.rest() == all.subrange(done, all.len() as int),
            out@.len() == done,
            forall|i: int| 0 <= i < done ==> is_char_code(#[trigger] all[i]),
            forall|i: int| 0 <= i < done ==> (#[trigger] out@[i]) as u32 == all[i]->Int_0,
        decreases all.len() - done,
    {
        match it.next() {
            None => {
                return Ok(out);
            },
            Some(v) => {
                assert(*v == all[done]);
                let c: Option<char> = match v.to_uint() {
                    Some(n) => char_from_u32(n),
                    None => None,
                };
                match c {
                    Some(c) => {
                        string_push(&mut out, c);
                    },
                    None => {
                        assert(!is_char_code(all[done]));
                        return Err(badarg());
                    },
                }
                proof {
                    assert(all.subrange(done, all.len() as int).drop_first() =~= all.subrange(
                        done + 1,
                        all.len() as int,
                    ));
                    done = done + 1;
                }
            },
        }
    }
}

/// The list of the items, followed by what `tail` is.
pub open spec fn with_front(items: Seq<Term>, tail: Term) -> Term
    decreases items.len(),
{
    if items.len() == 0 {
        tail
    } else {
        Term::Cons(Box::new(Cons { head: items[0], tail: with_front(items.drop_first(), tail) }))
    }
}

} // verus!
