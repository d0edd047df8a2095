//! Terms: the values that the runtime computes with.
pub mod cons;
pub mod integer;
pub mod map;
pub mod order;

use crate::atom;
use crate::bitstring::{MatchBuffer, RcBinary, SubBinary};
use crate::module::MFA;
pub use cons::Cons;
use integer::{digits_of_u64, integer_term, is_integer, Bignum};
pub use map::{Node, HAMT};
use vstd::prelude::*;

verus! {

/// A live bitstring match: the cursor and the offsets saved on the way.
#[derive(Clone, Debug, PartialEq, Eq)]
pub struct MatchState {
    pub mb: MatchBuffer,
    /// Saved offsets.
    pub saved_offsets: Vec<usize>,
}

/// A value of the language.
#[derive(Debug, PartialEq, Eq)]
pub enum Term {
    Nil,
    /// A small integer.
    Int(i32),
    /// An integer too large for a small one.
    BigInt(Bignum),
    Atom(u32),
    Pid(u32),
    Ref(u64),
    Cons(Box<Cons>),
    Tuple(Vec<Term>),
    Hamt(HAMT),
    Binary(RcBinary),
    SubBinary(SubBinary),
    MatchState(MatchState),
    /// A compiled search pattern, kept as its source.
    Regex(String),
    /// A module that is prepared for loading, known by its slot.
    Module(usize),
    /// A floating-point number, as the bits of its double-precision
    /// encoding.
    Float(u64),
    /// The name under which a function is called.
    Export(MFA),
}

/// The term is not of the kind that was asked for.
#[derive(Clone, Copy, Debug, PartialEq, Eq, Structural)]
pub struct WrongBoxError;

impl MatchState {
    /// The match state that the term is.
    pub fn try_from(value: &Term) -> (r: Result<&MatchState, WrongBoxError>)
        ensures
            match r {
                Ok(ms) => *value == Term::MatchState(*ms),
                Err(_) => !(value is MatchState),
            },
    {
        match value {
            Term::MatchState(ms) => Ok(ms),
            _ => Err(WrongBoxError),
        }
    }
}

/// What a term is, as a mathematical value.
pub enum TermView {
    Nil,
    Int(int),
    BigInt(Seq<u8>),
    Atom(u32),
    Pid(u32),
    Ref(u64),
    Cons(Box<TermView>, Box<TermView>),
    Tuple(Seq<TermView>),
    /// A map, as the number of its keys and the trie that holds its
    /// entries. A sound trie goes by what the map holds, so maps that hold
    /// the same are the same value.
    Hamt(usize, NodeView),
    Binary(RcBinary),
    SubBinary(SubBinary),
    MatchState(MatchBuffer, Seq<usize>),
    Regex(Seq<char>),
    Module(usize),
    Float(u64),
    Export(MFA),
}

/// What a node of a map's trie is, as a mathematical value.
pub enum NodeView {
    /// No node.
    Empty,
    Leaf(Seq<(TermView, TermView)>),
    Branch(u32, Seq<NodeView>),
}

/// What a node of a map's trie is, as a mathematical value.
pub open spec fn node_view(n: Node) -> NodeView
    decreases n,
{
    match n {
        Node::Leaf(v) => NodeView::Leaf(
            Seq::new(
                v.len() as nat,
                |i: int|
                    if 0 <= i < v.len() {
                        (term_view(v[i].0), term_view(v[i].1))
                    } else {
                        (TermView::Nil, TermView::Nil)
                    },
            ),
        ),
        Node::Branch { bitmap, children } => NodeView::Branch(
            bitmap,
            Seq::new(
                children.len() as nat,
                |i: int|
                    if 0 <= i < children.len() {
                        node_view(*children[i])
                    } else {
                        NodeView::Empty
                    },
            ),
        ),
    }
}

/// What the term is, as a mathematical value.
pub open spec fn term_view(t: Term) -> TermView
    decreases t,
{
    match t {
        Term::Nil => TermView::Nil,
        Term::Int(i) => TermView::Int(i as int),
        Term::BigInt(b) => TermView::BigInt(b.digits@),
        Term::Atom(a) => TermView::Atom(a),
        Term::Pid(p) => TermView::Pid(p),
        Term::Ref(r) => TermView::Ref(r),
        Term::Cons(c) => TermView::Cons(Box::new(term_view(c.head)), Box::new(term_view(c.tail))),
        Term::Tuple(v) => TermView::Tuple(
            Seq::new(
                v.len() as nat,
                |i: int|
                    if 0 <= i < v.len() {
                        term_view(v[i])
                    } else {
                        TermView::Nil
                    },
            ),
        ),
        Term::Hamt(m) => TermView::Hamt(
            m.size,
            match m.root {
                Some(root) => node_view(*root),
                None => NodeView::Empty,
            },
        ),
        Term::Binary(b) => TermView::Binary(b),
        Term::SubBinary(sb) => TermView::SubBinary(sb),
        Term::MatchState(ms) => TermView::MatchState(ms.mb, ms.saved_offsets@),
        Term::Regex(s) => TermView::Regex(s@),
        Term::Module(slot) => TermView::Module(slot),
        Term::Float(bits) => TermView::Float(bits),
        Term::Export(mfa) => TermView::Export(mfa),
    }
}

impl View for Term {
    type V = TermView;

    open spec fn view(&self) -> TermView {
        term_view(*self)
    }
}

/// A copy of the term: the same value, and a map where the term is one.
#[verifier::loop_isolation(false)]
pub fn duplicate(t: &Term) -> (r: Term)
    ensures
        r@ == t@,
        map::is_map(*t) ==> map::is_map(r) && map::map_of(r) == map::map_of(*t),
    decreases t,
{
    match t {
        Term::Nil => Term::Nil,
        Term::Int(i) => Term::Int(*i),
        Term::BigInt(b) => Term::BigInt(Bignum { digits: b.digits.clone() }),
        Term::Atom(a) => Term::Atom(*a),
        Term::Pid(p) => Term::Pid(*p),
        Term::Ref(r) => Term::Ref(*r),
        Term::Cons(c) => {
            let head = duplicate(&c.head);
            let tail = duplicate(&c.tail);
            Term::Cons(Box::new(Cons { head, tail }))
        },
        Term::Tuple(v) => {
            let mut out: Vec<Term> = Vec::new();
            let mut i: usize = 0;
            while i < v.len()
                invariant
                    i <= v.len(),
                    out.len() == i,
                    forall|j: int| 0 <= j < i ==> (#[trigger] out@[j])@ == v@[j]@,
                decreases v.len() - i,
            {
                proof {
                    vstd::std_specs::vec::axiom_vec_index_decreases(*v, i as int);
                }
                let e = duplicate(&v[i]);
                out.push(e);
                i = i + 1;
            }
            let r = Term::Tuple(out);
            proof {
                let a = r@->Tuple_0;
                let b = t@->Tuple_0;
                assert(a.len() == b.len());
                assert forall|j: int| 0 <= j < a.len() implies a[j] == b[j] by {
                    assert(out@[j]@ == v@[j]@);
                }
                assert(a =~= b);
            }
            r
        },
        Term::Hamt(m) => Term::Hamt(m.duplicate()),
        Term::Binary(b) => Term::Binary(*b),
        Term::SubBinary(sb) => Term::SubBinary(*sb),
        Term::MatchState(ms) => {
            let saved = ms.saved_offsets.clone();
            Term::MatchState(MatchState { mb: ms.mb, saved_offsets: saved })
        },
        Term::Regex(s) => Term::Regex(s.clone()),
        Term::Module(slot) => Term::Module(*slot),
        Term::Float(bits) => Term::Float(*bits),
        Term::Export(mfa) => Term::Export(*mfa),
    }
}

impl Clone for Term {
    fn clone(&self) -> (r: Term)
        ensures
            r@ == self@,
            map::is_map(*self) ==> map::is_map(r) && map::map_of(r) == map::map_of(*self),
    {
        duplicate(self)
    }
}

impl Term {
    /// The small integer `i`.
    pub fn small(i: i32) -> (t: Term)
        ensures
            t == Term::Int(i),
    {
        Term::Int(i)
    }

    /// The integer `value`.
    pub fn uint(value: u32) -> (t: Term)
        ensures
            is_integer(t, value as int),
    {
        Term::uint64(value as u64)
    }

    /// The integer `value`: a small integer where it fits.
    pub fn uint64(value: u64) -> (t: Term)
        ensures
            is_integer(t, value as int),
    {
        if value <= 0x7fff_ffff {
            Term::Int(value as i32)
        } else {
            integer_term(digits_of_u64(value))
        }
    }

    /// The atom with index `a`.
    pub fn atom(a: u32) -> (t: Term)
        ensures
            t == Term::Atom(a),
    {
        Term::Atom(a)
    }

    /// The atom `true` or the atom `false`.
    pub fn boolean(value: bool) -> (t: Term)
        ensures
            t == Term::Atom(
                if value {
                    atom::TRUE
                } else {
                    atom::FALSE
                },
            ),
    {
        if value {
            Term::Atom(atom::TRUE)
        } else {
            Term::Atom(atom::FALSE)
        }
    }

    /// The empty list.
    pub fn nil() -> (t: Term)
        ensures
            t == Term::Nil,
    {
        Term::Nil
    }

    /// The tuple of two elements.
    pub fn tup2(first: Term, second: Term) -> (t: Term)
        ensures
            t@ == TermView::Tuple(seq![first@, second@]),
            t is Tuple,
            t->Tuple_0@ == seq![first, second],
    {
        let mut elements: Vec<Term> = Vec::new();
        elements.push(first);
        elements.push(second);
        let t = Term::Tuple(elements);
        assert(t@->Tuple_0 =~= seq![first@, second@]);
        t
    }

    /// The list cell with this head and tail.
    pub fn cons(head: Term, tail: Term) -> (t: Term)
        ensures
            t == Term::Cons(Box::new(Cons { head, tail })),
    {
        Term::Cons(Box::new(Cons { head, tail }))
    }

    pub fn is_nil(&self) -> (r: bool)
        ensures
            r == (*self is Nil),
    {
        match self {
            Term::Nil => true,
            _ => false,
        }
    }

    /// A list is the empty list or a list cell.
    pub fn is_list(&self) -> (r: bool)
        ensures
            r == (*self is Nil || *self is Cons),
    {
        match self {
            Term::Nil => true,
            Term::Cons(_) => true,
            _ => false,
        }
    }

    pub fn is_pid(&self) -> (r: bool)
        ensures
            r == (*self is Pid),
    {
        match self {
            Term::Pid(_) => true,
            _ => false,
        }
    }

    /// A bitstring is a binary or a sub-binary.
    pub fn is_bitstring(&self) -> (r: bool)
        ensures
            r == (*self is Binary || *self is SubBinary),
    {
        match self {
            Term::Binary(_) => true,
            Term::SubBinary(_) => true,
            _ => false,
        }
    }

    /// A binary is a bitstring of whole bytes.
    pub fn is_binary(&self) -> (r: bool)
        ensures
            r == (match *self {
                Term::Binary(_) => true,
                Term::SubBinary(sb) => sb.bitsize % 8 == 0,
                _ => false,
            }),
    {
        match self {
            Term::Binary(_) => true,
            Term::SubBinary(sb) => sb.is_binary(),
            _ => false,
        }
    }

    /// The small integer that is not negative, as an unsigned number.
    pub fn to_uint(&self) -> (r: Option<u32>)
        ensures
            r == (match *self {
                Term::Int(i) => if i >= 0 {
                    Some(i as u32)
                } else {
                    None
                },
                _ => None,
            }),
    {
        match self {
            Term::Int(i) => {
                if *i >= 0 {
                    Some(*i as u32)
                } else {
                    None
                }
            },
            _ => None,
        }
    }

    /// The index of the atom.
    pub fn to_atom(&self) -> (r: Option<u32>)
        ensures
            r == (match *self {
                Term::Atom(a) => Some(a),
                _ => None,
            }),
    {
        match self {
            Term::Atom(a) => Some(*a),
            _ => None,
        }
    }
}

fn same_bytes(a: &Vec<u8>, b: &Vec<u8>) -> (r: bool)
    ensures
        r == (a@ == b@),
{
    if a.len() != b.len() {
        return false;
    }
    let mut i: usize = 0;
    while i < a.len()
        invariant
            i <= a.len(),
            a.len() == b.len(),
            forall|j: int| 0 <= j < i ==> a@[j] == b@[j],
        decreases a.len() - i,
    {
        if a[i] != b[i] {
            return false;
        }
        i = i + 1;
    }
    assert(a@ =~= b@);
    true
}

fn same_offsets(a: &Vec<usize>, b: &Vec<usize>) -> (r: bool)
    ensures
        r == (a@ == b@),
{
    if a.len() != b.len() {
        return false;
    }
    let mut i: usize = 0;
    while i < a.len()
        invariant
            i <= a.len(),
            a.len() == b.len(),
            forall|j: int| 0 <= j < i ==> a@[j] == b@[j],
        decreases a.len() - i,
    {
        if a[i] != b[i] {
            return false;
        }
        i = i + 1;
    }
    assert(a@ =~= b@);
    true
}

/// Whether two terms are the same value.
#[verifier::loop_isolation(false)]
pub fn term_eq(a: &Term, b: &Term) -> (r: bool)
    ensures
        r == (a@ == b@),
    decreases a,
{
    match a {
        Term::Nil => match b {
            Term::Nil => true,
            _ => false,
        },
        Term::Int(i) => match b {
            Term::Int(j) => *i == *j,
            _ => false,
        },
        Term::BigInt(x) => match b {
            Term::BigInt(y) => same_bytes(&x.digits, &y.digits),
            _ => false,
        },
        Term::Atom(i) => match b {
            Term::Atom(j) => *i == *j,
            _ => false,
        },
        Term::Pid(i) => match b {
            Term::Pid(j) => *i == *j,
            _ => false,
        },
        Term::Ref(i) => match b {
            Term::Ref(j) => *i == *j,
            _ => false,
        },
        Term::Cons(c) => match b {
            Term::Cons(d) => term_eq(&c.head, &d.head) && term_eq(&c.tail, &d.tail),
            _ => false,
        },
        Term::Tuple(v) => match b {
            Term::Tuple(w) => {
                if v.len() != w.len() {
                    assert(a@->Tuple_0.len() != b@->Tuple_0.len());
                    return false;
                }
                let mut i: usize = 0;
                while i < v.len()
                    invariant
                        i <= v.len(),
                        v.len() == w.len(),
                        forall|j: int| 0 <= j < i ==> v@[j]@ == w@[j]@,
                    decreases v.len() - i,
                {
                    proof {
                        vstd::std_specs::vec::axiom_vec_index_decreases(*v, i as int);
                    }
                    if !term_eq(&v[i], &w[i]) {
                        assert(a@->Tuple_0[i as int] != b@->Tuple_0[i as int]);
                        return false;
                    }
                    i = i + 1;
                }
                assert(a@->Tuple_0 =~= b@->Tuple_0);
                true
            },
            _ => false,
        },
        Term::Hamt(m) => match b {
            Term::Hamt(n) => match &m.root {
                Some(x) => match &n.root {
                    Some(y) => m.size == n.size && node_eq(&**x, &**y),
                    None => {
                        assert(node_view(**x) != NodeView::Empty);
                        false
                    },
                },
                None => match &n.root {
                    Some(y) => {
                        assert(node_view(**y) != NodeView::Empty);
                        false
                    },
                    None => m.size == n.size,
                },
            },
            _ => false,
        },
        Term::Binary(x) => match b {
            Term::Binary(y) => *x == *y,
            _ => false,
        },
        Term::SubBinary(x) => match b {
            Term::SubBinary(y) => *x == *y,
            _ => false,
        },
        Term::MatchState(x) => match b {
            Term::MatchState(y) => x.mb == y.mb && same_offsets(
                &x.saved_offsets,
                &y.saved_offsets,
            ),
            _ => false,
        },
        Term::Regex(x) => match b {
            Term::Regex(y) => *x == *y,
            _ => false,
        },
        Term::Module(x) => match b {
            Term::Module(y) => *x == *y,
            _ => false,
        },
        Term::Float(x) => match b {
            Term::Float(y) => *x == *y,
            _ => false,
        },
        Term::Export(x) => match b {
            Term::Export(y) => *x == *y,
            _ => false,
        },
    }
}

/// Whether two nodes are the same value.
#[verifier::loop_isolation(false)]
pub fn node_eq(a: &Node, b: &Node) -> (r: bool)
    ensures
        r == (node_view(*a) == node_view(*b)),
    decreases a,
{
    match a {
        Node::Leaf(v) => match b {
            Node::Leaf(w) => {
                if v.len() != w.len() {
                    assert(node_view(*a)->Leaf_0.len() != node_view(*b)->Leaf_0.len());
                    return false;
                }
                let mut i: usize = 0;
                while i < v.len()
                    invariant
                        i <= v.len(),
                        v.len() == w.len(),
                        forall|j: int|
                            0 <= j < i ==> v@[j].0@ == w@[j].0@ && v@[j].1@ == w@[j].1@,
                    decreases v.len() - i,
                {
                    proof {
                        vstd::std_specs::vec::axiom_vec_index_decreases(*v, i as int);
                    }
                    if !term_eq(&v[i].0, &w[i].0) || !term_eq(&v[i].1, &w[i].1) {
                        assert(node_view(*a)->Leaf_0[i as int] != node_view(*b)->Leaf_0[i as int]);
                        return false;
                    }
                    i = i + 1;
                }
                assert(node_view(*a)->Leaf_0 =~= node_view(*b)->Leaf_0);
                true
            },
            _ => false,
        },
        Node::Branch { bitmap: x, children: c } => match b {
            Node::Branch { bitmap: y, children: d } => {
                if *x != *y {
                    return false;
                }
                if c.len() != d.len() {
                    assert(node_view(*a)->Branch_1.len() != node_view(*b)->Branch_1.len());
                    return false;
                }
                let mut i: usize = 0;
                while i < c.len()
                    invariant
                        i <= c.len(),
                        c.len() == d.len(),
                        forall|j: int|
                            0 <= j < i ==> node_view(*a)->Branch_1[j] == node_view(*b)->Branch_1[j],
                    decreases c.len() - i,
                {
                    proof {
                        vstd::std_specs::vec::axiom_vec_index_decreases(*c, i as int);
                    }
                    if !node_eq(&*c[i], &*d[i]) {
                        assert(node_view(*a)->Branch_1[i as int] != node_view(*b)->Branch_1[i as int]);
                        return false;
                    }
                    i = i + 1;
                }
                assert(node_view(*a)->Branch_1 =~= node_view(*b)->Branch_1);
                true
            },
            _ => false,
        },
    }
}

/// A hash and a number, stirred into a hash.
pub open spec fn mix(h: u32, x: u32) -> u32 {
    ((h as int * 31 + x as int) % 0x1_0000_0000) as u32
}

fn stir(h: u32, x: u32) -> (r: u32)
    ensures
        r == mix(h, x),
{
    ((h as u64 * 31 + x as u64) % 0x1_0000_0000) as u32
}

/// The hash of the digits of a bignum.
pub open spec fn bytes_hash(s: Seq<u8>) -> u32
    decreases s.len(),
{
    if s.len() == 0 {
        4
    } else {
        mix(bytes_hash(s.drop_last()), s.last() as u32)
    }
}

/// The hash of the first `n` elements of a tuple.
pub open spec fn seq_hash(s: Seq<TermView>, n: int) -> u32
    decreases s, n,
{
    if n <= 0 || n > s.len() {
        8
    } else {
        mix(seq_hash(s, n - 1), term_hash(s[n - 1]))
    }
}

/// The hash of a term: terms that are the same value have the same hash.
pub open spec fn term_hash(t: TermView) -> u32
    decreases t,
{
    match t {
        TermView::Nil => 1,
        TermView::Int(i) => mix(2, (i % 0x1_0000_0000) as u32),
        TermView::BigInt(d) => bytes_hash(d),
        TermView::Atom(a) => mix(3, a),
        TermView::Pid(p) => mix(5, p),
        TermView::Ref(r) => mix(6, (r % 0x1_0000_0000) as u32),
        TermView::Cons(head, tail) => mix(mix(7, term_hash(*head)), term_hash(*tail)),
        TermView::Tuple(s) => seq_hash(s, s.len() as int),
        TermView::Hamt(_, _) => 9,
        TermView::Binary(rc) => mix(10, (rc.0 as int % 0x1_0000_0000) as u32),
        TermView::SubBinary(sb) => mix(
            mix(11, (sb.original.0 as int % 0x1_0000_0000) as u32),
            (sb.offset as int % 0x1_0000_0000) as u32,
        ),
        TermView::MatchState(_, _) => 12,
        TermView::Regex(_) => 13,
        TermView::Module(m) => mix(14, (m as int % 0x1_0000_0000) as u32),
        TermView::Float(b) => mix(15, (b % 0x1_0000_0000) as u32),
        TermView::Export(mfa) => mix(mix(mix(16, mfa.0), mfa.1), mfa.2),
    }
}

/// The hash of a term.
#[verifier::loop_isolation(false)]
pub fn hash_term(t: &Term) -> (r: u32)
    ensures
        r == term_hash(t@),
    decreases t,
{
    match t {
        Term::Nil => 1,
        Term::Int(i) => {
            let low: u32 = if *i >= 0 {
                *i as u32
            } else {
                (*i as i64 + 0x1_0000_0000) as u32
            };
            stir(2, low)
        },
        Term::BigInt(b) => {
            let mut h: u32 = 4;
            let mut i: usize = 0;
            assert(b.digits@.subrange(0, 0) =~= Seq::<u8>::empty());
            while i < b.digits.len()
                invariant
                    i <= b.digits.len(),
                    h == bytes_hash(b.digits@.subrange(0, i as int)),
                decreases b.digits.len() - i,
            {
                assert(b.digits@.subrange(0, i + 1).drop_last() =~= b.digits@.subrange(
                    0,
                    i as int,
                ));
                h = stir(h, b.digits[i] as u32);
                i = i + 1;
            }
            assert(b.digits@.subrange(0, b.digits.len() as int) =~= b.digits@);
            h
        },
        Term::Atom(a) => stir(3, *a),
        Term::Pid(p) => stir(5, *p),
        Term::Ref(r) => stir(6, (*r % 0x1_0000_0000) as u32),
        Term::Cons(c) => {
            let head = hash_term(&c.head);
            let tail = hash_term(&c.tail);
            stir(stir(7, head), tail)
        },
        Term::Tuple(v) => {
            let mut h: u32 = 8;
            let mut i: usize = 0;
            while i < v.len()
                invariant
                    i <= v.len(),
                    h == seq_hash(t@->Tuple_0, i as int),
                decreases v.len() - i,
            {
                proof {
                    vstd::std_specs::vec::axiom_vec_index_decreases(*v, i as int);
                }
                let e = hash_term(&v[i]);
                assert(t@->Tuple_0[i as int] == v@[i as int]@);
                h = stir(h, e);
                i = i + 1;
            }
            h
        },
        Term::Hamt(_) => 9,
        Term::Binary(rc) => stir(10, (rc.0 as u64 % 0x1_0000_0000) as u32),
        Term::SubBinary(sb) => stir(
            stir(11, (sb.original.0 as u64 % 0x1_0000_0000) as u32),
            (sb.offset as u64 % 0x1_0000_0000) as u32,
        ),
        Term::MatchState(_) => 12,
        Term::Regex(_) => 13,
        Term::Module(m) => stir(14, (*m as u64 % 0x1_0000_0000) as u32),
        Term::Float(b) => stir(15, (*b % 0x1_0000_0000) as u32),
        Term::Export(mfa) => stir(stir(stir(16, mfa.0), mfa.1), mfa.2),
    }
}

} // verus!
