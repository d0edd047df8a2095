//! An order of the terms. A term is written down as a sequence of numbers,
//! its code, and two terms are ordered as their codes are, number by
//! number. The keys of one leaf of a map are kept in this order.
use crate::value::map::Node;
use crate::value::{node_view, NodeView, Term, TermView};
use vstd::prelude::*;
use vstd::string::StrSliceExecFns;

verus! {

/// The numbers `i ..` of `a` come before the numbers `i ..` of `b`: at the
/// first place where they differ `a` has the smaller number, or `a` ends
/// there and `b` does not.
pub open spec fn less_from(a: Seq<u64>, b: Seq<u64>, i: int) -> bool
    decreases a.len() - i,
{
    if i >= b.len() {
        false
    } else if i >= a.len() {
        true
    } else if a[i] != b[i] {
        a[i] < b[i]
    } else {
        less_from(a, b, i + 1)
    }
}

/// The sequence `a` comes before the sequence `b`.
pub open spec fn lex_less(a: Seq<u64>, b: Seq<u64>) -> bool {
    less_from(a, b, 0)
}

/// Of two sequences at most one comes before the other.
pub proof fn lemma_less_asymmetric(a: Seq<u64>, b: Seq<u64>, i: int)
    requires
        0 <= i,
        less_from(a, b, i),
    ensures
        !less_from(b, a, i),
    decreases a.len() - i,
{
    if i < a.len() && i < b.len() && a[i] == b[i] {
        lemma_less_asymmetric(a, b, i + 1);
    }
}

/// Where `a` does not come before `b`, nor `b` before `c`, `a` does not
/// come before `c`.
pub proof fn lemma_less_chain(a: Seq<u64>, b: Seq<u64>, c: Seq<u64>, i: int)
    requires
        0 <= i,
        !less_from(a, b, i),
        !less_from(b, c, i),
    ensures
        !less_from(a, c, i),
    decreases c.len() - i,
{
    if i < c.len() && i < b.len() && i < a.len() && a[i] == b[i] && b[i] == c[i] {
        lemma_less_chain(a, b, c, i + 1);
    }
}

/// Sequences of which neither comes before the other are the same from
/// `i` on.
pub proof fn lemma_less_total(a: Seq<u64>, b: Seq<u64>, i: int)
    requires
        0 <= i <= a.len(),
        i <= b.len(),
        !less_from(a, b, i),
        !less_from(b, a, i),
    ensures
        a.len() == b.len(),
        forall|j: int| i <= j < a.len() ==> a[j] == b[j],
    decreases a.len() - i,
{
    if i < a.len() && i < b.len() {
        lemma_less_total(a, b, i + 1);
    }
}

/// Whether `a` comes before `b`.
pub fn sequence_less(a: &Vec<u64>, b: &Vec<u64>) -> (r: bool)
    ensures
        r == lex_less(a@, b@),
{
    let mut i: usize = 0;
    while i < a.len() && i < b.len()
        invariant
            i <= a.len(),
            i <= b.len(),
            lex_less(a@, b@) == less_from(a@, b@, i as int),
        decreases a.len() - i,
    {
        if a[i] != b[i] {
            return a[i] < b[i];
        }
        i = i + 1;
    }
    i < b.len()
}

/// The digits of a bignum as numbers of the code.
pub open spec fn bytes_code(d: Seq<u8>) -> Seq<u64> {
    Seq::new(d.len(), |i: int| d[i] as u64)
}

/// Saved offsets as numbers of the code.
pub open spec fn offsets_code(d: Seq<usize>) -> Seq<u64> {
    Seq::new(d.len(), |i: int| d[i] as u64)
}

/// Characters as numbers of the code: each is one more than the number of
/// the character, so that none is zero.
pub open spec fn chars_code(d: Seq<char>) -> Seq<u64> {
    Seq::new(d.len(), |i: int| (d[i] as u32 as u64 + 1) as u64)
}

/// The code of a term: the kind of the term, and then what the term holds,
/// each collection after its length, text before a zero.
pub open spec fn term_code(t: TermView) -> Seq<u64>
    decreases t,
{
    match t {
        TermView::Nil => seq![0u64],
        TermView::Int(i) => seq![1u64, (i + 0x8000_0000) as u64],
        TermView::BigInt(d) => seq![2u64, d.len() as u64] + bytes_code(d),
        TermView::Atom(a) => seq![3u64, a as u64],
        TermView::Pid(p) => seq![4u64, p as u64],
        TermView::Ref(r) => seq![5u64, r],
        TermView::Cons(head, tail) => seq![6u64] + term_code(*head) + term_code(*tail),
        TermView::Tuple(s) => seq![7u64, s.len() as u64] + terms_code(s, 0),
        TermView::Hamt(size, n) => seq![8u64, size as u64] + node_code(n),
        TermView::Binary(rc) => seq![9u64, rc.0 as u64],
        TermView::SubBinary(sb) => seq![
            10u64,
            sb.original.0 as u64,
            sb.size as u64,
            sb.offset as u64,
            sb.bitsize as u64,
            sb.bit_offset as u64,
            if sb.is_writable {
                1u64
            } else {
                0u64
            },
        ],
        TermView::MatchState(mb, saved) => seq![
            11u64,
            mb.original.0 as u64,
            mb.offset as u64,
            mb.size as u64,
            saved.len() as u64,
        ] + offsets_code(saved),
        TermView::Regex(s) => seq![12u64] + chars_code(s) + seq![0u64],
        TermView::Module(m) => seq![13u64, m as u64],
        TermView::Float(b) => seq![14u64, b],
        TermView::Export(mfa) => seq![15u64, mfa.0 as u64, mfa.1 as u64, mfa.2 as u64],
    }
}

/// The codes of the terms from the `i`-th on, one after the other.
pub open spec fn terms_code(s: Seq<TermView>, i: int) -> Seq<u64>
    decreases s, s.len() - i,
{
    if i < 0 || i >= s.len() {
        Seq::empty()
    } else {
        term_code(s[i]) + terms_code(s, i + 1)
    }
}

/// The code of a node of a map's trie.
pub open spec fn node_code(n: NodeView) -> Seq<u64>
    decreases n,
{
    match n {
        NodeView::Empty => seq![0u64],
        NodeView::Leaf(entries) => seq![1u64, entries.len() as u64] + entries_code(
            entries,
            0,
        ),
        NodeView::Branch(bitmap, children) => seq![2u64, bitmap as u64, children.len() as u64]
            + nodes_code(children, 0),
    }
}

/// The codes of the entries of a leaf from the `i`-th on: of each its key
/// and its value.
pub open spec fn entries_code(s: Seq<(TermView, TermView)>, i: int) -> Seq<u64>
    decreases s, s.len() - i,
{
    if i < 0 || i >= s.len() {
        Seq::empty()
    } else {
        term_code(s[i].0) + term_code(s[i].1) + entries_code(s, i + 1)
    }
}

/// The codes of the children of a branch from the `i`-th on.
pub open spec fn nodes_code(s: Seq<NodeView>, i: int) -> Seq<u64>
    decreases s, s.len() - i,
{
    if i < 0 || i >= s.len() {
        Seq::empty()
    } else {
        node_code(s[i]) + nodes_code(s, i + 1)
    }
}

/// Writes the code of a term behind what `out` holds.
#[verifier::loop_isolation(false)]
pub fn encode_term(t: &Term, out: &mut Vec<u64>)
    ensures
        final(out)@ == old(out)@ + term_code(t@),
    decreases t,
{
    let ghost base = out@;
    match t {
        Term::Nil => {
            out.push(0);
            assert(out@ =~= base + term_code(t@));
        },
        Term::Int(i) => {
            out.push(1);
            out.push((*i as i64 + 0x8000_0000) as u64);
            assert(out@ =~= base + term_code(t@));
        },
        Term::BigInt(b) => {
            out.push(2);
            out.push(b.digits.len() as u64);
            let ghost head = out@;
            let mut i: usize = 0;
            while i < b.digits.len()
                invariant
                    i <= b.digits.len(),
                    out@ == head + bytes_code(b.digits@).subrange(0, i as int),
                decreases b.digits.len() - i,
            {
                let ghost before = out@;
                out.push(b.digits[i] as u64);
                assert(out@ =~= head + bytes_code(b.digits@).subrange(0, i + 1));
                i = i + 1;
            }
            assert(bytes_code(b.digits@).subrange(0, i as int) =~= bytes_code(b.digits@));
            assert(out@ =~= base + term_code(t@));
        },
        Term::Atom(a) => {
            out.push(3);
            out.push(*a as u64);
            assert(out@ =~= base + term_code(t@));
        },
        Term::Pid(p) => {
            out.push(4);
            out.push(*p as u64);
            assert(out@ =~= base + term_code(t@));
        },
        Term::Ref(r) => {
            out.push(5);
            out.push(*r);
            assert(out@ =~= base + term_code(t@));
        },
        Term::Cons(c) => {
            out.push(6);
            encode_term(&c.head, out);
            encode_term(&c.tail, out);
            assert(out@ =~= base + term_code(t@));
        },
        Term::Tuple(v) => {
            out.push(7);
            out.push(v.len() as u64);
            let ghost head = out@;
            let ghost views = t@->Tuple_0;
            let mut i: usize = 0;
            while i < v.len()
                invariant
                    i <= v.len(),
                    views.len() == v.len(),
                    out@ + terms_code(views, i as int) == head + terms_code(views, 0),
                decreases v.len() - i,
            {
                proof {
                    vstd::std_specs::vec::axiom_vec_index_decreases(*v, i as int);
                    assert(views[i as int] == v@[i as int]@);
                }
                let ghost before = out@;
                encode_term(&v[i], out);
                assert(out@ + terms_code(views, i + 1) =~= before + terms_code(views, i as int));
                i = i + 1;
            }
            assert(out@ =~= base + term_code(t@));
        },
        Term::Hamt(m) => {
            out.push(8);
            out.push(m.size as u64);
            let ghost head = out@;
            match &m.root {
                Some(root) => {
                    encode_node(&**root, out);
                    assert(t@ == TermView::Hamt(m.size, node_view(**root)));
                    assert(out@ == head + node_code(node_view(**root)));
                },
                None => {
                    out.push(0);
                    assert(t@ == TermView::Hamt(m.size, NodeView::Empty));
                    assert(out@ =~= head + node_code(NodeView::Empty));
                },
            }
            assert(out@ =~= base + term_code(t@));
        },
        Term::Binary(rc) => {
            out.push(9);
            out.push(rc.0 as u64);
            assert(out@ =~= base + term_code(t@));
        },
        Term::SubBinary(sb) => {
            out.push(10);
            out.push(sb.original.0 as u64);
            out.push(sb.size as u64);
            out.push(sb.offset as u64);
            out.push(sb.bitsize as u64);
            out.push(sb.bit_offset as u64);
            out.push(
                if sb.is_writable {
                    1
                } else {
                    0
                },
            );
            assert(out@ =~= base + term_code(t@));
        },
        Term::MatchState(ms) => {
            out.push(11);
            out.push(ms.mb.original.0 as u64);
            out.push(ms.mb.offset as u64);
            out.push(ms.mb.size as u64);
            out.push(ms.saved_offsets.len() as u64);
            let ghost head = out@;
            let mut i: usize = 0;
            while i < ms.saved_offsets.len()
                invariant
                    i <= ms.saved_offsets.len(),
                    out@ == head + offsets_code(ms.saved_offsets@).subrange(0, i as int),
                decreases ms.saved_offsets.len() - i,
            {
                let ghost before = out@;
                out.push(ms.saved_offsets[i] as u64);
                assert(out@ =~= head + offsets_code(ms.saved_offsets@).subrange(0, i + 1));
                i = i + 1;
            }
            assert(offsets_code(ms.saved_offsets@).subrange(0, i as int) =~= offsets_code(
                ms.saved_offsets@,
            ));
            assert(out@ =~= base + term_code(t@));
        },
        Term::Regex(s) => {
            out.push(12);
            let text: &str = s.as_str();
            let count: usize = text.unicode_len();
            let ghost head = out@;
            let mut i: usize = 0;
            while i < count
                invariant
                    i <= count,
                    count == text@.len(),
                    text@ == s@,
                    out@ == head + chars_code(s@).subrange(0, i as int),
                decreases count - i,
            {
                let ghost before = out@;
                let c: char = text.get_char(i);
                out.push(c as u32 as u64 + 1);
                assert(out@ =~= head + chars_code(s@).subrange(0, i + 1));
                i = i + 1;
            }
            assert(chars_code(s@).subrange(0, i as int) =~= chars_code(s@));
            out.push(0);
            assert(out@ =~= base + term_code(t@));
        },
        Term::Module(m) => {
            out.push(13);
            out.push(*m as u64);
            assert(out@ =~= base + term_code(t@));
        },
        Term::Float(b) => {
            out.push(14);
            out.push(*b);
            assert(out@ =~= base + term_code(t@));
        },
        Term::Export(mfa) => {
            out.push(15);
            out.push(mfa.0 as u64);
            out.push(mfa.1 as u64);
            out.push(mfa.2 as u64);
            assert(out@ =~= base + term_code(t@));
        },
    }
}

/// Writes the code of a node behind what `out` holds.
#[verifier::loop_isolation(false)]
pub fn encode_node(n: &Node, out: &mut Vec<u64>)
    ensures
        final(out)@ == old(out)@ + node_code(node_view(*n)),
    decreases n,
{
    let ghost base = out@;
    match n {
        Node::Leaf(v) => {
            out.push(1);
            out.push(v.len() as u64);
            let ghost head = out@;
            let ghost views = node_view(*n)->Leaf_0;
            let mut i: usize = 0;
            while i < v.len()
                invariant
                    i <= v.len(),
                    views.len() == v.len(),
                    out@ + entries_code(views, i as int) == head + entries_code(views, 0),
                decreases v.len() - i,
            {
                proof {
                    vstd::std_specs::vec::axiom_vec_index_decreases(*v, i as int);
                    assert(views[i as int] == (v@[i as int].0@, v@[i as int].1@));
                }
                let ghost before = out@;
                encode_term(&v[i].0, out);
                encode_term(&v[i].1, out);
                assert(out@ + entries_code(views, i + 1) =~= before + entries_code(views, i as int));
                i = i + 1;
            }
            assert(out@ =~= base + node_code(node_view(*n)));
        },
        Node::Branch { bitmap, children } => {
            out.push(2);
            out.push(*bitmap as u64);
            out.push(children.len() as u64);
            let ghost head = out@;
            let ghost views = node_view(*n)->Branch_1;
            let mut i: usize = 0;
            while i < children.len()
                invariant
                    i <= children.len(),
                    views.len() == children.len(),
                    out@ + nodes_code(views, i as int) == head + nodes_code(views, 0),
                decreases children.len() - i,
            {
                proof {
                    vstd::std_specs::vec::axiom_vec_index_decreases(*children, i as int);
                    assert(views[i as int] == node_view(*children@[i as int]));
                }
                let ghost before = out@;
                encode_node(&*children[i], out);
                assert(out@ + nodes_code(views, i + 1) =~= before + nodes_code(views, i as int));
                i = i + 1;
            }
            assert(out@ =~= base + node_code(node_view(*n)));
        },
    }
}

/// Sequences that start with parts of one length and agree, agree part for
/// part.
proof fn lemma_cut(a: Seq<u64>, r: Seq<u64>, b: Seq<u64>, s: Seq<u64>)
    requires
        a + r == b + s,
        a.len() == b.len(),
    ensures
        a == b,
        r == s,
{
    let x = a + r;
    let y = b + s;
    assert(x.len() == a.len() + r.len());
    assert(y.len() == b.len() + s.len());
    assert(r.len() == s.len());
    assert forall|i: int| 0 <= i < a.len() implies a[i] == b[i] by {
        assert(x[i] == a[i] && y[i] == b[i]);
    }
    assert(a =~= b);
    assert forall|i: int| 0 <= i < r.len() implies r[i] == s[i] by {
        assert(x[a.len() + i] == r[i] && y[b.len() + i] == s[i]);
    }
    assert(r =~= s);
}

/// The number that the code of each kind of term starts with.
pub open spec fn kind_of(t: Term) -> u64 {
    match t {
        Term::Nil => 0,
        Term::Int(_) => 1,
        Term::BigInt(_) => 2,
        Term::Atom(_) => 3,
        Term::Pid(_) => 4,
        Term::Ref(_) => 5,
        Term::Cons(_) => 6,
        Term::Tuple(_) => 7,
        Term::Hamt(_) => 8,
        Term::Binary(_) => 9,
        Term::SubBinary(_) => 10,
        Term::MatchState(_) => 11,
        Term::Regex(_) => 12,
        Term::Module(_) => 13,
        Term::Float(_) => 14,
        Term::Export(_) => 15,
    }
}

/// The code of a term starts with the number of its kind.
proof fn lemma_kind(t: &Term)
    ensures
        term_code(t@).len() >= 1,
        term_code(t@)[0] == kind_of(*t),
{
}

/// The parts of the codes of two terms that hold no other term.
proof fn lemma_plain_parts(a: &Term, b: &Term, r: Seq<u64>, s: Seq<u64>)
    requires
        term_code(a@) + r == term_code(b@) + s,
        kind_of(*a) == kind_of(*b),
        !(a is Cons) && !(a is Tuple) && !(a is Hamt) && !(a is BigInt) && !(a is MatchState) && !(
        a is Regex),
    ensures
        a@ == b@,
        r == s,
{
    let ca = term_code(a@);
    let cb = term_code(b@);
    assert(ca.len() == cb.len());
    lemma_cut(ca, r, cb, s);
    match a {
        Term::Nil => {},
        Term::SubBinary(p) => {
            let q = b->SubBinary_0;
            assert(ca[1] == cb[1] && ca[2] == cb[2] && ca[3] == cb[3] && ca[4] == cb[4] && ca[5]
                == cb[5] && ca[6] == cb[6]);
            assert(*p == q);
        },
        Term::Export(p) => {
            assert(ca[1] == cb[1] && ca[2] == cb[2] && ca[3] == cb[3]);
        },
        _ => {
            assert(ca[1] == cb[1]);
        },
    }
}

/// The parts of the codes of two bignums.
proof fn lemma_digits_parts(a: &Term, b: &Term, r: Seq<u64>, s: Seq<u64>)
    requires
        term_code(a@) + r == term_code(b@) + s,
        a is BigInt,
        b is BigInt,
    ensures
        a@ == b@,
        r == s,
{
    let d = a->BigInt_0.digits;
    let e = b->BigInt_0.digits;
    let ca = term_code(a@);
    let cb = term_code(b@);
    assert((ca + r)[1] == ca[1] && (cb + s)[1] == cb[1]);
    assert(d.len() == e.len());
    lemma_cut(ca, r, cb, s);
    assert forall|j: int| 0 <= j < d.len() implies d@[j] == e@[j] by {
        assert(ca[2 + j] == d@[j] as u64);
        assert(cb[2 + j] == e@[j] as u64);
    }
    assert(d@ =~= e@);
}

/// The parts of the codes of two match states.
proof fn lemma_offsets_parts(a: &Term, b: &Term, r: Seq<u64>, s: Seq<u64>)
    requires
        term_code(a@) + r == term_code(b@) + s,
        a is MatchState,
        b is MatchState,
    ensures
        a@ == b@,
        r == s,
{
    let p = a->MatchState_0;
    let q = b->MatchState_0;
    let ca = term_code(a@);
    let cb = term_code(b@);
    assert((ca + r)[4] == ca[4] && (cb + s)[4] == cb[4]);
    assert(p.saved_offsets.len() == q.saved_offsets.len());
    lemma_cut(ca, r, cb, s);
    assert(ca[1] == cb[1] && ca[2] == cb[2] && ca[3] == cb[3]);
    assert forall|j: int| 0 <= j < p.saved_offsets.len() implies p.saved_offsets@[j]
        == q.saved_offsets@[j] by {
        assert(ca[5 + j] == p.saved_offsets@[j] as u64);
        assert(cb[5 + j] == q.saved_offsets@[j] as u64);
    }
    assert(p.saved_offsets@ =~= q.saved_offsets@);
    assert(p.mb == q.mb);
}

/// The parts of the codes of two compiled patterns.
proof fn lemma_text_parts(a: &Term, b: &Term, r: Seq<u64>, s: Seq<u64>)
    requires
        term_code(a@) + r == term_code(b@) + s,
        a is Regex,
        b is Regex,
    ensures
        a@ == b@,
        r == s,
{
    let p = a->Regex_0@;
    let q = b->Regex_0@;
    let ca = term_code(a@);
    let cb = term_code(b@);
    let x = ca + r;
    let y = cb + s;
    // the first zero ends the text of both
    let m = p.len() as int;
    let n = q.len() as int;
    if m < n {
        assert(x[1 + m] == ca[1 + m]);
        assert(y[1 + m] == cb[1 + m]);
        assert(cb[1 + m] == chars_code(q)[m]);
        assert(false);
    }
    if n < m {
        assert(x[1 + n] == ca[1 + n]);
        assert(y[1 + n] == cb[1 + n]);
        assert(ca[1 + n] == chars_code(p)[n]);
        assert(false);
    }
    lemma_cut(ca, r, cb, s);
    assert forall|j: int| 0 <= j < p.len() implies p[j] == q[j] by {
        assert(ca[1 + j] == chars_code(p)[j]);
        assert(cb[1 + j] == chars_code(q)[j]);
        let u = p[j] as u32;
        assert(u == q[j] as u32);
        vstd::utf8::char_u32_cast(p[j], u);
        vstd::utf8::char_u32_cast(q[j], u);
    }
    assert(p =~= q);
}

/// No two terms have one code, and no code of a term starts with the code
/// of another: codes that are followed by anything and agree are the codes
/// of one term, followed by the same.
pub proof fn lemma_code_parts(a: &Term, b: &Term, r: Seq<u64>, s: Seq<u64>)
    requires
        term_code(a@) + r == term_code(b@) + s,
    ensures
        a@ == b@,
        r == s,
    decreases a, 0nat,
{
    let x = term_code(a@) + r;
    let y = term_code(b@) + s;
    let ca = term_code(a@);
    let cb = term_code(b@);
    lemma_kind(a);
    lemma_kind(b);
    assert(x[0] == ca[0] && y[0] == cb[0]);
    assert(kind_of(*a) == kind_of(*b));
    match a {
        Term::BigInt(_) => {
            lemma_digits_parts(a, b, r, s);
        },
        Term::MatchState(_) => {
            lemma_offsets_parts(a, b, r, s);
        },
        Term::Regex(_) => {
            lemma_text_parts(a, b, r, s);
        },
        Term::Cons(c) => {
            let d = b->Cons_0;
            let ra = term_code(c.tail@) + r;
            let rb = term_code(d.tail@) + s;
            assert(term_code(c.head@) + ra =~= x.subrange(1, x.len() as int));
            assert(term_code(d.head@) + rb =~= y.subrange(1, y.len() as int));
            lemma_code_parts(&c.head, &d.head, ra, rb);
            lemma_code_parts(&c.tail, &d.tail, r, s);
        },
        Term::Tuple(v) => {
            let w = b->Tuple_0;
            let sv = a@->Tuple_0;
            let sw = b@->Tuple_0;
            assert(x[1] == ca[1] && y[1] == cb[1]);
            assert(v.len() == w.len());
            assert(terms_code(sv, 0) + r =~= x.subrange(2, x.len() as int));
            assert(terms_code(sw, 0) + s =~= y.subrange(2, y.len() as int));
            lemma_terms_parts(v, &w, sv, sw, 0, r, s);
            assert(sv =~= sw);
        },
        Term::Hamt(m) => {
            let n = b->Hamt_0;
            let va = a@->Hamt_1;
            let vb = b@->Hamt_1;
            assert(x[1] == ca[1] && y[1] == cb[1]);
            assert(m.size == n.size);
            assert(node_code(va) + r =~= x.subrange(2, x.len() as int));
            assert(node_code(vb) + s =~= y.subrange(2, y.len() as int));
            assert((node_code(va) + r)[0] == node_code(va)[0]);
            assert((node_code(vb) + s)[0] == node_code(vb)[0]);
            match (m.root, n.root) {
                (Some(p), Some(q)) => {
                    assert(va == node_view(*p) && vb == node_view(*q));
                    lemma_node_parts(&*p, &*q, r, s);
                },
                (None, None) => {
                    lemma_cut(node_code(va), r, node_code(vb), s);
                },
                (Some(p), None) => {
                    assert(va == node_view(*p));
                    assert(node_code(va)[0] != 0);
                },
                (None, Some(q)) => {
                    assert(vb == node_view(*q));
                    assert(node_code(vb)[0] != 0);
                },
            }
        },
        _ => {
            lemma_plain_parts(a, b, r, s);
        },
    }
}

/// The codes of the terms of two tuples of one length, from the `i`-th on,
/// agree only where the terms do.
proof fn lemma_terms_parts(
    v: &Vec<Term>,
    w: &Vec<Term>,
    sv: Seq<TermView>,
    sw: Seq<TermView>,
    i: int,
    r: Seq<u64>,
    s: Seq<u64>,
)
    requires
        v.len() == w.len(),
        sv.len() == v.len(),
        sw.len() == w.len(),
        forall|j: int| 0 <= j < v.len() ==> #[trigger] sv[j] == v@[j]@,
        forall|j: int| 0 <= j < w.len() ==> #[trigger] sw[j] == w@[j]@,
        0 <= i <= v.len(),
        terms_code(sv, i) + r == terms_code(sw, i) + s,
    ensures
        forall|j: int| i <= j < v.len() ==> #[trigger] sv[j] == sw[j],
        r == s,
    decreases v, v.len() - i,
{
    if i < v.len() {
        let ra = terms_code(sv, i + 1) + r;
        let rb = terms_code(sw, i + 1) + s;
        assert(term_code(sv[i]) + ra =~= terms_code(sv, i) + r);
        assert(term_code(sw[i]) + rb =~= terms_code(sw, i) + s);
        assert(sv[i] == v@[i]@ && sw[i] == w@[i]@);
        vstd::std_specs::vec::axiom_vec_index_decreases(*v, i);
        lemma_code_parts(&v[i], &w[i], ra, rb);
        lemma_terms_parts(v, w, sv, sw, i + 1, r, s);
    } else {
        assert(terms_code(sv, i) =~= Seq::<u64>::empty());
        assert(terms_code(sw, i) =~= Seq::<u64>::empty());
        assert(r =~= terms_code(sv, i) + r);
        assert(s =~= terms_code(sw, i) + s);
    }
}

/// Codes of nodes that are followed by anything and agree are the codes of
/// one node, followed by the same.
proof fn lemma_node_parts(a: &Node, b: &Node, r: Seq<u64>, s: Seq<u64>)
    requires
        node_code(node_view(*a)) + r == node_code(node_view(*b)) + s,
    ensures
        node_view(*a) == node_view(*b),
        r == s,
    decreases a, 0nat,
{
    let ca = node_code(node_view(*a));
    let cb = node_code(node_view(*b));
    let x = ca + r;
    let y = cb + s;
    assert(x[0] == ca[0] && y[0] == cb[0]);
    assert(x[1] == ca[1] && y[1] == cb[1]);
    match a {
        Node::Leaf(v) => {
            assert(b is Leaf);
            let w = b->Leaf_0;
            let sv = node_view(*a)->Leaf_0;
            let sw = node_view(*b)->Leaf_0;
            assert(v.len() == w.len());
            assert(entries_code(sv, 0) + r =~= x.subrange(2, x.len() as int));
            assert(entries_code(sw, 0) + s =~= y.subrange(2, y.len() as int));
            lemma_entries_parts(v, &w, sv, sw, 0, r, s);
            assert(sv =~= sw);
        },
        Node::Branch { bitmap, children } => {
            assert(b is Branch);
            let d = b->Branch_children;
            let sv = node_view(*a)->Branch_1;
            let sw = node_view(*b)->Branch_1;
            assert(x[2] == ca[2] && y[2] == cb[2]);
            assert(children.len() == d.len());
            assert(*bitmap == b->Branch_bitmap);
            assert(nodes_code(sv, 0) + r =~= x.subrange(3, x.len() as int));
            assert(nodes_code(sw, 0) + s =~= y.subrange(3, y.len() as int));
            lemma_nodes_parts(children, &d, sv, sw, 0, r, s);
            assert(sv =~= sw);
        },
    }
}

/// The codes of the entries of two leaves of one length, from the `i`-th
/// on, agree only where the entries do.
proof fn lemma_entries_parts(
    v: &Vec<(Term, Term)>,
    w: &Vec<(Term, Term)>,
    sv: Seq<(TermView, TermView)>,
    sw: Seq<(TermView, TermView)>,
    i: int,
    r: Seq<u64>,
    s: Seq<u64>,
)
    requires
        v.len() == w.len(),
        sv.len() == v.len(),
        sw.len() == w.len(),
        forall|j: int| 0 <= j < v.len() ==> #[trigger] sv[j] == (v@[j].0@, v@[j].1@),
        forall|j: int| 0 <= j < w.len() ==> #[trigger] sw[j] == (w@[j].0@, w@[j].1@),
        0 <= i <= v.len(),
        entries_code(sv, i) + r == entries_code(sw, i) + s,
    ensures
        forall|j: int| i <= j < v.len() ==> #[trigger] sv[j] == sw[j],
        r == s,
    decreases v, v.len() - i,
{
    if i < v.len() {
        let ra = entries_code(sv, i + 1) + r;
        let rb = entries_code(sw, i + 1) + s;
        let ka = term_code(sv[i].1) + ra;
        let kb = term_code(sw[i].1) + rb;
        assert(term_code(sv[i].0) + ka =~= entries_code(sv, i) + r);
        assert(term_code(sw[i].0) + kb =~= entries_code(sw, i) + s);
        assert(sv[i] == (v@[i].0@, v@[i].1@) && sw[i] == (w@[i].0@, w@[i].1@));
        vstd::std_specs::vec::axiom_vec_index_decreases(*v, i);
        lemma_code_parts(&v[i].0, &w[i].0, ka, kb);
        lemma_code_parts(&v[i].1, &w[i].1, ra, rb);
        lemma_entries_parts(v, w, sv, sw, i + 1, r, s);
    } else {
        assert(entries_code(sv, i) =~= Seq::<u64>::empty());
        assert(entries_code(sw, i) =~= Seq::<u64>::empty());
        assert(r =~= entries_code(sv, i) + r);
        assert(s =~= entries_code(sw, i) + s);
    }
}

/// The codes of the children of two branches with as many children, from
/// the `i`-th on, agree only where the children do.
proof fn lemma_nodes_parts(
    v: &Vec<std::sync::Arc<Node>>,
    w: &Vec<std::sync::Arc<Node>>,
    sv: Seq<NodeView>,
    sw: Seq<NodeView>,
    i: int,
    r: Seq<u64>,
    s: Seq<u64>,
)
    requires
        v.len() == w.len(),
        sv.len() == v.len(),
        sw.len() == w.len(),
        forall|j: int| 0 <= j < v.len() ==> #[trigger] sv[j] == node_view(*v@[j]),
        forall|j: int| 0 <= j < w.len() ==> #[trigger] sw[j] == node_view(*w@[j]),
        0 <= i <= v.len(),
        nodes_code(sv, i) + r == nodes_code(sw, i) + s,
    ensures
        forall|j: int| i <= j < v.len() ==> #[trigger] sv[j] == sw[j],
        r == s,
    decreases v, v.len() - i,
{
    if i < v.len() {
        let ra = nodes_code(sv, i + 1) + r;
        let rb = nodes_code(sw, i + 1) + s;
        assert(node_code(sv[i]) + ra =~= nodes_code(sv, i) + r);
        assert(node_code(sw[i]) + rb =~= nodes_code(sw, i) + s);
        assert(sv[i] == node_view(*v@[i]) && sw[i] == node_view(*w@[i]));
        vstd::std_specs::vec::axiom_vec_index_decreases(*v, i);
        lemma_node_parts(&*v[i], &*w[i], ra, rb);
        lemma_nodes_parts(v, w, sv, sw, i + 1, r, s);
    } else {
        assert(nodes_code(sv, i) =~= Seq::<u64>::empty());
        assert(nodes_code(sw, i) =~= Seq::<u64>::empty());
        assert(r =~= nodes_code(sv, i) + r);
        assert(s =~= nodes_code(sw, i) + s);
    }
}

/// The term `a` comes before the term `b` in the order of the terms.
pub open spec fn term_less(a: TermView, b: TermView) -> bool {
    lex_less(term_code(a), term_code(b))
}

/// The order of the terms is a strict total order: no term comes before
/// itself, of two terms at most one comes before the other, and of two
/// different terms one does.
pub proof fn lemma_order_total(a: &Term, b: &Term)
    ensures
        !term_less(a@, a@),
        !(term_less(a@, b@) && term_less(b@, a@)),
        a@ != b@ ==> term_less(a@, b@) || term_less(b@, a@),
{
    let x = term_code(a@);
    let y = term_code(b@);
    if term_less(a@, a@) {
        lemma_less_asymmetric(x, x, 0);
    }
    if term_less(a@, b@) {
        lemma_less_asymmetric(x, y, 0);
    }
    if !term_less(a@, b@) && !term_less(b@, a@) {
        lemma_less_total(x, y, 0);
        assert(x =~= y);
        let none = Seq::<u64>::empty();
        assert(x + none =~= y + none);
        lemma_code_parts(a, b, none, none);
    }
}

/// Whether `a` comes before `b` in the order of the terms.
pub fn key_less(a: &Term, b: &Term) -> (r: bool)
    ensures
        r == term_less(a@, b@),
{
    let mut x: Vec<u64> = Vec::new();
    let mut y: Vec<u64> = Vec::new();
    encode_term(a, &mut x);
    encode_term(b, &mut y);
    assert(x@ =~= term_code(a@));
    assert(y@ =~= term_code(b@));
    sequence_less(&x, &y)
}

} // verus!
