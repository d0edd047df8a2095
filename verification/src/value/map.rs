//! The persistent map: the associative data type of the language, a hash
//! array mapped trie. A branch has a slot for each value of five bits of a
//! key's hash; a bitmap says which slots hold a child, and only those
//! children are kept. The keys of one hash share a leaf, in the order of the
//! terms, and a key that is removed leaves no trace, so that the trie goes
//! by what the map holds and not by how it came about. A map that is made
//! from another shares with it every part of the trie that is the same.
use crate::value::order::{
    key_less, lemma_less_asymmetric, lemma_less_chain, lemma_order_total, term_code, term_less,
};
use crate::value::{
    duplicate, hash_term, node_view, term_eq, term_hash, NodeView, Term, TermView,
};
use std::sync::Arc;
use vstd::prelude::*;

verus! {

/// A node of the trie.
#[derive(Debug, PartialEq, Eq)]
pub enum Node {
    /// The entries whose keys have one and the same hash.
    Leaf(Vec<(Term, Term)>),
    /// The parts into which the next five bits of the hash split the keys:
    /// bit `i` of the bitmap is set where slot `i` holds a child, and the
    /// children stand in the order of their slots.
    Branch { bitmap: u32, children: Vec<Arc<Node>> },
}

/// A map from terms to terms. Two keys are the same key when they are the
/// same value.
#[derive(Debug, PartialEq, Eq)]
pub struct HAMT {
    /// The trie, where the map holds a key.
    pub root: Option<Arc<Node>>,
    /// The number of keys.
    pub size: usize,
}

/// `Arc::clone`: another pointer to the same node. The node is not copied.
#[verifier::external_body]
pub(crate) fn share(node: &Arc<Node>) -> (r: Arc<Node>)
    ensures
        *r == **node,
{
    Arc::clone(node)
}

/// The map that the entries spell: each key with its value.
pub open spec fn as_map(s: Seq<(Term, Term)>) -> Map<TermView, TermView>
    decreases s.len(),
{
    if s.len() == 0 {
        Map::empty()
    } else {
        as_map(s.drop_last()).insert(s.last().0@, s.last().1@)
    }
}

/// No key occurs twice.
pub open spec fn distinct_keys(s: Seq<(Term, Term)>) -> bool {
    forall|i: int, j: int| 0 <= i < j < s.len() ==> (#[trigger] s[i]).0@ != (#[trigger] s[j]).0@
}

/// The keys stand in the order of the terms: none comes before a key that
/// stands before it.
pub open spec fn ascending(s: Seq<(Term, Term)>) -> bool {
    forall|i: int, j: int|
        0 <= i < j < s.len() ==> !term_less((#[trigger] s[j]).0@, (#[trigger] s[i]).0@)
}

/// The keys of the map are the keys of the entries.
pub proof fn lemma_as_map_dom(s: Seq<(Term, Term)>, k: TermView)
    ensures
        as_map(s).dom().contains(k) <==> exists|i: int| 0 <= i < s.len() && (#[trigger] s[i]).0@ == k,
        as_map(s).dom().finite(),
    decreases s.len(),
{
    if s.len() > 0 {
        let t = s.drop_last();
        lemma_as_map_dom(t, k);
        if as_map(s).dom().contains(k) {
            if s.last().0@ == k {
                assert(s[s.len() - 1].0@ == k);
            } else {
                let i = choose|i: int| 0 <= i < t.len() && (#[trigger] t[i]).0@ == k;
                assert(s[i].0@ == k);
            }
        }
        if exists|i: int| 0 <= i < s.len() && (#[trigger] s[i]).0@ == k {
            let i = choose|i: int| 0 <= i < s.len() && (#[trigger] s[i]).0@ == k;
            if i < s.len() - 1 {
                assert(t[i].0@ == k);
            }
        }
    }
}

/// Each entry's key has the entry's value, where no key occurs twice.
pub proof fn lemma_as_map_value(s: Seq<(Term, Term)>, i: int)
    requires
        distinct_keys(s),
        0 <= i < s.len(),
    ensures
        as_map(s).dom().contains(s[i].0@),
        as_map(s)[s[i].0@] == s[i].1@,
    decreases s.len(),
{
    let t = s.drop_last();
    if i < s.len() - 1 {
        assert(distinct_keys(t)) by {
            assert forall|a: int, b: int| 0 <= a < b < t.len() implies (#[trigger] t[a]).0@ != (
            #[trigger] t[b]).0@ by {
                assert(s[a].0@ != s[b].0@);
            }
        }
        lemma_as_map_value(t, i);
        assert(t[i] == s[i]);
        assert(s[i].0@ != s[s.len() - 1].0@);
    }
}

/// The number of keys is the number of entries, where no key occurs twice.
pub proof fn lemma_as_map_len(s: Seq<(Term, Term)>)
    requires
        distinct_keys(s),
    ensures
        as_map(s).dom().finite(),
        as_map(s).dom().len() == s.len(),
    decreases s.len(),
{
    if s.len() > 0 {
        let t = s.drop_last();
        assert(distinct_keys(t)) by {
            assert forall|a: int, b: int| 0 <= a < b < t.len() implies (#[trigger] t[a]).0@ != (
            #[trigger] t[b]).0@ by {
                assert(s[a].0@ != s[b].0@);
            }
        }
        lemma_as_map_len(t);
        lemma_as_map_dom(t, s.last().0@);
        if as_map(t).dom().contains(s.last().0@) {
            let i = choose|i: int| 0 <= i < t.len() && (#[trigger] t[i]).0@ == s.last().0@;
            assert(s[i].0@ != s[s.len() - 1].0@);
        }
    } else {
        lemma_as_map_dom(s, TermView::Nil);
    }
}

/// Replacing an entry by one with the same key gives the key the new value.
pub proof fn lemma_as_map_update(s: Seq<(Term, Term)>, i: int, e: (Term, Term))
    requires
        distinct_keys(s),
        0 <= i < s.len(),
        e.0@ == s[i].0@,
    ensures
        distinct_keys(s.update(i, e)),
        as_map(s.update(i, e)) == as_map(s).insert(e.0@, e.1@),
    decreases s.len(),
{
    let u = s.update(i, e);
    assert(distinct_keys(u)) by {
        assert forall|a: int, b: int| 0 <= a < b < u.len() implies (#[trigger] u[a]).0@ != (
        #[trigger] u[b]).0@ by {
            assert(s[a].0@ != s[b].0@);
        }
    }
    let t = s.drop_last();
    if i == s.len() - 1 {
        assert(u.drop_last() =~= t);
        assert(as_map(u) =~= as_map(s).insert(e.0@, e.1@));
    } else {
        assert(distinct_keys(t)) by {
            assert forall|a: int, b: int| 0 <= a < b < t.len() implies (#[trigger] t[a]).0@ != (
            #[trigger] t[b]).0@ by {
                assert(s[a].0@ != s[b].0@);
            }
        }
        lemma_as_map_update(t, i, e);
        assert(u.drop_last() =~= t.update(i, e));
        assert(u.last() == s.last());
        assert(s[i].0@ != s[s.len() - 1].0@);
        assert(as_map(u) =~= as_map(s).insert(e.0@, e.1@));
    }
}

/// Taking an entry out takes its key out.
pub proof fn lemma_as_map_remove(s: Seq<(Term, Term)>, i: int)
    requires
        distinct_keys(s),
        0 <= i < s.len(),
    ensures
        distinct_keys(s.remove(i)),
        as_map(s.remove(i)) == as_map(s).remove(s[i].0@),
    decreases s.len(),
{
    let u = s.remove(i);
    assert(distinct_keys(u)) by {
        assert forall|a: int, b: int| 0 <= a < b < u.len() implies (#[trigger] u[a]).0@ != (
        #[trigger] u[b]).0@ by {
            let a2 = if a < i {
                a
            } else {
                a + 1
            };
            let b2 = if b < i {
                b
            } else {
                b + 1
            };
            assert(s[a2].0@ != s[b2].0@);
        }
    }
    let t = s.drop_last();
    assert(distinct_keys(t)) by {
        assert forall|a: int, b: int| 0 <= a < b < t.len() implies (#[trigger] t[a]).0@ != (
        #[trigger] t[b]).0@ by {
            assert(s[a].0@ != s[b].0@);
        }
    }
    if i == s.len() - 1 {
        assert(u =~= t);
        lemma_as_map_dom(t, s[i].0@);
        if as_map(t).dom().contains(s[i].0@) {
            let j = choose|j: int| 0 <= j < t.len() && (#[trigger] t[j]).0@ == s[i].0@;
            assert(s[j].0@ != s[i].0@);
        }
        assert(as_map(u) =~= as_map(s).remove(s[i].0@));
    } else {
        lemma_as_map_remove(t, i);
        assert(u.drop_last() =~= t.remove(i));
        assert(u.last() == s.last());
        assert(s[i].0@ != s[s.len() - 1].0@);
        assert(as_map(u) =~= as_map(s).remove(s[i].0@));
    }
}

/// Entries with the same keys and values, one for one, spell the same map.
pub proof fn lemma_same_entries(a: Seq<(Term, Term)>, b: Seq<(Term, Term)>)
    requires
        a.len() == b.len(),
        forall|i: int| 0 <= i < a.len() ==> (#[trigger] a[i]).0@ == b[i].0@ && a[i].1@ == b[i].1@,
    ensures
        as_map(a) == as_map(b),
        distinct_keys(a) == distinct_keys(b),
        ascending(a) == ascending(b),
    decreases a.len(),
{
    if ascending(a) {
        assert forall|i: int, j: int| 0 <= i < j < b.len() implies !term_less(
            (#[trigger] b[j]).0@,
            (#[trigger] b[i]).0@,
        ) by {
            assert(!term_less(a[j].0@, a[i].0@));
        }
    }
    if ascending(b) {
        assert forall|i: int, j: int| 0 <= i < j < a.len() implies !term_less(
            (#[trigger] a[j]).0@,
            (#[trigger] a[i]).0@,
        ) by {
            assert(!term_less(b[j].0@, b[i].0@));
        }
    }
    if a.len() > 0 {
        let s = a.drop_last();
        let t = b.drop_last();
        assert forall|i: int| 0 <= i < s.len() implies (#[trigger] s[i]).0@ == t[i].0@ && s[i].1@
            == t[i].1@ by {
            assert(a[i].0@ == b[i].0@);
        }
        lemma_same_entries(s, t);
        assert(a[a.len() - 1].0@ == b[a.len() - 1].0@);
    }
    if distinct_keys(a) {
        assert forall|i: int, j: int| 0 <= i < j < b.len() implies (#[trigger] b[i]).0@ != (
        #[trigger] b[j]).0@ by {
            assert(a[i].0@ != a[j].0@);
        }
    }
    if distinct_keys(b) {
        assert forall|i: int, j: int| 0 <= i < j < a.len() implies (#[trigger] a[i]).0@ != (
        #[trigger] a[j]).0@ by {
            assert(b[i].0@ != b[j].0@);
        }
    }
}

/// The hash of the key of an entry.
pub open spec fn entry_hash(e: (Term, Term)) -> u32 {
    term_hash(e.0@)
}

/// The slot of a branch at `level` that a key with this hash belongs to.
/// The level of a branch is the power of 32 that its depth gives.
pub open spec fn slot(hash: u32, level: int) -> int {
    (hash as int / level) % 32
}

/// The level is one of the powers of 32 that a trie has.
pub open spec fn is_level(level: int) -> bool {
    level == 1 || level == 32 || level == 0x400 || level == 0x8000 || level == 0x10_0000 || level
        == 0x200_0000 || level == 0x4000_0000 || level == 0x8_0000_0000
}

/// Whether bit `i` of the bitmap is set.
pub open spec fn bit(bitmap: int, i: int) -> bool
    decreases i,
{
    if i <= 0 {
        bitmap % 2 == 1
    } else {
        bit(bitmap / 2, i - 1)
    }
}

/// The number of bits of the bitmap that are set below bit `i`: the place
/// of the child of slot `i` among the children.
pub open spec fn rank(bitmap: int, i: int) -> int
    decreases i,
{
    if i <= 0 {
        0
    } else {
        bitmap % 2 + rank(bitmap / 2, i - 1)
    }
}

/// The bitmap with bit `i`, which is not set, set.
pub open spec fn with_bit(bitmap: int, i: int) -> int
    decreases i,
{
    if i <= 0 {
        bitmap + 1
    } else {
        2 * with_bit(bitmap / 2, i - 1) + bitmap % 2
    }
}

/// The bitmap with bit `i`, which is set, cleared.
pub open spec fn without_bit(bitmap: int, i: int) -> int
    decreases i,
{
    if i <= 0 {
        bitmap - 1
    } else {
        2 * without_bit(bitmap / 2, i - 1) + bitmap % 2
    }
}

/// The rank grows by one at each bit that is set.
pub proof fn lemma_rank_step(bitmap: int, i: int)
    requires
        0 <= bitmap,
        0 <= i,
    ensures
        0 <= rank(bitmap, i) <= i,
        rank(bitmap, i + 1) == rank(bitmap, i) + (if bit(bitmap, i) {
            1int
        } else {
            0int
        }),
    decreases i,
{
    reveal_with_fuel(rank, 2);
    if i > 0 {
        lemma_rank_step(bitmap / 2, i - 1);
    }
}

/// The rank does not fall, and it grows past a bit that is set.
pub proof fn lemma_rank_grows(bitmap: int, i: int, j: int)
    requires
        0 <= bitmap,
        0 <= i <= j,
    ensures
        rank(bitmap, i) <= rank(bitmap, j),
        bit(bitmap, i) && i < j ==> rank(bitmap, i) < rank(bitmap, j),
    decreases j - i,
{
    lemma_rank_step(bitmap, i);
    if i < j {
        lemma_rank_grows(bitmap, i + 1, j);
    }
}

/// What setting a bit does to the bits and to the ranks.
pub proof fn lemma_with_bit(bitmap: int, i: int, j: int)
    requires
        0 <= bitmap,
        0 <= i,
        0 <= j,
        !bit(bitmap, i),
    ensures
        0 <= with_bit(bitmap, i),
        bit(with_bit(bitmap, i), j) == (bit(bitmap, j) || j == i),
        rank(with_bit(bitmap, i), j) == rank(bitmap, j) + (if j > i {
            1int
        } else {
            0int
        }),
    decreases i + j,
{
    if i == 0 {
        if j > 0 {
            lemma_same_above(bitmap, bitmap + 1, j);
        }
    } else {
        lemma_with_bit(bitmap / 2, i - 1, 0);
        if j > 0 {
            lemma_with_bit(bitmap / 2, i - 1, j - 1);
        }
    }
}

/// What clearing a bit does to the bits and to the ranks.
pub proof fn lemma_without_bit(bitmap: int, i: int, j: int)
    requires
        0 <= bitmap,
        0 <= i,
        0 <= j,
        bit(bitmap, i),
    ensures
        0 <= without_bit(bitmap, i),
        bit(without_bit(bitmap, i), j) == (bit(bitmap, j) && j != i),
        rank(without_bit(bitmap, i), j) == rank(bitmap, j) - (if j > i {
            1int
        } else {
            0int
        }),
    decreases i + j,
{
    if i == 0 {
        if j > 0 {
            lemma_same_above(bitmap - 1, bitmap, j);
        }
    } else {
        lemma_without_bit(bitmap / 2, i - 1, 0);
        if j > 0 {
            lemma_without_bit(bitmap / 2, i - 1, j - 1);
        }
    }
}

/// A bitmap with a rank above zero has a bit that is set.
pub proof fn lemma_some_bit(bitmap: int, n: int) -> (j: int)
    requires
        0 <= bitmap,
        0 <= n,
        rank(bitmap, n) > 0,
    ensures
        0 <= j < n,
        bit(bitmap, j),
        rank(bitmap, j + 1) == rank(bitmap, n),
    decreases n,
{
    lemma_rank_step(bitmap, n - 1);
    if bit(bitmap, n - 1) {
        n - 1
    } else {
        lemma_some_bit(bitmap, n - 1)
    }
}

/// Each place among the children of a branch is the place of a slot whose
/// bit is set.
pub proof fn lemma_slot_of_rank(bitmap: int, n: int, k: int) -> (i: int)
    requires
        0 <= bitmap,
        0 <= n,
        0 <= k < rank(bitmap, n),
    ensures
        0 <= i < n,
        bit(bitmap, i),
        rank(bitmap, i) == k,
    decreases n,
{
    lemma_rank_step(bitmap, n - 1);
    if bit(bitmap, n - 1) && rank(bitmap, n - 1) == k {
        n - 1
    } else {
        lemma_slot_of_rank(bitmap, n - 1, k)
    }
}

/// Two bitmaps below two to the `n` with the same bits are one bitmap.
pub proof fn lemma_same_bits(x: int, y: int, n: int)
    requires
        0 <= n,
        0 <= x < bit_value(n),
        0 <= y < bit_value(n),
        forall|i: int| 0 <= i < n ==> #[trigger] bit(x, i) == bit(y, i),
    ensures
        x == y,
    decreases n,
{
    if n > 0 {
        assert(bit(x, 0) == bit(y, 0));
        let hx = x / 2;
        let hy = y / 2;
        assert forall|i: int| 0 <= i < n - 1 implies #[trigger] bit(hx, i) == bit(hy, i) by {
            assert(bit(x, i + 1) == bit(y, i + 1));
        }
        lemma_same_bits(hx, hy, n - 1);
    }
}

/// Bitmaps that differ in their lowest bit alone have the same bits above
/// it, and ranks that differ by that bit.
proof fn lemma_same_above(a: int, b: int, j: int)
    requires
        0 <= a,
        a % 2 == 0,
        b == a + 1,
        j > 0,
    ensures
        bit(b, j) == bit(a, j),
        rank(b, j) == rank(a, j) + 1,
{
    assert(b / 2 == a / 2);
}

/// Setting a bit below `k` keeps the bitmap below two to the `k`.
pub proof fn lemma_with_bit_bound(bitmap: int, i: int, limit: int)
    requires
        0 <= bitmap < limit,
        0 <= i,
        !bit(bitmap, i),
        limit_for(i, limit),
    ensures
        with_bit(bitmap, i) < limit,
    decreases i,
{
    if i > 0 {
        lemma_with_bit_bound(bitmap / 2, i - 1, limit / 2);
    }
}

/// The limit is an even number that can be halved `i` times and more.
pub open spec fn limit_for(i: int, limit: int) -> bool
    decreases i,
{
    if i <= 0 {
        limit % 2 == 0 && limit >= 2
    } else {
        limit % 2 == 0 && limit_for(i - 1, limit / 2)
    }
}

/// Two to the 32 can be halved 32 times.
proof fn lemma_limit(i: int)
    requires
        0 <= i < 32,
    ensures
        limit_for(i, 0x1_0000_0000),
{
    reveal_with_fuel(limit_for, 33);
}

/// Whether slot `i` of a bitmap holds a child, and where among the children
/// the child stands.
fn probe(bitmap: u32, i: usize) -> (r: (bool, usize))
    requires
        i < 32,
    ensures
        r.0 == bit(bitmap as int, i as int),
        r.1 == rank(bitmap as int, i as int),
        r.1 <= i,
{
    let mut rest: u32 = bitmap;
    let mut count: usize = 0;
    let mut j: usize = 0;
    while j < i
        invariant
            j <= i < 32,
            count <= j,
            count + rank(rest as int, i - j) == rank(bitmap as int, i as int),
            bit(rest as int, i - j) == bit(bitmap as int, i as int),
        decreases i - j,
    {
        if rest % 2 == 1 {
            count = count + 1;
        }
        rest = rest / 2;
        j = j + 1;
    }
    (rest % 2 == 1, count)
}

/// Two to the power `i`.
pub open spec fn bit_value(i: int) -> int
    decreases i,
{
    if i <= 0 {
        1
    } else {
        2 * bit_value(i - 1)
    }
}

/// The powers of two of the bits of a bitmap lie below two to the 32.
proof fn lemma_bit_values(i: int)
    requires
        0 <= i < 32,
    ensures
        1 <= bit_value(i) <= 0x8000_0000,
{
    reveal_with_fuel(bit_value, 33);
}

/// Setting a bit adds its power of two, and clearing it takes that away.
pub proof fn lemma_bit_value(bitmap: int, i: int)
    requires
        0 <= bitmap,
        0 <= i,
    ensures
        !bit(bitmap, i) ==> with_bit(bitmap, i) == bitmap + bit_value(i),
        bit(bitmap, i) ==> without_bit(bitmap, i) == bitmap - bit_value(i) && bitmap >= bit_value(
            i,
        ),
    decreases i,
{
    if i > 0 {
        lemma_bit_value(bitmap / 2, i - 1);
    }
}

/// The bitmap with bit `i` alone.
fn bit_mask(i: usize) -> (r: u32)
    requires
        i < 32,
    ensures
        r == bit_value(i as int),
{
    let mut power: u32 = 1;
    let mut j: usize = 0;
    while j < i
        invariant
            j <= i < 32,
            power == bit_value(j as int),
        decreases i - j,
    {
        proof {
            lemma_bit_values(j + 1);
        }
        power = power * 2;
        j = j + 1;
    }
    power
}

/// The bitmap with bit `i`, which is not set, set.
fn set_bit(bitmap: u32, i: usize) -> (r: u32)
    requires
        i < 32,
        !bit(bitmap as int, i as int),
    ensures
        r == with_bit(bitmap as int, i as int),
{
    proof {
        lemma_bit_value(bitmap as int, i as int);
        lemma_limit(i as int);
        lemma_with_bit_bound(bitmap as int, i as int, 0x1_0000_0000);
    }
    bitmap + bit_mask(i)
}

/// The bitmap with bit `i`, which is set, cleared.
fn clear_bit(bitmap: u32, i: usize) -> (r: u32)
    requires
        i < 32,
        bit(bitmap as int, i as int),
    ensures
        r == without_bit(bitmap as int, i as int),
{
    proof {
        lemma_bit_value(bitmap as int, i as int);
    }
    bitmap - bit_mask(i)
}

/// The child in slot `i` of a branch, if the slot holds one.
pub open spec fn slot_child(bitmap: u32, children: Seq<Arc<Node>>, i: int) -> Option<Arc<Node>> {
    if 0 <= i < 32 && bit(bitmap as int, i) && 0 <= rank(bitmap as int, i) < children.len() {
        Some(children[rank(bitmap as int, i)])
    } else {
        None
    }
}

/// The map of the child in slot `i` of a branch.
pub open spec fn child_map(bitmap: u32, c: Vec<Arc<Node>>, i: int, level: int) -> Map<
    TermView,
    TermView,
>
    decreases c, 0int,
{
    if 0 <= i < 32 && bit(bitmap as int, i) && 0 <= rank(bitmap as int, i) < c.len() {
        node_map(*c[rank(bitmap as int, i)], 32 * level)
    } else {
        Map::empty()
    }
}

/// The map that a node holds: each key with its value.
pub open spec fn node_map(n: Node, level: int) -> Map<TermView, TermView>
    decreases n, 1int,
{
    match n {
        Node::Leaf(v) => as_map(v@),
        Node::Branch { bitmap, children } => Map::new(
            |q: TermView|
                child_map(bitmap, children, slot(term_hash(q), level), level).dom().contains(q),
            |q: TermView| child_map(bitmap, children, slot(term_hash(q), level), level)[q],
        ),
    }
}

/// The map that a node holds.
pub open spec fn map_at(n: &Node, level: int) -> Map<TermView, TermView> {
    node_map(*n, level)
}

/// The child in slot `i` of a branch is sound.
pub open spec fn child_wf(bitmap: u32, c: Vec<Arc<Node>>, i: int, level: int, prefix: int) -> bool
    decreases c, 0int, 0int,
{
    if 0 <= i < 32 && bit(bitmap as int, i) && 0 <= rank(bitmap as int, i) < c.len() {
        node_wf(*c[rank(bitmap as int, i)], 32 * level, prefix + i * level)
    } else {
        true
    }
}

/// The children in the first `n` slots of a branch are sound.
pub open spec fn children_wf(bitmap: u32, c: Vec<Arc<Node>>, n: int, level: int, prefix: int) -> bool
    decreases c, 1int, n,
{
    if n <= 0 {
        true
    } else {
        children_wf(bitmap, c, n - 1, level, prefix) && child_wf(bitmap, c, n - 1, level, prefix)
    }
}

/// The node is sound for its place in the trie: the hashes of its keys,
/// taken modulo the level, are `prefix`; a leaf has a key, and its keys are
/// distinct, stand in the order of the terms and have one hash; a branch has a child for each bit of its
/// bitmap, each child is sound for its slot, and a branch is no detour: it
/// has a child, and an only child is a branch.
pub open spec fn node_wf(n: Node, level: int, prefix: int) -> bool
    decreases n, 2int, 0int,
{
    match n {
        Node::Leaf(v) => {
            &&& v.len() > 0
            &&& distinct_keys(v@)
            &&& ascending(v@)
            &&& forall|i: int|
                0 <= i < v.len() ==> entry_hash(#[trigger] v@[i]) as int % level == prefix
            &&& forall|i: int| 0 <= i < v.len() ==> entry_hash(#[trigger] v@[i]) == entry_hash(v@[0])
        },
        Node::Branch { bitmap, children } => {
            &&& level <= 0x4000_0000
            &&& children.len() == rank(bitmap as int, 32)
            &&& children.len() >= 1
            &&& (children.len() == 1 ==> *children[0] is Branch)
            &&& children_wf(bitmap, children, 32, level, prefix)
        },
    }
}

/// Each of the first `n` children of a branch is sound, where they all are.
pub proof fn lemma_child_wf(
    bitmap: u32,
    c: &Vec<Arc<Node>>,
    n: int,
    level: int,
    prefix: int,
    i: int,
)
    requires
        children_wf(bitmap, *c, n, level, prefix),
        0 <= i < n,
    ensures
        child_wf(bitmap, *c, i, level, prefix),
    decreases n,
{
    if i < n - 1 {
        lemma_child_wf(bitmap, c, n - 1, level, prefix, i);
    }
}

/// The first `n` children of a branch are sound, where each of them is.
pub proof fn lemma_children_wf(bitmap: u32, c: &Vec<Arc<Node>>, n: int, level: int, prefix: int)
    requires
        forall|i: int| 0 <= i < n ==> #[trigger] child_wf(bitmap, *c, i, level, prefix),
    ensures
        children_wf(bitmap, *c, n, level, prefix),
    decreases n,
{
    if n > 0 {
        lemma_children_wf(bitmap, c, n - 1, level, prefix);
        assert(child_wf(bitmap, *c, n - 1, level, prefix));
    }
}

/// A slot whose bit is set has its child among the children of a branch
/// that has a child for each bit.
pub proof fn lemma_slot_in_range(bitmap: u32, len: int, i: int)
    requires
        len == rank(bitmap as int, 32),
        0 <= i < 32,
        bit(bitmap as int, i),
    ensures
        0 <= rank(bitmap as int, i) < len,
{
    lemma_rank_grows(bitmap as int, i, 32);
    lemma_rank_step(bitmap as int, i);
}

/// How the hash of a key splits at a level: into what it is modulo the
/// level, and the slot.
pub proof fn lemma_slot(hash: u32, level: int)
    requires
        level > 0,
    ensures
        0 <= slot(hash, level) < 32,
        0 <= hash as int % level < level,
        hash as int % (32 * level) == hash as int % level + slot(hash, level) * level,
{
    vstd::arithmetic::div_mod::lemma_mod_breakdown(hash as int, level, 32);
    assert(level * 32 == 32 * level);
    assert(level * slot(hash, level) == slot(hash, level) * level) by (nonlinear_arith);
}

/// Every key of a sound node has `prefix` for its hash modulo the level.
pub proof fn lemma_node_keys(n: &Node, level: int, prefix: int, q: TermView)
    requires
        level > 0,
        node_wf(*n, level, prefix),
        node_map(*n, level).dom().contains(q),
    ensures
        term_hash(q) as int % level == prefix,
    decreases n,
{
    match n {
        Node::Leaf(v) => {
            lemma_as_map_dom(v@, q);
            let i = choose|i: int| 0 <= i < v@.len() && (#[trigger] v@[i]).0@ == q;
            assert(entry_hash(v@[i]) as int % level == prefix);
        },
        Node::Branch { bitmap, children } => {
            let i = slot(term_hash(q), level);
            lemma_slot(term_hash(q), level);
            lemma_child_wf(*bitmap, children, 32, level, prefix, i);
            lemma_node_keys(
                &*children[rank(*bitmap as int, i)],
                32 * level,
                prefix + i * level,
                q,
            );
        },
    }
}

/// Where the key stands among the entries of a leaf.
fn position(entries: &Vec<(Term, Term)>, key: &Term) -> (r: Option<usize>)
    ensures
        r matches Some(i) ==> i < entries.len() && entries@[i as int].0@ == key@,
        r is None ==> forall|i: int| 0 <= i < entries.len() ==> (#[trigger] entries@[i]).0@ != key@,
        r is Some <==> as_map(entries@).dom().contains(key@),
{
    let mut i: usize = 0;
    while i < entries.len()
        invariant
            i <= entries.len(),
            forall|j: int| 0 <= j < i ==> (#[trigger] entries@[j]).0@ != key@,
        decreases entries.len() - i,
    {
        if term_eq(&entries[i].0, key) {
            proof {
                lemma_as_map_dom(entries@, key@);
            }
            return Some(i);
        }
        i = i + 1;
    }
    proof {
        lemma_as_map_dom(entries@, key@);
    }
    None
}

/// The value of the key in a node, if the node holds the key.
fn node_get<'a>(n: &'a Node, hash: u32, level: u64, key: &Term) -> (r: Option<&'a Term>)
    requires
        is_level(level as int),
        node_wf(*n, level as int, hash as int % (level as int)),
        hash == term_hash(key@),
    ensures
        r is Some <==> node_map(*n, level as int).dom().contains(key@),
        r matches Some(v) ==> v@ == node_map(*n, level as int)[key@],
    decreases n,
{
    match n {
        Node::Leaf(v) => match position(v, key) {
            Some(i) => {
                proof {
                    lemma_as_map_value(v@, i as int);
                }
                Some(&v[i].1)
            },
            None => None,
        },
        Node::Branch { bitmap, children } => {
            let i: usize = ((hash as u64 / level) % 32) as usize;
            proof {
                lemma_slot(hash, level as int);
                lemma_child_wf(
                    *bitmap,
                    children,
                    32,
                    level as int,
                    hash as int % (level as int),
                    i as int,
                );
            }
            let (set, place) = probe(*bitmap, i);
            if set {
                proof {
                    lemma_slot_in_range(*bitmap, children.len() as int, i as int);
                }
                node_get(&*children[place], hash, level * 32, key)
            } else {
                None
            }
        },
    }
}

/// A copy of the entries of a leaf.
fn copy_entries(v: &Vec<(Term, Term)>) -> (r: Vec<(Term, Term)>)
    ensures
        r.len() == v.len(),
        forall|i: int|
            0 <= i < v.len() ==> (#[trigger] r@[i]).0@ == v@[i].0@ && r@[i].1@ == v@[i].1@,
        as_map(r@) == as_map(v@),
        distinct_keys(r@) == distinct_keys(v@),
        ascending(r@) == ascending(v@),
{
    let mut out: Vec<(Term, Term)> = Vec::new();
    let mut i: usize = 0;
    while i < v.len()
        invariant
            i <= v.len(),
            out.len() == i,
            forall|j: int|
                0 <= j < i ==> (#[trigger] out@[j]).0@ == v@[j].0@ && out@[j].1@ == v@[j].1@,
        decreases v.len() - i,
    {
        let k = duplicate(&v[i].0);
        let x = duplicate(&v[i].1);
        out.push((k, x));
        i = i + 1;
    }
    proof {
        lemma_same_entries(out@, v@);
    }
    out
}

/// The children of a branch, each shared with the branch it is copied
/// from.
fn copy_children(c: &Vec<Arc<Node>>) -> (r: Vec<Arc<Node>>)
    ensures
        r@ == c@,
{
    let mut out: Vec<Arc<Node>> = Vec::new();
    let mut i: usize = 0;
    while i < c.len()
        invariant
            i <= c.len(),
            out.len() == i,
            forall|j: int| 0 <= j < i ==> #[trigger] out@[j] == c@[j],
        decreases c.len() - i,
    {
        out.push(share(&c[i]));
        i = i + 1;
    }
    assert(out@ =~= c@);
    out
}

/// The bitmap without bits has no bit set.
pub proof fn lemma_no_bits(i: int)
    requires
        0 <= i,
    ensures
        !bit(0, i),
        rank(0, i) == 0,
    decreases i,
{
    if i > 0 {
        lemma_no_bits(i - 1);
    }
}

/// The bitmap and the children of a branch with `child` in slot `i`, in
/// place of the child that the slot held, if it held one. The other
/// children are shared.
fn with_child(bitmap: u32, children: &Vec<Arc<Node>>, i: usize, child: Arc<Node>) -> (r: (
    u32,
    Vec<Arc<Node>>,
))
    requires
        i < 32,
        children.len() == rank(bitmap as int, 32),
    ensures
        r.1.len() == rank(r.0 as int, 32),
        r.1.len() == children.len() + (if bit(bitmap as int, i as int) {
            0int
        } else {
            1int
        }),
        slot_child(r.0, r.1@, i as int) == Some(child),
        forall|j: int|
            0 <= j < 32 && j != i ==> #[trigger] slot_child(r.0, r.1@, j) == slot_child(
                bitmap,
                children@,
                j,
            ),
{
    let (set, place) = probe(bitmap, i);
    let mut out = copy_children(children);
    let ghost b = bitmap as int;
    if set {
        proof {
            lemma_slot_in_range(bitmap, children.len() as int, i as int);
        }
        out.set(place, child);
        proof {
            assert forall|j: int| 0 <= j < 32 && j != i implies #[trigger] slot_child(
                bitmap,
                out@,
                j,
            ) == slot_child(bitmap, children@, j) by {
                if bit(b, j) {
                    if j < i {
                        lemma_rank_grows(b, j, i as int);
                    } else {
                        lemma_rank_grows(b, i as int, j);
                    }
                }
            }
        }
        (bitmap, out)
    } else {
        proof {
            lemma_rank_grows(b, i as int, 32);
        }
        out.insert(place, child);
        let marked = set_bit(bitmap, i);
        proof {
            lemma_with_bit(b, i as int, 32);
            lemma_with_bit(b, i as int, i as int);
            assert forall|j: int| 0 <= j < 32 && j != i implies #[trigger] slot_child(
                marked,
                out@,
                j,
            ) == slot_child(bitmap, children@, j) by {
                lemma_with_bit(b, i as int, j);
                if bit(b, j) {
                    lemma_slot_in_range(bitmap, children.len() as int, j);
                    if j < i {
                        lemma_rank_grows(b, j, i as int);
                    } else {
                        lemma_rank_step(b, i as int);
                        lemma_rank_grows(b, i + 1, j);
                    }
                }
            }
        }
        (marked, out)
    }
}

/// The bitmap and the children of a branch without the child in slot `i`.
/// The other children are shared.
fn without_child(bitmap: u32, children: &Vec<Arc<Node>>, i: usize) -> (r: (u32, Vec<Arc<Node>>))
    requires
        i < 32,
        bit(bitmap as int, i as int),
        children.len() == rank(bitmap as int, 32),
    ensures
        r.1.len() == rank(r.0 as int, 32),
        r.1.len() == children.len() - 1,
        slot_child(r.0, r.1@, i as int) is None,
        forall|j: int|
            0 <= j < 32 && j != i ==> #[trigger] slot_child(r.0, r.1@, j) == slot_child(
                bitmap,
                children@,
                j,
            ),
{
    let (_, place) = probe(bitmap, i);
    let mut out = copy_children(children);
    let ghost b = bitmap as int;
    proof {
        lemma_slot_in_range(bitmap, children.len() as int, i as int);
    }
    out.remove(place);
    let cleared = clear_bit(bitmap, i);
    proof {
        lemma_without_bit(b, i as int, 32);
        lemma_without_bit(b, i as int, i as int);
        assert forall|j: int| 0 <= j < 32 && j != i implies #[trigger] slot_child(
            cleared,
            out@,
            j,
        ) == slot_child(bitmap, children@, j) by {
            lemma_without_bit(b, i as int, j);
            if bit(b, j) {
                lemma_slot_in_range(bitmap, children.len() as int, j);
                if j < i {
                    lemma_rank_grows(b, j, i as int);
                } else {
                    lemma_rank_grows(b, i as int, j);
                }
            }
        }
    }
    (cleared, out)
}

/// The node of a bitmap and children that are sound for a branch: the
/// branch, or, where that would be a detour, the only child, which is a
/// leaf; `None` where there is no child.
fn pruned(
    bitmap: u32,
    children: Vec<Arc<Node>>,
    Ghost(level): Ghost<int>,
    Ghost(prefix): Ghost<int>,
) -> (r: Option<Arc<Node>>)
    requires
        0 < level <= 0x4000_0000,
        0 <= prefix < level,
        children.len() == rank(bitmap as int, 32),
        children_wf(bitmap, children, 32, level, prefix),
    ensures
        match r {
            Some(m) => node_wf(*m, level, prefix) && node_map(*m, level) == node_map(
                Node::Branch { bitmap, children },
                level,
            ),
            None => node_map(Node::Branch { bitmap, children }, level) == Map::<
                TermView,
                TermView,
            >::empty(),
        },
{
    let ghost whole = node_map(Node::Branch { bitmap, children }, level);
    if children.len() == 0 {
        assert(whole =~= Map::<TermView, TermView>::empty());
        return None;
    }
    if children.len() == 1 {
        match &*children[0] {
            Node::Leaf(v) => {
                proof {
                    let j0 = lemma_some_bit(bitmap as int, 32);
                    lemma_slot_in_range(bitmap, 1, j0);
                    lemma_child_wf(bitmap, &children, 32, level, prefix, j0);
                    assert(node_wf(*children[0], 32 * level, prefix + j0 * level));
                    assert forall|k: int| 0 <= k < v.len() implies entry_hash(#[trigger] v@[k]) as int
                        % level == prefix && slot(entry_hash(v@[k]), level) == j0 by {
                        let h = entry_hash(v@[k]);
                        lemma_slot(h, level);
                        let s = slot(h, level);
                        let low = h as int % level;
                        assert(low == prefix && s == j0) by (nonlinear_arith)
                            requires
                                low + s * level == prefix + j0 * level,
                                0 <= low < level,
                                0 <= prefix < level,
                        ;
                    }
                    assert forall|q: TermView|
                        #![trigger whole.dom().contains(q)]
                        #![trigger as_map(v@).dom().contains(q)]
                        whole.dom().contains(q) == as_map(v@).dom().contains(q) && (
                        whole.dom().contains(q) ==> whole[q] == as_map(v@)[q]) by {
                        lemma_as_map_dom(v@, q);
                        lemma_slot(term_hash(q), level);
                        let s = slot(term_hash(q), level);
                        if as_map(v@).dom().contains(q) {
                            let k = choose|k: int| 0 <= k < v@.len() && (#[trigger] v@[k]).0@ == q;
                            assert(slot(entry_hash(v@[k]), level) == j0);
                            assert(s == j0);
                            assert(child_map(bitmap, children, j0, level) == as_map(v@));
                        }
                        if child_map(bitmap, children, s, level).dom().contains(q) {
                            assert(rank(bitmap as int, s) == 0);
                            assert(child_map(bitmap, children, s, level) == as_map(v@));
                        }
                    }
                    assert(whole =~= as_map(v@));
                }
                return Some(share(&children[0]));
            },
            _ => {},
        }
    }
    Some(Arc::new(Node::Branch { bitmap, children }))
}

/// The map and the soundness of the child in a slot go by the child that
/// the slot holds.
pub proof fn lemma_slot_child(bitmap: u32, c: &Vec<Arc<Node>>, i: int, level: int, prefix: int)
    ensures
        slot_child(bitmap, c@, i) matches Some(a) ==> child_map(bitmap, *c, i, level) == node_map(
            *a,
            32 * level,
        ) && child_wf(bitmap, *c, i, level, prefix) == node_wf(*a, 32 * level, prefix + i * level),
        slot_child(bitmap, c@, i) is None ==> child_map(bitmap, *c, i, level) == Map::<
            TermView,
            TermView,
        >::empty() && child_wf(bitmap, *c, i, level, prefix),
{
}

/// An entry whose key the entries do not have joins them at any place
/// without making a key occur twice, and the map gets the entry.
proof fn lemma_insert_entry(s: Seq<(Term, Term)>, p: int, e: (Term, Term))
    requires
        distinct_keys(s),
        !as_map(s).dom().contains(e.0@),
        0 <= p <= s.len(),
    ensures
        distinct_keys(s.insert(p, e)),
        as_map(s.insert(p, e)) == as_map(s).insert(e.0@, e.1@),
{
    let t = s.insert(p, e);
    lemma_as_map_dom(s, e.0@);
    assert forall|i: int| 0 <= i < t.len() implies #[trigger] t[i] == (if i < p {
        s[i]
    } else if i == p {
        e
    } else {
        s[i - 1]
    }) by {}
    assert forall|a: int, b: int| 0 <= a < b < t.len() implies (#[trigger] t[a]).0@ != (
    #[trigger] t[b]).0@ by {
        let x = if a < p {
            a
        } else {
            a - 1
        };
        let y = if b < p {
            b
        } else {
            b - 1
        };
        if a != p && b != p {
            assert(s[x].0@ != s[y].0@);
        } else if a == p {
            assert(s[y].0@ != e.0@);
        } else {
            assert(s[x].0@ != e.0@);
        }
    }
    let target = as_map(s).insert(e.0@, e.1@);
    assert forall|q: TermView|
        #![trigger as_map(t).dom().contains(q)]
        #![trigger target.dom().contains(q)]
        as_map(t).dom().contains(q) == target.dom().contains(q) && (target.dom().contains(q)
            ==> as_map(t)[q] == target[q]) by {
        lemma_as_map_dom(t, q);
        lemma_as_map_dom(s, q);
        if as_map(t).dom().contains(q) {
            let i = choose|i: int| 0 <= i < t.len() && (#[trigger] t[i]).0@ == q;
            if i != p {
                let x = if i < p {
                    i
                } else {
                    i - 1
                };
                assert(s[x].0@ == q);
            }
        }
        if q == e.0@ {
            assert(t[p].0@ == q);
            lemma_as_map_value(t, p);
        } else if as_map(s).dom().contains(q) {
            let j = choose|j: int| 0 <= j < s.len() && (#[trigger] s[j]).0@ == q;
            let i = if j < p {
                j
            } else {
                j + 1
            };
            assert(t[i] == s[j]);
            lemma_as_map_value(t, i);
            lemma_as_map_value(s, j);
        }
    }
    assert(as_map(t) =~= target);
}

/// The entries of a leaf with the key given the value: the value takes the
/// place of the one that the key had, or the entry goes where the order of
/// the terms puts its key.
fn leaf_insert(v: &Vec<(Term, Term)>, key: Term, value: Term) -> (r: (Vec<(Term, Term)>, bool))
    requires
        distinct_keys(v@),
        ascending(v@),
    ensures
        distinct_keys(r.0@),
        ascending(r.0@),
        as_map(r.0@) == as_map(v@).insert(key@, value@),
        r.1 == !as_map(v@).dom().contains(key@),
        r.0.len() == v.len() + (if r.1 {
            1int
        } else {
            0int
        }),
        forall|i: int|
            0 <= i < r.0.len() ==> (#[trigger] r.0@[i]).0@ == key@ || as_map(v@).dom().contains(
                r.0@[i].0@,
            ),
{
    let mut out = copy_entries(v);
    match position(&out, &key) {
        Some(i) => {
            proof {
                lemma_as_map_update(out@, i as int, (key, value));
            }
            let ghost before = out@;
            out.set(i, (key, value));
            proof {
                assert forall|a: int| 0 <= a < out.len() implies (#[trigger] out@[a]).0@
                    == before[a].0@ by {}
                assert forall|a: int, b: int| 0 <= a < b < out.len() implies !term_less(
                    (#[trigger] out@[b]).0@,
                    (#[trigger] out@[a]).0@,
                ) by {
                    assert(!term_less(before[b].0@, before[a].0@));
                }
                assert forall|a: int| 0 <= a < out.len() implies (#[trigger] out@[a]).0@ == key@
                    || as_map(v@).dom().contains(out@[a].0@) by {
                    lemma_as_map_dom(v@, out@[a].0@);
                    assert(v@[a].0@ == before[a].0@);
                }
            }
            (out, false)
        },
        None => {
            let mut p: usize = 0;
            while p < out.len() && key_less(&out[p].0, &key)
                invariant
                    p <= out.len(),
                    forall|j: int| 0 <= j < p ==> term_less((#[trigger] out@[j]).0@, key@),
                decreases out.len() - p,
            {
                p = p + 1;
            }
            let ghost before = out@;
            let ghost k = key@;
            out.insert(p, (key, value));
            proof {
                lemma_insert_entry(before, p as int, (key, value));
                assert forall|i: int| 0 <= i < out.len() implies #[trigger] out@[i] == (if i < p {
                    before[i]
                } else if i == p {
                    (key, value)
                } else {
                    before[i - 1]
                }) by {}
                assert forall|a: int, b: int| 0 <= a < b < out.len() implies !term_less(
                    (#[trigger] out@[b]).0@,
                    (#[trigger] out@[a]).0@,
                ) by {
                    if b == p {
                        assert(term_less(before[a].0@, k));
                        lemma_less_asymmetric(term_code(before[a].0@), term_code(k), 0);
                    } else if a == p {
                        assert(!term_less(before[p as int].0@, k));
                        if b - 1 > p {
                            assert(!term_less(before[b - 1].0@, before[p as int].0@));
                            lemma_less_chain(
                                term_code(before[b - 1].0@),
                                term_code(before[p as int].0@),
                                term_code(k),
                                0,
                            );
                        }
                    } else {
                        let x = if a < p {
                            a
                        } else {
                            a - 1
                        };
                        let y = if b < p {
                            b
                        } else {
                            b - 1
                        };
                        assert(!term_less(before[y].0@, before[x].0@));
                    }
                }
                assert forall|a: int| 0 <= a < out.len() implies (#[trigger] out@[a]).0@ == k
                    || as_map(v@).dom().contains(out@[a].0@) by {
                    if a != p {
                        let x = if a < p {
                            a
                        } else {
                            a - 1
                        };
                        lemma_as_map_dom(v@, out@[a].0@);
                        assert(v@[x].0@ == before[x].0@);
                    }
                }
            }
            (out, true)
        },
    }
}

/// The entries of a leaf; a branch has none of its own.
pub open spec fn leaf_entries(n: &Node) -> Seq<(Term, Term)> {
    match *n {
        Node::Leaf(v) => v@,
        Node::Branch { .. } => Seq::empty(),
    }
}

/// The branch at `level` that holds the entries of a leaf and one more
/// entry, whose key has another hash.
fn split(
    old: &Arc<Node>,
    old_hash: u32,
    hash: u32,
    level: u64,
    key: Term,
    value: Term,
) -> (r: Arc<Node>)
    requires
        is_level(level as int),
        **old is Leaf,
        leaf_entries(&**old).len() > 0,
        node_wf(**old, level as int, hash as int % (level as int)),
        old_hash == entry_hash(leaf_entries(&**old)[0]),
        hash == term_hash(key@),
        old_hash != hash,
    ensures
        *r is Branch,
        node_wf(*r, level as int, hash as int % (level as int)),
        node_map(*r, level as int) == node_map(**old, level as int).insert(key@, value@),
    decreases 0x8_0000_0000 - level,
{
    let ghost v = leaf_entries(&**old);
    let ghost prefix = hash as int % (level as int);
    proof {
        lemma_slot(hash, level as int);
        lemma_slot(old_hash, level as int);
        assert(entry_hash(v[0]) as int % (level as int) == prefix);
    }
    let s0: usize = ((old_hash as u64 / level) % 32) as usize;
    let s1: usize = ((hash as u64 / level) % 32) as usize;
    let none: Vec<Arc<Node>> = Vec::new();
    proof {
        lemma_no_bits(32);
        assert forall|i: int| 0 <= i < 32 implies #[trigger] slot_child(0, none@, i) is None by {
            lemma_no_bits(i);
        }
    }
    let (bitmap, children) = if s0 == s1 {
        let deeper = split(old, old_hash, hash, level * 32, key, value);
        with_child(0, &none, s0, deeper)
    } else {
        let mut single: Vec<(Term, Term)> = Vec::new();
        single.push((key, value));
        let (first, one) = with_child(0, &none, s0, share(old));
        with_child(first, &one, s1, Arc::new(Node::Leaf(single)))
    };
    let ghost c = children;
    let r = Arc::new(Node::Branch { bitmap, children });
    proof {
        let lv = level as int;
        assert forall|i: int| 0 <= i < 32 implies #[trigger] child_wf(bitmap, c, i, lv, prefix) by {
            lemma_slot_child(bitmap, &c, i, lv, prefix);
            assert(i != s0 && i != s1 ==> slot_child(bitmap, c@, i) is None);
            if i == s0 as int && s0 != s1 {
                assert(slot_child(bitmap, c@, i) == Some(*old));
                assert forall|j: int| 0 <= j < v.len() implies entry_hash(#[trigger] v[j]) as int % (
                32 * lv) == prefix + i * lv by {
                    assert(entry_hash(v[j]) == entry_hash(v[0]));
                }
            }
        }
        lemma_children_wf(bitmap, &c, 32, lv, prefix);
        let target = as_map(v).insert(key@, value@);
        assert(node_map(**old, lv) == as_map(v));
        assert(node_map(**old, 32 * lv) == as_map(v));
        assert forall|i: int| 0 <= i < 32 && i != s0 && i != s1 implies child_map(bitmap, c, i, lv)
            =~= Map::<TermView, TermView>::empty() by {
            lemma_slot_child(bitmap, &c, i, lv, prefix);
            assert(slot_child(bitmap, c@, i) is None);
        }
        lemma_slot_child(bitmap, &c, s0 as int, lv, prefix);
        lemma_slot_child(bitmap, &c, s1 as int, lv, prefix);
        if s0 == s1 {
            assert(child_map(bitmap, c, s0 as int, lv) == target);
        } else {
            assert(slot_child(bitmap, c@, s0 as int) == Some(*old));
            assert(child_map(bitmap, c, s0 as int, lv) == as_map(v));
            let single = leaf_entries(&*slot_child(bitmap, c@, s1 as int)->0);
            assert(single.len() == 1 && single[0].0@ == key@ && single[0].1@ == value@);
            assert(single.drop_last() =~= Seq::<(Term, Term)>::empty());
            assert(single.last() == single[0]);
            reveal_with_fuel(as_map, 2);
            assert(as_map(single) =~= Map::<TermView, TermView>::empty().insert(key@, value@));
            assert(child_map(bitmap, c, s1 as int, lv) == as_map(single));
        }
        assert forall|q: TermView|
            #![trigger node_map(*r, lv).dom().contains(q)]
            #![trigger target.dom().contains(q)]
            #![trigger node_map(*r, lv)[q]]
            #![trigger target[q]]
            node_map(*r, lv).dom().contains(q) == target.dom().contains(q) && (target.dom().contains(
                q,
            ) ==> node_map(*r, lv)[q] == target[q]) by {
            let i = slot(term_hash(q), lv);
            lemma_slot(term_hash(q), lv);
            lemma_as_map_dom(v, q);
            if as_map(v).dom().contains(q) {
                let j = choose|j: int| 0 <= j < v.len() && (#[trigger] v[j]).0@ == q;
                assert(entry_hash(v[j]) == entry_hash(v[0]));
                assert(i == s0);
            }
            if q == key@ {
                assert(i == s1);
            }
            assert(node_map(*r, lv).dom().contains(q) == child_map(bitmap, c, i, lv).dom().contains(
                q,
            ));
        }
        assert(node_map(*r, lv) =~= target);
    }
    r
}

/// The node with the key given the value, and whether the key is new to
/// the node. The node that is passed is not changed: the new node shares
/// with it what does not lie on the way to the key.
fn node_insert(n: &Arc<Node>, hash: u32, level: u64, key: Term, value: Term) -> (r: (
    Arc<Node>,
    bool,
))
    requires
        is_level(level as int),
        node_wf(**n, level as int, hash as int % (level as int)),
        hash == term_hash(key@),
    ensures
        node_wf(*r.0, level as int, hash as int % (level as int)),
        node_map(*r.0, level as int) == node_map(**n, level as int).insert(key@, value@),
        r.1 == !node_map(**n, level as int).dom().contains(key@),
        **n is Branch ==> *r.0 is Branch,
    decreases **n,
{
    let ghost lv = level as int;
    let ghost prefix = hash as int % lv;
    match &**n {
        Node::Leaf(v) => {
            let h0: u32 = hash_term(&v[0].0);
            if h0 == hash {
                let (out, added) = leaf_insert(v, key, value);
                proof {
                    assert forall|i: int| 0 <= i < out.len() implies entry_hash(#[trigger] out@[i])
                        == hash by {
                        let q = out@[i].0@;
                        if q != key@ {
                            lemma_as_map_dom(v@, q);
                            let j = choose|j: int| 0 <= j < v@.len() && (#[trigger] v@[j]).0@ == q;
                            assert(entry_hash(v@[j]) == entry_hash(v@[0]));
                        }
                    }
                }
                (Arc::new(Node::Leaf(out)), added)
            } else {
                proof {
                    lemma_as_map_dom(v@, key@);
                    if as_map(v@).dom().contains(key@) {
                        let j = choose|j: int| 0 <= j < v@.len() && (#[trigger] v@[j]).0@ == key@;
                        assert(entry_hash(v@[j]) == entry_hash(v@[0]));
                    }
                }
                (split(n, h0, hash, level, key, value), true)
            }
        },
        Node::Branch { bitmap, children: c } => {
            let i: usize = ((hash as u64 / level) % 32) as usize;
            proof {
                lemma_slot(hash, lv);
                lemma_child_wf(*bitmap, c, 32, lv, prefix, i as int);
            }
            let (set, place) = probe(*bitmap, i);
            let (child, added): (Arc<Node>, bool) = if set {
                proof {
                    lemma_slot_in_range(*bitmap, c.len() as int, i as int);
                    vstd::std_specs::vec::axiom_vec_index_decreases(*c, place as int);
                }
                node_insert(&c[place], hash, level * 32, key, value)
            } else {
                let mut single: Vec<(Term, Term)> = Vec::new();
                single.push((key, value));
                proof {
                    reveal_with_fuel(as_map, 2);
                    assert(single@.drop_last() =~= Seq::<(Term, Term)>::empty());
                    assert(single@.last() == single@[0]);
                }
                (Arc::new(Node::Leaf(single)), true)
            };
            let (marked, out) = with_child(*bitmap, c, i, child);
            let ghost kids = out;
            let r = Arc::new(Node::Branch { bitmap: marked, children: out });
            {
                proof {
                    let target = map_at(&**n, lv).insert(key@, value@);
                    assert forall|j: int| 0 <= j < 32 implies #[trigger] child_wf(
                        marked,
                        kids,
                        j,
                        lv,
                        prefix,
                    ) by {
                        lemma_slot_child(marked, &kids, j, lv, prefix);
                        lemma_slot_child(*bitmap, c, j, lv, prefix);
                        if j != i {
                            lemma_child_wf(*bitmap, c, 32, lv, prefix, j);
                            assert(slot_child(marked, kids@, j) == slot_child(*bitmap, c@, j));
                        }
                    }
                    lemma_children_wf(marked, &kids, 32, lv, prefix);
                    lemma_slot_child(marked, &kids, i as int, lv, prefix);
                    lemma_slot_child(*bitmap, c, i as int, lv, prefix);
                    assert(child_map(marked, kids, i as int, lv) =~= child_map(
                        *bitmap,
                        *c,
                        i as int,
                        lv,
                    ).insert(key@, value@));
                    assert forall|q: TermView|
                        #![trigger node_map(*r, lv).dom().contains(q)]
                        #![trigger target.dom().contains(q)]
                        #![trigger node_map(*r, lv)[q]]
                        #![trigger target[q]]
                        node_map(*r, lv).dom().contains(q) == target.dom().contains(q) && (
                        target.dom().contains(q) ==> node_map(*r, lv)[q] == target[q]) by {
                        let j = slot(term_hash(q), lv);
                        lemma_slot(term_hash(q), lv);
                        if j != i {
                            lemma_slot_child(marked, &kids, j, lv, prefix);
                            lemma_slot_child(*bitmap, c, j, lv, prefix);
                            assert(slot_child(marked, kids@, j) == slot_child(*bitmap, c@, j));
                            assert(child_map(marked, kids, j, lv) == child_map(*bitmap, *c, j, lv));
                        }
                        assert(node_map(**n, lv).dom().contains(q) == child_map(
                            *bitmap,
                            *c,
                            j,
                            lv,
                        ).dom().contains(q));
                        assert(node_map(*r, lv).dom().contains(q) == child_map(
                            marked,
                            kids,
                            j,
                            lv,
                        ).dom().contains(q));
                    }
                    assert(node_map(*r, lv) =~= target);
                }
            }
            (r, added)
        },
    }
}

/// The node without the key, and whether the node held the key. `None`
/// where no key is left. The node that is passed is not changed.
fn node_remove(n: &Arc<Node>, hash: u32, level: u64, key: &Term) -> (r: (Option<Arc<Node>>, bool))
    requires
        is_level(level as int),
        node_wf(**n, level as int, hash as int % (level as int)),
        hash == term_hash(key@),
    ensures
        match r.0 {
            Some(m) => node_wf(*m, level as int, hash as int % (level as int)) && node_map(
                *m,
                level as int,
            ) == node_map(**n, level as int).remove(key@),
            None => node_map(**n, level as int).remove(key@) == Map::<TermView, TermView>::empty(),
        },
        r.1 == node_map(**n, level as int).dom().contains(key@),
    decreases **n,
{
    let ghost lv = level as int;
    let ghost prefix = hash as int % lv;
    match &**n {
        Node::Leaf(v) => match position(v, key) {
            Some(i) => {
                let mut out = copy_entries(v);
                proof {
                    lemma_as_map_remove(out@, i as int);
                }
                let ghost before = out@;
                out.remove(i);
                if out.len() == 0 {
                    return (None, true);
                }
                proof {
                    assert forall|j: int| 0 <= j < out.len() implies entry_hash(#[trigger] out@[j])
                        == entry_hash(v@[0]) by {
                        let k = if j < i {
                            j
                        } else {
                            j + 1
                        };
                        assert(out@[j] == before[k]);
                        assert(entry_hash(v@[k]) == entry_hash(v@[0]));
                    }
                    assert(entry_hash(v@[0]) as int % lv == prefix);
                    assert forall|a: int, b: int| 0 <= a < b < out.len() implies !term_less(
                        (#[trigger] out@[b]).0@,
                        (#[trigger] out@[a]).0@,
                    ) by {
                        let x = if a < i {
                            a
                        } else {
                            a + 1
                        };
                        let y = if b < i {
                            b
                        } else {
                            b + 1
                        };
                        assert(out@[a] == before[x] && out@[b] == before[y]);
                        assert(!term_less(before[y].0@, before[x].0@));
                    }
                }
                (Some(Arc::new(Node::Leaf(out))), true)
            },
            None => {
                proof {
                    assert(as_map(v@).remove(key@) =~= as_map(v@));
                }
                (Some(share(n)), false)
            },
        },
        Node::Branch { bitmap, children: c } => {
            let i: usize = ((hash as u64 / level) % 32) as usize;
            proof {
                lemma_slot(hash, lv);
                lemma_child_wf(*bitmap, c, 32, lv, prefix, i as int);
            }
            let (set, place) = probe(*bitmap, i);
            if !set {
                proof {
                    assert(node_map(**n, lv).remove(key@) =~= node_map(**n, lv));
                }
                return (Some(share(n)), false);
            }
            proof {
                lemma_slot_in_range(*bitmap, c.len() as int, i as int);
                vstd::std_specs::vec::axiom_vec_index_decreases(*c, place as int);
            }
            let (child, removed) = node_remove(&c[place], hash, level * 32, key);
            let (marked, out) = match child {
                Some(child) => with_child(*bitmap, c, i, child),
                None => without_child(*bitmap, c, i),
            };
            let ghost kids = out;
            let ghost built = Node::Branch { bitmap: marked, children: kids };
            proof {
                let target = map_at(&**n, lv).remove(key@);
                assert forall|j: int| 0 <= j < 32 implies #[trigger] child_wf(
                    marked,
                    kids,
                    j,
                    lv,
                    prefix,
                ) by {
                    lemma_slot_child(marked, &kids, j, lv, prefix);
                    lemma_slot_child(*bitmap, c, j, lv, prefix);
                    if j != i {
                        lemma_child_wf(*bitmap, c, 32, lv, prefix, j);
                        assert(slot_child(marked, kids@, j) == slot_child(*bitmap, c@, j));
                    }
                }
                lemma_children_wf(marked, &kids, 32, lv, prefix);
                lemma_slot_child(marked, &kids, i as int, lv, prefix);
                lemma_slot_child(*bitmap, c, i as int, lv, prefix);
                assert(child_map(marked, kids, i as int, lv) =~= child_map(
                    *bitmap,
                    *c,
                    i as int,
                    lv,
                ).remove(key@));
                assert forall|q: TermView|
                    #![trigger node_map(built, lv).dom().contains(q)]
                    #![trigger target.dom().contains(q)]
                    #![trigger node_map(built, lv)[q]]
                    #![trigger target[q]]
                    node_map(built, lv).dom().contains(q) == target.dom().contains(q) && (
                    target.dom().contains(q) ==> node_map(built, lv)[q] == target[q]) by {
                    let j = slot(term_hash(q), lv);
                    lemma_slot(term_hash(q), lv);
                    if j != i {
                        lemma_slot_child(marked, &kids, j, lv, prefix);
                        lemma_slot_child(*bitmap, c, j, lv, prefix);
                        assert(slot_child(marked, kids@, j) == slot_child(*bitmap, c@, j));
                        assert(child_map(marked, kids, j, lv) == child_map(*bitmap, *c, j, lv));
                    }
                    assert(node_map(**n, lv).dom().contains(q) == child_map(
                        *bitmap,
                        *c,
                        j,
                        lv,
                    ).dom().contains(q));
                    assert(node_map(built, lv).dom().contains(q) == child_map(
                        marked,
                        kids,
                        j,
                        lv,
                    ).dom().contains(q));
                }
                assert(node_map(built, lv) =~= target);
            }
            (pruned(marked, out, Ghost(lv), Ghost(prefix)), removed)
        },
    }
}

/// No key is a key of both maps.
pub open spec fn disjoint(a: Map<TermView, TermView>, b: Map<TermView, TermView>) -> bool {
    forall|q: TermView| !(#[trigger] a.dom().contains(q) && b.dom().contains(q))
}

/// The part of the map of a branch that lies in its first `j` slots.
pub open spec fn branch_part(bitmap: u32, c: Vec<Arc<Node>>, level: int, j: int) -> Map<
    TermView,
    TermView,
> {
    Map::new(
        |q: TermView|
            slot(term_hash(q), level) < j && child_map(
                bitmap,
                c,
                slot(term_hash(q), level),
                level,
            ).dom().contains(q),
        |q: TermView| child_map(bitmap, c, slot(term_hash(q), level), level)[q],
    )
}

/// The keys of the child in slot `i` of a sound branch belong to slot `i`.
pub proof fn lemma_child_slot(
    bitmap: u32,
    c: &Vec<Arc<Node>>,
    i: int,
    level: int,
    prefix: int,
    q: TermView,
)
    requires
        level > 0,
        0 <= prefix < level,
        0 <= i < 32,
        child_wf(bitmap, *c, i, level, prefix),
        child_map(bitmap, *c, i, level).dom().contains(q),
    ensures
        slot(term_hash(q), level) == i,
{
    lemma_node_keys(&*c[rank(bitmap as int, i)], 32 * level, prefix + i * level, q);
    lemma_slot(term_hash(q), level);
    let h = term_hash(q) as int;
    let s = slot(term_hash(q), level);
    assert(s == i) by (nonlinear_arith)
        requires
            h % level + s * level == prefix + i * level,
            0 <= h % level < level,
            0 <= prefix < level,
    ;
}

/// An entry whose key the entries do not have joins them without making a
/// key occur twice.
proof fn lemma_push_distinct(s: Seq<(Term, Term)>, e: (Term, Term))
    requires
        distinct_keys(s),
        !as_map(s).dom().contains(e.0@),
    ensures
        distinct_keys(s.push(e)),
        as_map(s.push(e)) == as_map(s).insert(e.0@, e.1@),
{
    let t = s.push(e);
    assert(t.drop_last() =~= s);
    lemma_as_map_dom(s, e.0@);
    assert forall|a: int, b: int| 0 <= a < b < t.len() implies (#[trigger] t[a]).0@ != (
    #[trigger] t[b]).0@ by {
        if b < s.len() {
            assert(s[a].0@ != s[b].0@);
        } else {
            assert(s[a].0@ != e.0@);
        }
    }
}

/// Adds copies of the entries of a node to `out`.
fn node_collect(n: &Node, Ghost(level): Ghost<int>, Ghost(prefix): Ghost<int>, out: &mut Vec<(Term, Term)>)
    requires
        level > 0,
        0 <= prefix < level,
        node_wf(*n, level, prefix),
        distinct_keys(old(out)@),
        disjoint(as_map(old(out)@), node_map(*n, level)),
    ensures
        distinct_keys(final(out)@),
        as_map(final(out)@) == as_map(old(out)@).union_prefer_right(node_map(*n, level)),
    decreases n,
{
    let ghost base = as_map(out@);
    match n {
        Node::Leaf(v) => {
            let mut i: usize = 0;
            proof {
                assert(v@.subrange(0, 0) =~= Seq::<(Term, Term)>::empty());
                assert(base.union_prefer_right(as_map(v@.subrange(0, 0))) =~= base);
            }
            while i < v.len()
                invariant
                    i <= v.len(),
                    distinct_keys(v@),
                    disjoint(base, as_map(v@)),
                    distinct_keys(out@),
                    as_map(out@) == base.union_prefer_right(as_map(v@.subrange(0, i as int))),
                decreases v.len() - i,
            {
                let k = duplicate(&v[i].0);
                let x = duplicate(&v[i].1);
                proof {
                    let sub = v@.subrange(0, i as int);
                    let next = v@.subrange(0, i + 1);
                    assert(next.drop_last() =~= sub);
                    assert(next.last() == v@[i as int]);
                    lemma_as_map_value(v@, i as int);
                    lemma_as_map_dom(sub, k@);
                    if as_map(sub).dom().contains(k@) {
                        let j = choose|j: int| 0 <= j < sub.len() && (#[trigger] sub[j]).0@ == k@;
                        assert(v@[j].0@ != v@[i as int].0@);
                    }
                    assert(!base.dom().contains(k@));
                    lemma_push_distinct(out@, (k, x));
                    assert(as_map(out@).insert(k@, x@) =~= base.union_prefer_right(as_map(next)));
                }
                out.push((k, x));
                i = i + 1;
            }
            proof {
                assert(v@.subrange(0, v.len() as int) =~= v@);
            }
        },
        Node::Branch { bitmap, children: c } => {
            let mut j: usize = 0;
            proof {
                assert(base.union_prefer_right(branch_part(*bitmap, *c, level, 0)) =~= base);
            }
            while j < 32
                invariant
                    j <= 32,
                    level > 0,
                    0 <= prefix < level,
                    *n == (Node::Branch { bitmap: *bitmap, children: *c }),
                    node_wf(*n, level, prefix),
                    c.len() == rank(*bitmap as int, 32),
                    disjoint(base, node_map(*n, level)),
                    distinct_keys(out@),
                    as_map(out@) == base.union_prefer_right(branch_part(*bitmap, *c, level, j as int)),
                decreases 32 - j,
            {
                proof {
                    lemma_child_wf(*bitmap, c, 32, level, prefix, j as int);
                    assert forall|q: TermView| #[trigger]
                        child_map(*bitmap, *c, j as int, level).dom().contains(q) implies slot(
                        term_hash(q),
                        level,
                    ) == j by {
                        lemma_child_slot(*bitmap, c, j as int, level, prefix, q);
                    }
                }
                let ghost before = as_map(out@);
                let ghost cm = child_map(*bitmap, *c, j as int, level);
                let (set, place) = probe(*bitmap, j);
                match set {
                    true => {
                        proof {
                            lemma_slot_in_range(*bitmap, c.len() as int, j as int);
                        }
                        let child = &c[place];
                        proof {
                            vstd::std_specs::vec::axiom_vec_index_decreases(*c, place as int);
                            assert(cm == node_map(**child, 32 * level));
                            assert forall|q: TermView|
                                !(#[trigger] before.dom().contains(q) && cm.dom().contains(q)) by {
                                if cm.dom().contains(q) {
                                    assert(slot(term_hash(q), level) == j);
                                    assert(node_map(*n, level).dom().contains(q));
                                    assert(!base.dom().contains(q));
                                    assert(!branch_part(*bitmap, *c, level, j as int).dom().contains(q));
                                }
                            }
                            assert(prefix + j * level < 32 * level) by (nonlinear_arith)
                                requires
                                    0 <= prefix < level,
                                    0 <= j < 32,
                            ;
                            assert(0 <= prefix + j * level) by (nonlinear_arith)
                                requires
                                    0 <= prefix,
                                    level > 0,
                                    0 <= j,
                            ;
                        }
                        node_collect(
                            &**child,
                            Ghost(32 * level),
                            Ghost(prefix + j * level),
                            out,
                        );
                    },
                    false => {
                        proof {
                            assert(before.union_prefer_right(cm) =~= before);
                        }
                    },
                }
                proof {
                    let after = as_map(out@);
                    let target = base.union_prefer_right(branch_part(*bitmap, *c, level, j + 1));
                    assert(after == before.union_prefer_right(cm));
                    assert forall|q: TermView|
                        #![trigger after.dom().contains(q)]
                        #![trigger target.dom().contains(q)]
                        #![trigger after[q]]
                        #![trigger target[q]]
                        after.dom().contains(q) == target.dom().contains(q) && (
                        after.dom().contains(q) ==> after[q] == target[q]) by {
                        let s = slot(term_hash(q), level);
                        let part = branch_part(*bitmap, *c, level, j as int);
                        let more = branch_part(*bitmap, *c, level, j + 1);
                        assert(before.dom().contains(q) == (base.dom().contains(q)
                            || part.dom().contains(q)));
                        assert(after.dom().contains(q) == (before.dom().contains(q)
                            || cm.dom().contains(q)));
                        if cm.dom().contains(q) {
                            assert(s == j);
                        }
                        assert(more.dom().contains(q) == (part.dom().contains(q)
                            || cm.dom().contains(q)));
                        assert(target.dom().contains(q) == (base.dom().contains(q)
                            || more.dom().contains(q)));
                    }
                    assert(after =~= target);
                }
                j = j + 1;
            }
            proof {
                assert(branch_part(*bitmap, *c, level, 32) =~= node_map(*n, level)) by {
                    assert forall|q: TermView| slot(term_hash(q), level) < 32 by {
                        lemma_slot(term_hash(q), level);
                    }
                }
            }
        },
    }
}

impl View for HAMT {
    type V = Map<TermView, TermView>;

    open spec fn view(&self) -> Map<TermView, TermView> {
        match self.root {
            Some(root) => node_map(*root, 1),
            None => Map::empty(),
        }
    }
}

impl HAMT {
    /// The trie is sound, and the size is the number of keys.
    pub open spec fn wf(&self) -> bool {
        &&& self.root matches Some(root) ==> node_wf(*root, 1, 0)
        &&& self@.dom().finite()
        &&& self.size == self@.dom().len()
    }

    /// The empty map.
    pub fn new() -> (m: HAMT)
        ensures
            m.wf(),
            m@ == Map::<TermView, TermView>::empty(),
    {
        HAMT { root: None, size: 0 }
    }

    /// The number of keys.
    pub fn len(&self) -> (n: usize)
        requires
            self.wf(),
        ensures
            self@.dom().finite(),
            n == self@.dom().len(),
    {
        self.size
    }

    /// A map that shares all of the trie of this one.
    pub fn duplicate(&self) -> (m: HAMT)
        ensures
            m == *self,
    {
        match &self.root {
            Some(root) => HAMT { root: Some(share(root)), size: self.size },
            None => HAMT { root: None, size: self.size },
        }
    }

    /// The value of the key, if the map holds the key.
    pub fn get(&self, key: &Term) -> (r: Option<&Term>)
        requires
            self.wf(),
        ensures
            r is Some <==> self@.dom().contains(key@),
            r matches Some(v) ==> v@ == self@[key@],
    {
        match &self.root {
            Some(root) => node_get(&**root, hash_term(key), 1, key),
            None => None,
        }
    }

    /// Whether the map holds the key.
    pub fn contains_key(&self, key: &Term) -> (r: bool)
        requires
            self.wf(),
        ensures
            r == self@.dom().contains(key@),
    {
        self.get(key).is_some()
    }

    /// Gives the key the value, whether the map held the key or not. The
    /// maps that share the trie of this map are not changed.
    pub fn insert(&mut self, key: Term, value: Term)
        requires
            old(self).wf(),
            old(self)@.dom().len() < usize::MAX || old(self)@.dom().contains(key@),
        ensures
            final(self).wf(),
            final(self)@ == old(self)@.insert(key@, value@),
    {
        let hash: u32 = hash_term(&key);
        let ghost k = key@;
        let ghost before = self@;
        match &self.root {
            Some(root) => {
                let (node, added) = node_insert(root, hash, 1, key, value);
                self.root = Some(node);
                if added {
                    self.size = self.size + 1;
                }
            },
            None => {
                let mut single: Vec<(Term, Term)> = Vec::new();
                single.push((key, value));
                proof {
                    reveal_with_fuel(as_map, 2);
                    assert(single@.drop_last() =~= Seq::<(Term, Term)>::empty());
                    assert(single@.last() == single@[0]);
                }
                self.root = Some(Arc::new(Node::Leaf(single)));
                self.size = 1;
            },
        }
        proof {
            assert(self@.dom() =~= before.dom().insert(k));
        }
    }

    /// Takes the key out, if the map holds it. The maps that share the trie
    /// of this map are not changed.
    pub fn remove(&mut self, key: &Term)
        requires
            old(self).wf(),
        ensures
            final(self).wf(),
            final(self)@ == old(self)@.remove(key@),
    {
        let hash: u32 = hash_term(key);
        let ghost before = self@;
        match &self.root {
            Some(root) => {
                let (node, removed) = node_remove(root, hash, 1, key);
                self.root = node;
                if removed {
                    self.size = self.size - 1;
                }
            },
            None => {
                assert(self@.remove(key@) =~= self@);
            },
        }
        proof {
            assert(self@.dom() =~= before.dom().remove(key@));
        }
    }

    /// The map with the key given the value. It shares with this map what
    /// does not lie on the way to the key.
    pub fn update(&self, key: Term, value: Term) -> (m: HAMT)
        requires
            self.wf(),
            self@.dom().len() < usize::MAX || self@.dom().contains(key@),
        ensures
            m.wf(),
            m@ == self@.insert(key@, value@),
    {
        let mut m = self.duplicate();
        m.insert(key, value);
        m
    }

    /// The value of the key and the map without the key, if the map holds
    /// the key.
    pub fn extract(&self, key: &Term) -> (r: Option<(Term, HAMT)>)
        requires
            self.wf(),
        ensures
            r is Some <==> self@.dom().contains(key@),
            r matches Some(p) ==> p.0@ == self@[key@] && p.1.wf() && p.1@ == self@.remove(key@),
    {
        match self.get(key) {
            Some(value) => {
                let value: Term = duplicate(value);
                let mut rest = self.duplicate();
                rest.remove(key);
                Some((value, rest))
            },
            None => None,
        }
    }

    /// Copies of the entries: every key once, with its value.
    pub fn iter(&self) -> (r: Vec<(Term, Term)>)
        requires
            self.wf(),
        ensures
            distinct_keys(r@),
            as_map(r@) == self@,
            r.len() == self@.dom().len(),
    {
        let mut out: Vec<(Term, Term)> = Vec::new();
        match &self.root {
            Some(root) => {
                node_collect(&**root, Ghost(1), Ghost(0), &mut out);
                proof {
                    assert(Map::<TermView, TermView>::empty().union_prefer_right(self@) =~= self@);
                }
            },
            None => {},
        }
        proof {
            lemma_as_map_len(out@);
        }
        out
    }

    /// The map of the keys of both maps. A key of both keeps the value that
    /// it has in this map.
    pub fn union(self, other: HAMT) -> (m: HAMT)
        requires
            self.wf(),
            other.wf(),
            self@.dom().len() + other@.dom().len() <= usize::MAX,
        ensures
            m.wf(),
            m@ == other@.union_prefer_right(self@),
    {
        let mut m = self;
        let ghost left = m@;
        let entries: Vec<(Term, Term)> = other.iter();
        let mut i: usize = 0;
        proof {
            assert(entries@.subrange(0, 0) =~= Seq::<(Term, Term)>::empty());
            assert(as_map(entries@.subrange(0, 0)).union_prefer_right(left) =~= left);
            lemma_as_map_len(entries@.subrange(0, 0));
        }
        while i < entries.len()
            invariant
                i <= entries.len(),
                m.wf(),
                distinct_keys(entries@),
                left.dom().finite(),
                left.dom().len() + entries.len() <= usize::MAX,
                m@ == as_map(entries@.subrange(0, i as int)).union_prefer_right(left),
                m@.dom().len() <= left.dom().len() + i,
            decreases entries.len() - i,
        {
            let ghost prefix = entries@.subrange(0, i as int);
            let ghost next = entries@.subrange(0, i + 1);
            proof {
                assert(next.drop_last() =~= prefix);
                assert(next.last() == entries@[i as int]);
                let k = entries@[i as int].0@;
                lemma_as_map_dom(prefix, k);
                if as_map(prefix).dom().contains(k) {
                    let j = choose|j: int| 0 <= j < prefix.len() && (#[trigger] prefix[j]).0@ == k;
                    assert(entries@[j].0@ != entries@[i as int].0@);
                }
            }
            if !m.contains_key(&entries[i].0) {
                let k = duplicate(&entries[i].0);
                let v = duplicate(&entries[i].1);
                m.insert(k, v);
            }
            proof {
                assert(m@ =~= as_map(next).union_prefer_right(left));
            }
            i = i + 1;
        }
        assert(entries@.subrange(0, entries.len() as int) =~= entries@);
        m
    }

    /// Copies of the keys: every key once.
    pub fn keys(&self) -> (r: Vec<Term>)
        requires
            self.wf(),
        ensures
            r.len() == self@.dom().len(),
            forall|i: int| 0 <= i < r.len() ==> self@.dom().contains((#[trigger] r@[i])@),
            forall|i: int, j: int| 0 <= i < j < r.len() ==> (#[trigger] r@[i])@ != (#[trigger] r@[j])@,
    {
        let mut entries: Vec<(Term, Term)> = self.iter();
        let ghost all = entries@;
        let mut out: Vec<Term> = Vec::new();
        while entries.len() > 0
            invariant
                entries.len() <= all.len(),
                entries@ == all.subrange(0, entries.len() as int),
                out.len() == all.len() - entries.len(),
                forall|j: int|
                    0 <= j < out.len() ==> (#[trigger] out@[j]) == all[all.len() - 1 - j].0,
            decreases entries.len(),
        {
            let ghost n = entries.len() as int;
            let (key, _) = entries.pop().unwrap();
            out.push(key);
            assert(entries@ =~= all.subrange(0, n - 1));
        }
        proof {
            assert forall|j: int| 0 <= j < out.len() implies self@.dom().contains(
                (#[trigger] out@[j])@,
            ) by {
                lemma_as_map_value(all, all.len() - 1 - j);
            }
            assert forall|a: int, b: int| 0 <= a < b < out.len() implies (#[trigger] out@[a])@ != (
            #[trigger] out@[b])@ by {
                assert(all[all.len() - 1 - b].0@ != all[all.len() - 1 - a].0@);
            }
        }
        out
    }

    /// Copies of the values, one for every key: the value of each key
    /// occurs as often as keys have it.
    pub fn values(&self) -> (r: Vec<Term>)
        requires
            self.wf(),
        ensures
            r.len() == self@.dom().len(),
            forall|i: int| 0 <= i < r.len() ==> self@.contains_value((#[trigger] r@[i])@),
            values_of(r@, self@),
    {
        let entries: Vec<(Term, Term)> = self.iter();
        let mut out: Vec<Term> = Vec::new();
        let mut i: usize = 0;
        while i < entries.len()
            invariant
                i <= entries.len(),
                out.len() == i,
                forall|j: int| 0 <= j < i ==> (#[trigger] out@[j])@ == entries@[j].1@,
            decreases entries.len() - i,
        {
            out.push(duplicate(&entries[i].1));
            i = i + 1;
        }
        proof {
            assert forall|j: int| 0 <= j < out.len() implies self@.contains_value(
                (#[trigger] out@[j])@,
            ) by {
                lemma_as_map_value(entries@, j);
                let k = entries@[j].0@;
                assert(self@.dom().contains(k) && self@[k] == out@[j]@);
            }
            assert(lists_values(out@, entries@, self@));
        }
        out
    }
}

/// The values are those of the entries, one for one, and the entries are
/// the map, every key once.
pub open spec fn lists_values(
    values: Seq<Term>,
    entries: Seq<(Term, Term)>,
    m: Map<TermView, TermView>,
) -> bool {
    &&& distinct_keys(entries)
    &&& as_map(entries) == m
    &&& values.len() == entries.len()
    &&& forall|i: int| 0 <= i < values.len() ==> (#[trigger] values[i])@ == entries[i].1@
}

/// The values are the values of the map, one for every key, in the order
/// of some listing of the map's entries.
pub open spec fn values_of(values: Seq<Term>, m: Map<TermView, TermView>) -> bool {
    exists|entries: Seq<(Term, Term)>| lists_values(values, entries, m)
}

/// Entries in the order of the terms that spell one map are the same
/// entries: a map has one listing in that order.
pub proof fn lemma_one_listing(s: Seq<(Term, Term)>, t: Seq<(Term, Term)>)
    requires
        distinct_keys(s),
        distinct_keys(t),
        ascending(s),
        ascending(t),
        as_map(s) == as_map(t),
    ensures
        s.len() == t.len(),
        forall|i: int| 0 <= i < s.len() ==> (#[trigger] s[i]).0@ == t[i].0@ && s[i].1@ == t[i].1@,
    decreases s.len(),
{
    lemma_as_map_len(s);
    lemma_as_map_len(t);
    if s.len() > 0 {
        let k = s[0].0@;
        let l = t[0].0@;
        lemma_as_map_value(s, 0);
        lemma_as_map_value(t, 0);
        lemma_as_map_dom(t, k);
        lemma_as_map_dom(s, l);
        let j = choose|j: int| 0 <= j < t.len() && (#[trigger] t[j]).0@ == k;
        let i = choose|i: int| 0 <= i < s.len() && (#[trigger] s[i]).0@ == l;
        if j > 0 {
            assert(!term_less(t[j].0@, t[0].0@));
            assert(t[0].0@ != t[j].0@);
            lemma_order_total(&t[0].0, &t[j].0);
            assert(term_less(l, k));
            if i > 0 {
                assert(!term_less(s[i].0@, s[0].0@));
            }
            assert(false);
        }
        assert(k == l);
        assert(s[0].1@ == t[0].1@);
        let s1 = s.remove(0);
        let t1 = t.remove(0);
        lemma_as_map_remove(s, 0);
        lemma_as_map_remove(t, 0);
        assert forall|a: int, b: int| 0 <= a < b < s1.len() implies !term_less(
            (#[trigger] s1[b]).0@,
            (#[trigger] s1[a]).0@,
        ) by {
            assert(s1[a] == s[a + 1] && s1[b] == s[b + 1]);
        }
        assert forall|a: int, b: int| 0 <= a < b < t1.len() implies !term_less(
            (#[trigger] t1[b]).0@,
            (#[trigger] t1[a]).0@,
        ) by {
            assert(t1[a] == t[a + 1] && t1[b] == t[b + 1]);
        }
        lemma_one_listing(s1, t1);
        assert forall|i: int| 0 <= i < s.len() implies (#[trigger] s[i]).0@ == t[i].0@ && s[i].1@
            == t[i].1@ by {
            if i > 0 {
                assert(s1[i - 1] == s[i] && t1[i - 1] == t[i]);
            }
        }
    }
}

/// A sound node holds a key.
pub proof fn lemma_inhabited(n: &Node, level: int, prefix: int) -> (q: TermView)
    requires
        level > 0,
        0 <= prefix < level,
        node_wf(*n, level, prefix),
    ensures
        node_map(*n, level).dom().contains(q),
    decreases n,
{
    match n {
        Node::Leaf(v) => {
            lemma_as_map_value(v@, 0);
            v@[0].0@
        },
        Node::Branch { bitmap, children } => {
            let i = lemma_some_bit(*bitmap as int, 32);
            lemma_slot_in_range(*bitmap, children.len() as int, i);
            lemma_child_wf(*bitmap, children, 32, level, prefix, i);
            assert(0 <= prefix + i * level < 32 * level) by (nonlinear_arith)
                requires
                    0 <= prefix < level,
                    0 <= i < 32,
            ;
            let q = lemma_inhabited(
                &*children[rank(*bitmap as int, i)],
                32 * level,
                prefix + i * level,
            );
            lemma_child_slot(*bitmap, children, i, level, prefix, q);
            q
        },
    }
}

/// A sound branch holds two keys with different hashes.
pub proof fn lemma_two_hashes(n: &Node, level: int, prefix: int) -> (r: (TermView, TermView))
    requires
        level > 0,
        0 <= prefix < level,
        node_wf(*n, level, prefix),
        n is Branch,
    ensures
        node_map(*n, level).dom().contains(r.0),
        node_map(*n, level).dom().contains(r.1),
        term_hash(r.0) != term_hash(r.1),
    decreases n,
{
    let bitmap = n->Branch_bitmap;
    let children = n->Branch_children;
    let i = lemma_some_bit(bitmap as int, 32);
    lemma_slot_in_range(bitmap, children.len() as int, i);
    lemma_child_wf(bitmap, &children, 32, level, prefix, i);
    assert(0 <= prefix + i * level < 32 * level) by (nonlinear_arith)
        requires
            0 <= prefix < level,
            0 <= i < 32,
    ;
    lemma_rank_step(bitmap as int, i);
    if children.len() == 1 {
        assert(rank(bitmap as int, i) == 0);
        let r = lemma_two_hashes(&*children[0], 32 * level, prefix + i * level);
        lemma_child_slot(bitmap, &children, i, level, prefix, r.0);
        lemma_child_slot(bitmap, &children, i, level, prefix, r.1);
        r
    } else {
        let p = lemma_inhabited(
            &*children[rank(bitmap as int, i)],
            32 * level,
            prefix + i * level,
        );
        lemma_child_slot(bitmap, &children, i, level, prefix, p);
        let j = lemma_some_bit(bitmap as int, i);
        lemma_slot_in_range(bitmap, children.len() as int, j);
        lemma_child_wf(bitmap, &children, 32, level, prefix, j);
        assert(0 <= prefix + j * level < 32 * level) by (nonlinear_arith)
            requires
                0 <= prefix < level,
                0 <= j < 32,
        ;
        let q = lemma_inhabited(
            &*children[rank(bitmap as int, j)],
            32 * level,
            prefix + j * level,
        );
        lemma_child_slot(bitmap, &children, j, level, prefix, q);
        (p, q)
    }
}

/// The child in a slot of a sound branch holds the keys of the branch that
/// belong to the slot.
pub proof fn lemma_child_keys(n: &Node, level: int, prefix: int, i: int, q: TermView)
    requires
        level > 0,
        0 <= prefix < level,
        node_wf(*n, level, prefix),
        n is Branch,
        0 <= i < 32,
    ensures
        child_map(n->Branch_bitmap, n->Branch_children, i, level).dom().contains(q) <==> node_map(
            *n,
            level,
        ).dom().contains(q) && slot(term_hash(q), level) == i,
        child_map(n->Branch_bitmap, n->Branch_children, i, level).dom().contains(q) ==> child_map(
            n->Branch_bitmap,
            n->Branch_children,
            i,
            level,
        )[q] == node_map(*n, level)[q],
{
    let bitmap = n->Branch_bitmap;
    let children = n->Branch_children;
    if child_map(bitmap, children, i, level).dom().contains(q) {
        lemma_child_wf(bitmap, &children, 32, level, prefix, i);
        lemma_child_slot(bitmap, &children, i, level, prefix, q);
    }
}

/// Sound nodes for one place that hold the same map are the same node: a
/// trie goes by what it holds.
pub proof fn lemma_one_trie(a: &Node, b: &Node, level: int, prefix: int)
    requires
        level > 0,
        0 <= prefix < level,
        node_wf(*a, level, prefix),
        node_wf(*b, level, prefix),
        node_map(*a, level) == node_map(*b, level),
    ensures
        node_view(*a) == node_view(*b),
    decreases a,
{
    match a {
        Node::Leaf(v) => {
            if b is Branch {
                let r = lemma_two_hashes(b, level, prefix);
                lemma_as_map_dom(v@, r.0);
                lemma_as_map_dom(v@, r.1);
                let i = choose|i: int| 0 <= i < v@.len() && (#[trigger] v@[i]).0@ == r.0;
                let j = choose|j: int| 0 <= j < v@.len() && (#[trigger] v@[j]).0@ == r.1;
                assert(entry_hash(v@[i]) == entry_hash(v@[0]));
                assert(entry_hash(v@[j]) == entry_hash(v@[0]));
                assert(false);
            }
            let w = b->Leaf_0;
            lemma_one_listing(v@, w@);
            let x = node_view(*a)->Leaf_0;
            let y = node_view(*b)->Leaf_0;
            assert forall|i: int| 0 <= i < x.len() implies x[i] == y[i] by {
                assert(v@[i].0@ == w@[i].0@ && v@[i].1@ == w@[i].1@);
            }
            assert(x =~= y);
        },
        Node::Branch { bitmap, children: c } => {
            if b is Leaf {
                let w = b->Leaf_0;
                let r = lemma_two_hashes(a, level, prefix);
                lemma_as_map_dom(w@, r.0);
                lemma_as_map_dom(w@, r.1);
                let i = choose|i: int| 0 <= i < w@.len() && (#[trigger] w@[i]).0@ == r.0;
                let j = choose|j: int| 0 <= j < w@.len() && (#[trigger] w@[j]).0@ == r.1;
                assert(entry_hash(w@[i]) == entry_hash(w@[0]));
                assert(entry_hash(w@[j]) == entry_hash(w@[0]));
                assert(false);
            }
            let other = b->Branch_bitmap;
            let d = b->Branch_children;
            // the children in each slot hold the same keys
            assert forall|i: int| 0 <= i < 32 implies #[trigger] child_map(*bitmap, *c, i, level)
                == child_map(other, d, i, level) by {
                let x = child_map(*bitmap, *c, i, level);
                let y = child_map(other, d, i, level);
                assert forall|q: TermView|
                    #![trigger x.dom().contains(q)]
                    #![trigger y.dom().contains(q)]
                    x.dom().contains(q) == y.dom().contains(q) && (x.dom().contains(q) ==> x[q]
                        == y[q]) by {
                    lemma_child_keys(a, level, prefix, i, q);
                    lemma_child_keys(b, level, prefix, i, q);
                }
                assert(x =~= y);
            }
            // so the same slots hold a child
            assert forall|i: int| 0 <= i < 32 implies #[trigger] bit(*bitmap as int, i) == bit(
                other as int,
                i,
            ) by {
                assert(0 <= prefix + i * level < 32 * level) by (nonlinear_arith)
                    requires
                        0 <= prefix < level,
                        0 <= i < 32,
                ;
                assert(child_map(*bitmap, *c, i, level) == child_map(other, d, i, level));
                if bit(*bitmap as int, i) {
                    lemma_slot_in_range(*bitmap, c.len() as int, i);
                    lemma_child_wf(*bitmap, c, 32, level, prefix, i);
                    let q = lemma_inhabited(
                        &*c[rank(*bitmap as int, i)],
                        32 * level,
                        prefix + i * level,
                    );
                    assert(child_map(other, d, i, level).dom().contains(q));
                }
                if bit(other as int, i) {
                    lemma_slot_in_range(other, d.len() as int, i);
                    lemma_child_wf(other, &d, 32, level, prefix, i);
                    let q = lemma_inhabited(
                        &*d[rank(other as int, i)],
                        32 * level,
                        prefix + i * level,
                    );
                    assert(child_map(*bitmap, *c, i, level).dom().contains(q));
                }
            }
            assert(bit_value(32) == 0x1_0000_0000) by {
                reveal_with_fuel(bit_value, 33);
            }
            lemma_same_bits(*bitmap as int, other as int, 32);
            assert(*bitmap == other);
            assert(c.len() == d.len());
            let x = node_view(*a)->Branch_1;
            let y = node_view(*b)->Branch_1;
            assert forall|k: int| 0 <= k < c.len() implies x[k] == y[k] by {
                let i = lemma_slot_of_rank(*bitmap as int, 32, k);
                assert(0 <= prefix + i * level < 32 * level) by (nonlinear_arith)
                    requires
                        0 <= prefix < level,
                        0 <= i < 32,
                ;
                lemma_child_wf(*bitmap, c, 32, level, prefix, i);
                lemma_child_wf(other, &d, 32, level, prefix, i);
                assert(child_map(*bitmap, *c, i, level) == child_map(other, d, i, level));
                lemma_one_trie(&*c[k], &*d[k], 32 * level, prefix + i * level);
                assert(x[k] == node_view(*c@[k]));
                assert(y[k] == node_view(*d@[k]));
            }
            assert(x =~= y);
        },
    }
}

/// Maps that hold the same are the same term: a map goes by what it holds,
/// not by how it came about.
pub proof fn lemma_one_map(a: Term, b: Term)
    requires
        is_map(a),
        is_map(b),
        map_of(a) == map_of(b),
    ensures
        a@ == b@,
{
    let m = a->Hamt_0;
    let n = b->Hamt_0;
    assert(m.size == n.size);
    match (m.root, n.root) {
        (Some(x), Some(y)) => {
            lemma_one_trie(&*x, &*y, 1, 0);
        },
        (Some(x), None) => {
            let q = lemma_inhabited(&*x, 1, 0);
            assert(false);
        },
        (None, Some(y)) => {
            let q = lemma_inhabited(&*y, 1, 0);
            assert(false);
        },
        (None, None) => {},
    }
}

/// Nodes with the same view hold the same map, and are sound for the same
/// places.
pub proof fn lemma_same_trie(a: &Node, b: &Node, level: int, prefix: int)
    requires
        node_view(*a) == node_view(*b),
    ensures
        node_map(*a, level) == node_map(*b, level),
        node_wf(*a, level, prefix) == node_wf(*b, level, prefix),
    decreases a,
{
    match a {
        Node::Leaf(v) => {
            let w = b->Leaf_0;
            let x = node_view(*a)->Leaf_0;
            let y = node_view(*b)->Leaf_0;
            assert(x.len() == v.len() && y.len() == w.len());
            assert forall|i: int| 0 <= i < v.len() implies (#[trigger] v@[i]).0@ == w@[i].0@
                && v@[i].1@ == w@[i].1@ by {
                assert(x[i] == (v@[i].0@, v@[i].1@));
                assert(y[i] == (w@[i].0@, w@[i].1@));
            }
            lemma_same_entries(v@, w@);
            assert forall|i: int| 0 <= i < v.len() implies entry_hash(#[trigger] v@[i])
                == entry_hash(w@[i]) by {
                assert(v@[i].0@ == w@[i].0@);
            }
            if node_wf(*a, level, prefix) {
                assert forall|i: int| 0 <= i < w.len() implies entry_hash(#[trigger] w@[i]) as int
                    % level == prefix && entry_hash(w@[i]) == entry_hash(w@[0]) by {
                    assert(entry_hash(v@[i]) == entry_hash(w@[i]));
                    assert(entry_hash(v@[0]) == entry_hash(w@[0]));
                }
            }
            if node_wf(*b, level, prefix) {
                assert forall|i: int| 0 <= i < v.len() implies entry_hash(#[trigger] v@[i]) as int
                    % level == prefix && entry_hash(v@[i]) == entry_hash(v@[0]) by {
                    assert(entry_hash(v@[i]) == entry_hash(w@[i]));
                    assert(entry_hash(v@[0]) == entry_hash(w@[0]));
                }
            }
        },
        Node::Branch { bitmap, children: c } => {
            let d = b->Branch_children;
            let x = node_view(*a)->Branch_1;
            let y = node_view(*b)->Branch_1;
            assert(b->Branch_bitmap == *bitmap);
            assert(x.len() == c.len() && y.len() == d.len());
            assert forall|k: int| 0 <= k < c.len() implies node_view(*#[trigger] c@[k]) == node_view(
                *d@[k],
            ) by {
                assert(x[k] == node_view(*c@[k]));
                assert(y[k] == node_view(*d@[k]));
            }
            assert forall|i: int| 0 <= i < 32 implies #[trigger] child_map(*bitmap, *c, i, level)
                == child_map(*bitmap, d, i, level) && child_wf(*bitmap, *c, i, level, prefix)
                == child_wf(*bitmap, d, i, level, prefix) by {
                let k = rank(*bitmap as int, i);
                if bit(*bitmap as int, i) && 0 <= k < c.len() {
                    assert(node_view(*c@[k]) == node_view(*d@[k]));
                    lemma_same_trie(&*c[k], &*d[k], 32 * level, prefix + i * level);
                }
            }
            if children_wf(*bitmap, *c, 32, level, prefix) {
                assert forall|i: int| 0 <= i < 32 implies #[trigger] child_wf(
                    *bitmap,
                    d,
                    i,
                    level,
                    prefix,
                ) by {
                    lemma_child_wf(*bitmap, c, 32, level, prefix, i);
                    assert(child_map(*bitmap, *c, i, level) == child_map(*bitmap, d, i, level));
                }
                lemma_children_wf(*bitmap, &d, 32, level, prefix);
            }
            if children_wf(*bitmap, d, 32, level, prefix) {
                assert forall|i: int| 0 <= i < 32 implies #[trigger] child_wf(
                    *bitmap,
                    *c,
                    i,
                    level,
                    prefix,
                ) by {
                    lemma_child_wf(*bitmap, &d, 32, level, prefix, i);
                    assert(child_map(*bitmap, *c, i, level) == child_map(*bitmap, d, i, level));
                }
                lemma_children_wf(*bitmap, c, 32, level, prefix);
            }
            if c.len() == 1 {
                assert(node_view(*c@[0]) == node_view(*d@[0]));
            }
            assert forall|q: TermView|
                #![trigger node_map(*a, level).dom().contains(q)]
                #![trigger node_map(*b, level).dom().contains(q)]
                node_map(*a, level).dom().contains(q) == node_map(*b, level).dom().contains(q) && (
                node_map(*a, level).dom().contains(q) ==> node_map(*a, level)[q] == node_map(
                    *b,
                    level,
                )[q]) by {
                let i = slot(term_hash(q), level);
                if 0 <= i < 32 {
                    assert(child_map(*bitmap, *c, i, level) == child_map(*bitmap, d, i, level));
                }
            }
            assert(node_map(*a, level) =~= node_map(*b, level));
        },
    }
}

/// The map that a term is, where it is a map of distinct keys.
pub open spec fn map_of(t: Term) -> Map<TermView, TermView> {
    t->Hamt_0@
}

/// The term is a map whose keys are distinct.
pub open spec fn is_map(t: Term) -> bool {
    t is Hamt && t->Hamt_0.wf()
}

/// What holds of a map with the view of this term holds of this term: it
/// is a map, and it holds what that map holds.
pub open spec fn map_by_view(t: Term) -> bool {
    forall|v: Term| #[trigger] is_map(v) && v@ == t@ ==> is_map(t) && map_of(t) == map_of(v)
}

/// Whether a term is a map, and what it holds, goes by its view: every
/// term is a map where a map has its view.
pub proof fn lemma_map_by_view(t: Term)
    ensures
        map_by_view(t),
{
    assert forall|v: Term| #[trigger] is_map(v) && v@ == t@ implies is_map(t) && map_of(t)
        == map_of(v) by {
        let m = v->Hamt_0;
        let n = t->Hamt_0;
        assert(t is Hamt);
        assert(m.size == n.size);
        match (m.root, n.root) {
            (Some(x), Some(y)) => {
                lemma_same_trie(&*x, &*y, 1, 0);
            },
            (Some(x), None) => {
                assert(node_view(*x) != NodeView::Empty);
            },
            (None, Some(y)) => {
                assert(node_view(*y) != NodeView::Empty);
            },
            (None, None) => {},
        }
    }
}

/// Map laws. A key that was put has the value that was put; a key that was
/// removed is gone; a union keeps the values of the left map, and a second
/// union with the same right map changes nothing.
pub proof fn lemma_map_laws(
    m: Map<TermView, TermView>,
    other: Map<TermView, TermView>,
    k: TermView,
    v: TermView,
)
    ensures
        m.insert(k, v).dom().contains(k) && m.insert(k, v)[k] == v,
        !m.remove(k).dom().contains(k),
        forall|key: TermView|
            m.dom().contains(key) ==> #[trigger] other.union_prefer_right(m)[key] == m[key],
        forall|key: TermView|
            other.dom().contains(key) && !m.dom().contains(key) ==> #[trigger] other.union_prefer_right(
                m,
            )[key] == other[key],
        other.union_prefer_right(other.union_prefer_right(m)) == other.union_prefer_right(m),
{
    assert(other.union_prefer_right(other.union_prefer_right(m)) =~= other.union_prefer_right(m));
}

} // verus!
