//! Built-in functions on maps.
use crate::atom;
use crate::exception::{badarg, Exception, Reason};
use crate::process::Process;
use crate::value::cons::{is_proper, lemma_list_of, list_items, proper_list};
use crate::value::map::{
    as_map, distinct_keys, is_map, lemma_as_map_len, lemma_map_by_view, lemma_one_map,
    map_by_view, map_of, values_of,
};
use crate::value::{Cons, Term, TermView, HAMT};
use crate::vm::Machine;
use vstd::prelude::*;

verus! {

/// The exception of a built-in function that was given `value` for a map.
pub open spec fn is_badmap(e: Exception, value: Term) -> bool {
    e.reason == Reason::EXC_BADMAP && e.value@ == value@
}

/// The exception of a built-in function that did not find `key` in a map.
pub open spec fn is_badkey(e: Exception, key: Term) -> bool {
    e.reason == Reason::EXC_BADKEY && e.value@ == key@
}

fn badmap(value: &Term) -> (e: Exception)
    ensures
        is_badmap(e, *value),
{
    Exception::with_value(Reason::EXC_BADMAP, value.clone())
}

/// The exception of a built-in function whose result would have more keys
/// than the machine can count.
fn too_large() -> (e: Exception)
    ensures
        e.reason == Reason::EXC_SYSTEM_LIMIT,
{
    Exception::new(Reason::EXC_SYSTEM_LIMIT)
}

fn badkey(key: &Term) -> (e: Exception)
    ensures
        is_badkey(e, *key),
{
    Exception::with_value(Reason::EXC_BADKEY, key.clone())
}

/// `maps:new()`: the empty map.
pub fn new_0(_vm: &Machine, _process: &Process, _args: &[Term]) -> (r: Result<Term, Exception>)
    ensures
        r matches Ok(t) && is_map(t) && map_of(t) == Map::<TermView, TermView>::empty(),
{
    Ok(Term::Hamt(HAMT::new()))
}

/// `maps:find(Key, Map)`: `{ok, Value}` where the map holds the key, else
/// the atom `error`.
pub fn find_2(_vm: &Machine, _process: &Process, args: &[Term]) -> (r: Result<Term, Exception>)
    requires
        args.len() >= 2,
        args[1] is Hamt ==> is_map(args[1]),
    ensures
        r is Ok <==> args[1] is Hamt,
        r matches Err(e) ==> is_badmap(e, args[1]),
        r matches Ok(t) ==> (if map_of(args[1]).dom().contains(args[0]@) {
            &&& t@ == TermView::Tuple(seq![TermView::Atom(atom::OK), map_of(args[1])[args[0]@]])
            &&& t is Tuple && t->Tuple_0.len() == 2 && map_by_view(t->Tuple_0[1])
        } else {
            t == Term::Atom(atom::ERROR)
        }),
{
    let key = &args[0];
    let map = &args[1];
    match map {
        Term::Hamt(m) => {
            match m.get(key) {
                Some(value) => {
                    let found = value.clone();
                    proof {
                        lemma_map_by_view(found);
                    }
                    Ok(Term::tup2(Term::Atom(atom::OK), found))
                },
                None => Ok(Term::Atom(atom::ERROR)),
            }
        },
        _ => Err(badmap(map)),
    }
}

/// `maps:get(Key, Map)`: the value of the key. A value that went in as a
/// map comes out as a map.
pub fn get_2(_vm: &Machine, _process: &Process, args: &[Term]) -> (r: Result<Term, Exception>)
    requires
        args.len() >= 2,
        args[1] is Hamt ==> is_map(args[1]),
    ensures
        r is Ok <==> args[1] is Hamt && map_of(args[1]).dom().contains(args[0]@),
        r matches Err(e) ==> (if args[1] is Hamt {
            is_badkey(e, args[0])
        } else {
            is_badmap(e, args[1])
        }),
        r matches Ok(t) ==> t@ == map_of(args[1])[args[0]@] && map_by_view(t),
{
    let map = &args[1];
    match map {
        Term::Hamt(m) => {
            let target = &args[0];
            match m.get(target) {
                Some(value) => {
                    let found = value.clone();
                    proof {
                        lemma_map_by_view(found);
                    }
                    Ok(found)
                },
                None => Err(badkey(target)),
            }
        },
        _ => Err(badmap(map)),
    }
}

/// The map of a list of pairs `{Key, Value}`; a pair that comes later in the
/// list wins. `None` where an item is no pair, and where there are more
/// keys than the machine can count.
pub open spec fn map_of_pairs(items: Seq<Term>) -> Option<Map<TermView, TermView>>
    decreases items.len(),
{
    if items.len() == 0 {
        Some(Map::empty())
    } else {
        match (map_of_pairs(items.drop_last()), items.last()) {
            (Some(m), Term::Tuple(v)) => if v.len() == 2 && (m.dom().len() < usize::MAX
                || m.dom().contains(v[0]@)) {
                Some(m.insert(v[0]@, v[1]@))
            } else {
                None
            },
            _ => None,
        }
    }
}

/// Every item that comes before an item that is no pair is a prefix without
/// a map.
proof fn lemma_pairs_prefix(items: Seq<Term>, n: int)
    requires
        0 <= n <= items.len(),
        map_of_pairs(items.subrange(0, n)) is None,
    ensures
        map_of_pairs(items) is None,
    decreases items.len() - n,
{
    if n < items.len() {
        assert(items.subrange(0, n + 1).drop_last() =~= items.subrange(0, n));
        lemma_pairs_prefix(items, n + 1);
    } else {
        assert(items.subrange(0, n) =~= items);
    }
}

/// `maps:from_list(List)`: the map of a proper list of pairs
/// `{Key, Value}`.
pub fn from_list_1(_vm: &Machine, _process: &Process, args: &[Term]) -> (r: Result<Term, Exception>)
    requires
        args.len() >= 1,
    ensures
        r is Ok <==> is_proper(args[0]) && map_of_pairs(list_items(args[0])) is Some,
        r matches Err(e) ==> e.reason == Reason::EXC_BADARG || e.reason
            == Reason::EXC_SYSTEM_LIMIT,
        r matches Ok(t) ==> is_map(t) && Some(map_of(t)) == map_of_pairs(list_items(args[0])),
{
    let items: Vec<&Term> = match proper_list(&args[0]) {
        Some(items) => items,
        None => {
            return Err(badarg());
        },
    };
    let ghost all = list_items(args[0]);
    let mut map = HAMT::new();
    let mut i: usize = 0;
    assert(all.subrange(0, 0) =~= Seq::<Term>::empty());
    while i < items.len()
        invariant
            i <= items.len(),
            items.len() == all.len(),
            all == list_items(args[0]),
            is_proper(args[0]),
            forall|k: int| 0 <= k < items.len() ==> *(#[trigger] items[k]) == all[k],
            map.wf(),
            map_of_pairs(all.subrange(0, i as int)) == Some(map@),
        decreases items.len() - i,
    {
        proof {
            assert(all.subrange(0, i + 1).drop_last() =~= all.subrange(0, i as int));
            assert(all.subrange(0, i + 1).last() == all[i as int]);
        }
        match items[i] {
            Term::Tuple(tuple) => {
                if tuple.len() != 2 {
                    proof {
                        lemma_pairs_prefix(all, i + 1);
                    }
                    return Err(badarg());
                }
                if map.len() == usize::MAX && !map.contains_key(&tuple[0]) {
                    proof {
                        lemma_pairs_prefix(all, i + 1);
                    }
                    return Err(too_large());
                }
                map.insert(tuple[0].clone(), tuple[1].clone());
            },
            _ => {
                proof {
                    lemma_pairs_prefix(all, i + 1);
                }
                return Err(badarg());
            },
        }
        i = i + 1;
    }
    assert(all.subrange(0, all.len() as int) =~= all);
    Ok(Term::Hamt(map))
}

/// The term is the pair of a key of the map and the key's value.
pub open spec fn is_entry(t: Term, m: Map<TermView, TermView>) -> bool {
    t matches Term::Tuple(v) && v.len() == 2 && m.dom().contains(v[0]@) && m[v[0]@] == v[1]@
}

/// The key of a pair.
pub open spec fn entry_key(t: Term) -> TermView {
    t->Tuple_0[0]@
}

/// `maps:to_list(Map)`: the list of the pairs `{Key, Value}` of the map, one
/// for every key.
pub fn to_list_1(_vm: &Machine, _process: &Process, args: &[Term]) -> (r: Result<Term, Exception>)
    requires
        args.len() >= 1,
        args[0] is Hamt ==> is_map(args[0]),
    ensures
        r is Ok <==> args[0] is Hamt,
        r matches Err(e) ==> is_badmap(e, args[0]),
        r matches Ok(t) ==> {
            let items = list_items(t);
            &&& is_proper(t)
            &&& items.len() == map_of(args[0]).dom().len()
            &&& forall|i: int| 0 <= i < items.len() ==> is_entry(#[trigger] items[i], map_of(args[0]))
            &&& forall|i: int, j: int|
                0 <= i < j < items.len() ==> entry_key(#[trigger] items[i]) != entry_key(
                    #[trigger] items[j],
                )
            &&& map_of_pairs(items) == Some(map_of(args[0]))
        },
{
    let map = &args[0];
    match map {
        Term::Hamt(m) => {
            let entries: Vec<(Term, Term)> = m.iter();
            let mut pairs: Vec<Term> = Vec::new();
            let mut i: usize = 0;
            assert(pairs@.subrange(0, 0) =~= Seq::<Term>::empty());
            while i < entries.len()
                invariant
                    i <= entries.len(),
                    pairs.len() == i,
                    distinct_keys(entries@),
                    forall|k: int|
                        0 <= k < i ==> (#[trigger] pairs@[k]) is Tuple && pairs@[k]->Tuple_0.len()
                            == 2 && pairs@[k]->Tuple_0[0]@ == entries@[k].0@
                            && pairs@[k]->Tuple_0[1]@ == entries@[k].1@,
                    map_of_pairs(pairs@) == Some(as_map(entries@.subrange(0, i as int))),
                decreases entries.len() - i,
            {
                let ghost before = pairs@;
                let pair = Term::tup2(entries[i].0.clone(), entries[i].1.clone());
                pairs.push(pair);
                proof {
                    assert(pairs@.drop_last() =~= before);
                    let sub = entries@.subrange(0, i as int);
                    assert(entries@.subrange(0, i + 1).drop_last() =~= sub);
                    assert forall|a: int, b: int| 0 <= a < b < sub.len() implies (#[trigger] sub[a]).0@
                        != (#[trigger] sub[b]).0@ by {
                        assert(entries@[a].0@ != entries@[b].0@);
                    }
                    lemma_as_map_len(sub);
                }
                i = i + 1;
            }
            proof {
                assert(entries@.subrange(0, entries.len() as int) =~= entries@);
                lemma_list_of(pairs@);
                assert forall|k: int| 0 <= k < pairs.len() implies is_entry(
                    #[trigger] pairs@[k],
                    m@,
                ) by {
                    crate::value::map::lemma_as_map_value(entries@, k);
                }
                assert forall|a: int, b: int| 0 <= a < b < pairs.len() implies entry_key(
                    #[trigger] pairs@[a],
                ) != entry_key(#[trigger] pairs@[b]) by {
                    assert(entries@[a].0@ != entries@[b].0@);
                }
            }
            Ok(Cons::from_iter(pairs))
        },
        _ => Err(badmap(map)),
    }
}

/// A map that is made into a list with `to_list_1`, and the list into a map
/// with `from_list_1`, is the same map: it has the same keys with the same
/// values, and it is the same term.
pub proof fn lemma_list_round_trip(map: Term, list: Term, back: Term)
    requires
        map_of_pairs(list_items(list)) == Some(map_of(map)),
        Some(map_of(back)) == map_of_pairs(list_items(list)),
    ensures
        map_of(back) == map_of(map),
        is_map(map) && is_map(back) ==> back@ == map@,
{
    if is_map(map) && is_map(back) {
        lemma_one_map(back, map);
    }
}

/// `maps:is_key(Key, Map)`: whether the map holds the key.
pub fn is_key_2(_vm: &Machine, _process: &Process, args: &[Term]) -> (r: Result<Term, Exception>)
    requires
        args.len() >= 2,
        args[1] is Hamt ==> is_map(args[1]),
    ensures
        r is Ok <==> args[1] is Hamt,
        r matches Err(e) ==> is_badmap(e, args[1]),
        r matches Ok(t) ==> t == Term::Atom(
            if map_of(args[1]).dom().contains(args[0]@) {
                atom::TRUE
            } else {
                atom::FALSE
            },
        ),
{
    let map = &args[1];
    match map {
        Term::Hamt(m) => {
            let target = &args[0];
            let exist = m.contains_key(target);
            Ok(Term::boolean(exist))
        },
        _ => Err(badmap(map)),
    }
}

/// `maps:keys(Map)`: the list of the keys, each once.
pub fn keys_1(_vm: &Machine, _process: &Process, args: &[Term]) -> (r: Result<Term, Exception>)
    requires
        args.len() >= 1,
        args[0] is Hamt ==> is_map(args[0]),
    ensures
        r is Ok <==> args[0] is Hamt,
        r matches Err(e) ==> is_badmap(e, args[0]),
        r matches Ok(t) ==> {
            let items = list_items(t);
            &&& is_proper(t)
            &&& items.len() == map_of(args[0]).dom().len()
            &&& forall|i: int|
                0 <= i < items.len() ==> map_of(args[0]).dom().contains((#[trigger] items[i])@)
            &&& forall|i: int, j: int|
                0 <= i < j < items.len() ==> (#[trigger] items[i])@ != (#[trigger] items[j])@
        },
{
    let map = &args[0];
    match map {
        Term::Hamt(m) => {
            let keys: Vec<Term> = m.keys();
            proof {
                lemma_list_of(keys@);
            }
            Ok(Cons::from_iter(keys))
        },
        _ => Err(badmap(map)),
    }
}

/// `maps:values(Map)`: the list of the values, one for every key; a value
/// occurs as often as keys have it.
pub fn values_1(_vm: &Machine, _process: &Process, args: &[Term]) -> (r: Result<Term, Exception>)
    requires
        args.len() >= 1,
        args[0] is Hamt ==> is_map(args[0]),
    ensures
        r is Ok <==> args[0] is Hamt,
        r matches Err(e) ==> is_badmap(e, args[0]),
        r matches Ok(t) ==> {
            let items = list_items(t);
            &&& is_proper(t)
            &&& items.len() == map_of(args[0]).dom().len()
            &&& forall|i: int|
                0 <= i < items.len() ==> map_of(args[0]).contains_value((#[trigger] items[i])@)
            &&& values_of(items, map_of(args[0]))
        },
{
    let map = &args[0];
    match map {
        Term::Hamt(m) => {
            let values: Vec<Term> = m.values();
            proof {
                lemma_list_of(values@);
            }
            Ok(Cons::from_iter(values))
        },
        _ => Err(badmap(map)),
    }
}

/// `maps:merge(Map1, Map2)`: the map of the keys of both maps. A key of
/// both keeps the value that it has in the first map.
pub fn merge_2(_vm: &Machine, _process: &Process, args: &[Term]) -> (r: Result<Term, Exception>)
    requires
        args.len() >= 2,
        args[0] is Hamt ==> is_map(args[0]),
        args[1] is Hamt ==> is_map(args[1]),
    ensures
        r is Ok <==> args[0] is Hamt && args[1] is Hamt && map_of(args[0]).dom().len() + map_of(
            args[1],
        ).dom().len() <= usize::MAX,
        r matches Err(e) ==> (if !(args[0] is Hamt) {
            is_badmap(e, args[0])
        } else if !(args[1] is Hamt) {
            is_badmap(e, args[1])
        } else {
            e.reason == Reason::EXC_SYSTEM_LIMIT
        }),
        r matches Ok(t) ==> is_map(t) && map_of(t) == map_of(args[1]).union_prefer_right(
            map_of(args[0]),
        ),
{
    let map1: &HAMT = match &args[0] {
        Term::Hamt(map) => map,
        _ => {
            return Err(badmap(&args[0]));
        },
    };
    let map2: &HAMT = match &args[1] {
        Term::Hamt(map) => map,
        _ => {
            return Err(badmap(&args[1]));
        },
    };
    if map1.len() > usize::MAX - map2.len() {
        return Err(too_large());
    }
    let map1 = map1.duplicate();
    let map2 = map2.duplicate();
    Ok(Term::Hamt(map1.union(map2)))
}

/// `maps:put(Key, Value, Map)`: the map with the key given the value.
pub fn put_3(_vm: &Machine, _process: &Process, args: &[Term]) -> (r: Result<Term, Exception>)
    requires
        args.len() >= 3,
        args[2] is Hamt ==> is_map(args[2]),
    ensures
        r is Ok <==> args[2] is Hamt && (map_of(args[2]).dom().len() < usize::MAX || map_of(
            args[2],
        ).dom().contains(args[0]@)),
        r matches Err(e) ==> (if args[2] is Hamt {
            e.reason == Reason::EXC_SYSTEM_LIMIT
        } else {
            is_badmap(e, args[2])
        }),
        r matches Ok(t) ==> is_map(t) && map_of(t) == map_of(args[2]).insert(args[0]@, args[1]@),
{
    let key = &args[0];
    let value = &args[1];
    let map = &args[2];
    match map {
        Term::Hamt(m) => {
            if m.len() == usize::MAX && !m.contains_key(key) {
                return Err(too_large());
            }
            let mut new_map = m.duplicate();
            new_map.insert(key.clone(), value.clone());
            Ok(Term::Hamt(new_map))
        },
        _ => Err(badmap(map)),
    }
}

/// `maps:remove(Key, Map)`: the map without the key.
pub fn remove_2(_vm: &Machine, _process: &Process, args: &[Term]) -> (r: Result<Term, Exception>)
    requires
        args.len() >= 2,
        args[1] is Hamt ==> is_map(args[1]),
    ensures
        r is Ok <==> args[1] is Hamt,
        r matches Err(e) ==> is_badmap(e, args[1]),
        r matches Ok(t) ==> is_map(t) && map_of(t) == map_of(args[1]).remove(args[0]@),
{
    let key = &args[0];
    let map = &args[1];
    match map {
        Term::Hamt(m) => {
            let mut new_map = m.duplicate();
            new_map.remove(key);
            Ok(Term::Hamt(new_map))
        },
        _ => Err(badmap(map)),
    }
}

/// `maps:update(Key, Value, Map)`: the map with the key, which it holds,
/// given the value.
pub fn update_3(_vm: &Machine, _process: &Process, args: &[Term]) -> (r: Result<Term, Exception>)
    requires
        args.len() >= 3,
        args[2] is Hamt ==> is_map(args[2]),
    ensures
        r is Ok <==> args[2] is Hamt && map_of(args[2]).dom().contains(args[0]@),
        r matches Err(e) ==> (if args[2] is Hamt {
            is_badkey(e, args[0])
        } else {
            is_badmap(e, args[2])
        }),
        r matches Ok(t) ==> is_map(t) && map_of(t) == map_of(args[2]).insert(args[0]@, args[1]@),
{
    let key = &args[0];
    let value = &args[1];
    let map = &args[2];
    match map {
        Term::Hamt(m) => {
            match m.get(key) {
                Some(_v) => {
                    let new_map = m.update(key.clone(), value.clone());
                    Ok(Term::Hamt(new_map))
                },
                None => Err(badkey(key)),
            }
        },
        _ => Err(badmap(map)),
    }
}

/// `maps:take(Key, Map)`: the pair of the key's value and the map without
/// the key where the map holds the key, else the atom `error`.
pub fn take_2(_vm: &Machine, _process: &Process, args: &[Term]) -> (r: Result<Term, Exception>)
    requires
        args.len() >= 2,
        args[1] is Hamt ==> is_map(args[1]),
    ensures
        r is Ok <==> args[1] is Hamt,
        r matches Err(e) ==> is_badmap(e, args[1]),
        r matches Ok(t) ==> (if map_of(args[1]).dom().contains(args[0]@) {
            &&& t is Tuple
            &&& t->Tuple_0.len() == 2
            &&& t->Tuple_0[0]@ == map_of(args[1])[args[0]@]
            &&& map_by_view(t->Tuple_0[0])
            &&& is_map(t->Tuple_0[1])
            &&& map_of(t->Tuple_0[1]) == map_of(args[1]).remove(args[0]@)
        } else {
            t == Term::Atom(atom::ERROR)
        }),
{
    let key = &args[0];
    let map = &args[1];
    match map {
        Term::Hamt(m) => {
            match m.extract(key) {
                Some((val, new_map)) => {
                    proof {
                        lemma_map_by_view(val);
                    }
                    Ok(Term::tup2(val, Term::Hamt(new_map)))
                },
                None => Ok(Term::Atom(atom::ERROR)),
            }
        },
        _ => Err(badmap(map)),
    }
}

} // verus!
