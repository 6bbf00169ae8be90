use vstd::prelude::*;
use crate::jsondata::{Json, JSONVal, JsonObject};
use crate::lexer::Token;
use crate::parser::{
    p_array_entry, p_array_start, p_dict_entry, p_dict_start, p_object, ArrayEntry, ArrayStart,
    DictEntry, DictStart, GrammarError, Object,
};

verus! {

/// The value that a syntax tree stands for. Array elements keep their order;
/// object members are inserted in source order, so a later duplicate key
/// overwrites an earlier one.
pub open spec fn reduce(o: Object) -> Json
    decreases o,
{
    match o {
        Object::DS(d) => Json::Object(dict_map(*d)),
        Object::AS(a) => Json::Array(array_items(*a)),
        Object::StringVal(s) => Json::Str(s@),
        Object::Number(s) => Json::Number(s@),
        Object::Bool(b) => Json::Bool(b),
        Object::Null => Json::Null,
    }
}

pub open spec fn dict_map(d: DictStart) -> Map<Seq<char>, Json>
    decreases d,
{
    match d {
        DictStart::Entry(k, o, rest) => dict_fold(*rest, Map::empty().insert(k@, reduce(o))),
        DictStart::Nil => Map::empty(),
    }
}

pub open spec fn dict_fold(e: DictEntry, acc: Map<Seq<char>, Json>) -> Map<Seq<char>, Json>
    decreases e,
{
    match e {
        DictEntry::Entry(k, o, rest) => dict_fold(*rest, acc.insert(k@, reduce(o))),
        DictEntry::Nil => acc,
    }
}

pub open spec fn array_items(a: ArrayStart) -> Seq<Json>
    decreases a,
{
    match a {
        ArrayStart::Entry(o, rest) => seq![reduce(o)] + entry_items(*rest),
        ArrayStart::Nil => Seq::empty(),
    }
}

pub open spec fn entry_items(e: ArrayEntry) -> Seq<Json>
    decreases e,
{
    match e {
        ArrayEntry::Entry(o, rest) => seq![reduce(o)] + entry_items(*rest),
        ArrayEntry::Nil => Seq::empty(),
    }
}

/// `d` is an object whose model is `m`.
pub open spec fn object_denotes(d: JsonObject, m: Map<Seq<char>, Json>) -> bool {
    d.wf() && d.keys() == m.dom() && forall|i: int|
        0 <= i < d.entries().len() ==> (#[trigger] d.entries()[i]).1.denotes(
            m[d.entries()[i].0@],
        )
}

/// Turns a syntax tree into the value it stands for.
pub fn compile(obj: &Object) -> (r: JSONVal)
    ensures
        r.denotes(reduce(*obj)),
    decreases obj,
{
    match obj {
        Object::StringVal(val) => JSONVal::StringVal(val.clone()),
        Object::Number(val) => JSONVal::Number(val.clone()),
        Object::Bool(val) => JSONVal::Bool(*val),
        Object::AS(array_start) => {
            let vs = compile_array(array_start);
            let r = JSONVal::Array(vs);
            assert(r.denotes(reduce(*obj)));
            r
        },
        Object::DS(dict_start) => JSONVal::Object(compile_dict(dict_start)),
        Object::Null => JSONVal::Null,
    }
}

fn compile_array(array_start: &ArrayStart) -> (r: Vec<JSONVal>)
    ensures
        r@.len() == array_items(*array_start).len(),
        forall|i: int| 0 <= i < r@.len() ==> (#[trigger] r@[i]).denotes(array_items(*array_start)[i]),
    decreases array_start,
{
    let mut array: Vec<JSONVal> = Vec::new();
    match array_start {
        ArrayStart::Entry(obj, next) => {
            array.push(compile(obj));
            compile_entries(next, &mut array);
            assert(array_items(*array_start) =~= seq![reduce(*obj)] + entry_items(**next));
            assert forall|i: int| 0 <= i < array@.len() implies (#[trigger] array@[i]).denotes(
                array_items(*array_start)[i],
            ) by {
                if i > 0 {
                    assert(array@[1 + (i - 1)].denotes(entry_items(**next)[i - 1]));
                }
            }
        },
        ArrayStart::Nil => {},
    }
    array
}

fn compile_entries(entry: &ArrayEntry, array: &mut Vec<JSONVal>)
    ensures
        final(array)@.len() == old(array)@.len() + entry_items(*entry).len(),
        forall|i: int| 0 <= i < old(array)@.len() ==> final(array)@[i] == old(array)@[i],
        forall|i: int|
            0 <= i < entry_items(*entry).len() ==> (#[trigger] final(array)@[old(array)@.len()
                + i]).denotes(entry_items(*entry)[i]),
    decreases entry,
{
    match entry {
        ArrayEntry::Entry(obj, next) => {
            let ghost n0 = array@.len();
            array.push(compile(obj));
            compile_entries(next, array);
            assert(entry_items(*entry) =~= seq![reduce(*obj)] + entry_items(**next));
            assert forall|i: int| 0 <= i < entry_items(*entry).len() implies (#[trigger] array@[n0
                + i]).denotes(entry_items(*entry)[i]) by {
                if i > 0 {
                    assert(array@[(n0 + 1) + (i - 1)].denotes(entry_items(**next)[i - 1]));
                }
            }
        },
        ArrayEntry::Nil => {},
    }
}

fn add_member(dict: &mut JsonObject, key: String, val: JSONVal, Ghost(m): Ghost<Map<Seq<char>, Json>>, Ghost(j): Ghost<Json>)
    requires
        object_denotes(*old(dict), m),
        val.denotes(j),
    ensures
        object_denotes(*final(dict), m.insert(key@, j)),
{
    let ghost k = key@;
    dict.insert(key, val);
    let ghost m2 = m.insert(k, j);
    assert(dict.keys() =~= m2.dom());
    assert forall|i: int| 0 <= i < dict.entries().len() implies (#[trigger] dict.entries()[i]).1.denotes(
        m2[dict.entries()[i].0@],
    ) by {
        if !(dict.entries()[i].0@ == k && dict.entries()[i].1 == val) {
            let j0 = choose|j0: int|
                0 <= j0 < old(dict).entries().len() && old(dict).entries()[j0] == dict.entries()[i]
                    && old(dict).entries()[j0].0@ != k;
            assert(old(dict).entries()[j0].1.denotes(m[old(dict).entries()[j0].0@]));
        }
    }
}

fn compile_dict(dict_start: &DictStart) -> (r: JsonObject)
    ensures
        object_denotes(r, dict_map(*dict_start)),
    decreases dict_start,
{
    let mut dict = JsonObject::new();
    match dict_start {
        DictStart::Entry(key, obj, next) => {
            assert(dict.keys() =~= Map::<Seq<char>, Json>::empty().dom());
            add_member(&mut dict, key.clone(), compile(obj), Ghost(Map::empty()), Ghost(reduce(*obj)));
            compile_members(next, &mut dict, Ghost(Map::empty().insert(key@, reduce(*obj))));
        },
        DictStart::Nil => {
            assert(dict.keys() =~= Map::<Seq<char>, Json>::empty().dom());
        },
    }
    dict
}

fn compile_members(entry: &DictEntry, dict: &mut JsonObject, Ghost(m): Ghost<Map<Seq<char>, Json>>)
    requires
        object_denotes(*old(dict), m),
    ensures
        object_denotes(*final(dict), dict_fold(*entry, m)),
    decreases entry,
{
    match entry {
        DictEntry::Entry(key, obj, next) => {
            add_member(dict, key.clone(), compile(obj), Ghost(m), Ghost(reduce(*obj)));
            compile_members(next, dict, Ghost(m.insert(key@, reduce(*obj))));
        },
        DictEntry::Nil => {},
    }
}

} // verus!

verus! {

/// The key/value pairs of an object node, in source order.
pub open spec fn start_members(d: DictStart) -> Seq<(Seq<char>, Object)>
    decreases d,
{
    match d {
        DictStart::Entry(k, o, rest) => seq![(k@, o)] + entry_members(*rest),
        DictStart::Nil => Seq::empty(),
    }
}

pub open spec fn entry_members(e: DictEntry) -> Seq<(Seq<char>, Object)>
    decreases e,
{
    match e {
        DictEntry::Entry(k, o, rest) => seq![(k@, o)] + entry_members(*rest),
        DictEntry::Nil => Seq::empty(),
    }
}

pub open spec fn keys_distinct(s: Seq<(Seq<char>, Object)>) -> bool {
    forall|i: int, j: int| 0 <= i < j < s.len() ==> s[i].0 != s[j].0
}

pub open spec fn fold_members(s: Seq<(Seq<char>, Object)>, acc: Map<Seq<char>, Json>) -> Map<
    Seq<char>,
    Json,
>
    decreases s.len(),
{
    if s.len() == 0 {
        acc
    } else {
        fold_members(s.drop_first(), acc.insert(s[0].0, reduce(s[0].1)))
    }
}

proof fn lemma_fold_entries(e: DictEntry, acc: Map<Seq<char>, Json>)
    ensures
        dict_fold(e, acc) == fold_members(entry_members(e), acc),
    decreases e,
{
    match e {
        DictEntry::Entry(k, o, rest) => {
            let s = entry_members(e);
            assert(s.drop_first() =~= entry_members(*rest));
            lemma_fold_entries(*rest, acc.insert(k@, reduce(o)));
        },
        DictEntry::Nil => {},
    }
}

proof fn lemma_dict_map_members(d: DictStart)
    ensures
        dict_map(d) == fold_members(start_members(d), Map::empty()),
{
    match d {
        DictStart::Entry(k, o, rest) => {
            let s = start_members(d);
            assert(s.drop_first() =~= entry_members(*rest));
            lemma_fold_entries(*rest, Map::empty().insert(k@, reduce(o)));
        },
        DictStart::Nil => {},
    }
}

proof fn lemma_fold_distinct(s: Seq<(Seq<char>, Object)>, acc: Map<Seq<char>, Json>)
    requires
        keys_distinct(s),
    ensures
        forall|i: int|
            0 <= i < s.len() ==> fold_members(s, acc).contains_key(#[trigger] s[i].0)
                && fold_members(s, acc)[s[i].0] == reduce(s[i].1),
        forall|k: Seq<char>|
            #![trigger fold_members(s, acc).contains_key(k)]
            (forall|i: int| 0 <= i < s.len() ==> s[i].0 != k) ==> (fold_members(
                s,
                acc,
            ).contains_key(k) == acc.contains_key(k) && (acc.contains_key(k) ==> fold_members(
                s,
                acc,
            )[k] == acc[k])),
    decreases s.len(),
{
    if s.len() > 0 {
        let t = s.drop_first();
        let acc2 = acc.insert(s[0].0, reduce(s[0].1));
        lemma_fold_distinct(t, acc2);
        assert forall|i: int| 0 <= i < s.len() implies fold_members(s, acc).contains_key(
            #[trigger] s[i].0,
        ) && fold_members(s, acc)[s[i].0] == reduce(s[i].1) by {
            assert(fold_members(s, acc) == fold_members(t, acc2));
            if i > 0 {
                assert(s[i] == t[i - 1]);
                assert(fold_members(t, acc2).contains_key(t[i - 1].0));
            } else {
                assert forall|j: int| 0 <= j < t.len() implies t[j].0 != s[0].0 by {
                    assert(t[j] == s[j + 1]);
                }
                assert(fold_members(t, acc2).contains_key(s[0].0) == acc2.contains_key(s[0].0));
            }
        }
        assert forall|k: Seq<char>|
            (forall|i: int| 0 <= i < s.len() ==> s[i].0 != k) implies (fold_members(
            s,
            acc,
        ).contains_key(k) == acc.contains_key(k) && (acc.contains_key(k) ==> fold_members(s, acc)[k]
            == acc[k])) by {
            assert forall|j: int| 0 <= j < t.len() implies t[j].0 != k by {
                assert(t[j] == s[j + 1]);
            }
            assert(s[0].0 != k);
            assert(fold_members(s, acc) == fold_members(t, acc2));
            assert(fold_members(t, acc2).contains_key(k) == acc2.contains_key(k));
        }
    }
}

proof fn lemma_fold_untouched(s: Seq<(Seq<char>, Object)>, acc: Map<Seq<char>, Json>, k: Seq<char>)
    requires
        forall|i: int| 0 <= i < s.len() ==> s[i].0 != k,
    ensures
        fold_members(s, acc).contains_key(k) == acc.contains_key(k),
        acc.contains_key(k) ==> fold_members(s, acc)[k] == acc[k],
    decreases s.len(),
{
    if s.len() > 0 {
        let t = s.drop_first();
        assert forall|j: int| 0 <= j < t.len() implies t[j].0 != k by {
            assert(t[j] == s[j + 1]);
        }
        lemma_fold_untouched(t, acc.insert(s[0].0, reduce(s[0].1)), k);
    }
}

proof fn lemma_fold_last(s: Seq<(Seq<char>, Object)>, acc: Map<Seq<char>, Json>, i: int)
    requires
        0 <= i < s.len(),
        forall|j: int| i < j < s.len() ==> s[j].0 != s[i].0,
    ensures
        fold_members(s, acc).contains_key(s[i].0),
        fold_members(s, acc)[s[i].0] == reduce(s[i].1),
    decreases s.len(),
{
    let t = s.drop_first();
    let acc2 = acc.insert(s[0].0, reduce(s[0].1));
    if i == 0 {
        assert forall|j: int| 0 <= j < t.len() implies t[j].0 != s[0].0 by {
            assert(t[j] == s[j + 1]);
        }
        lemma_fold_untouched(t, acc2, s[0].0);
    } else {
        assert forall|j: int| i - 1 < j < t.len() implies (#[trigger] t[j]).0 != t[i - 1].0 by {
            assert(t[j] == s[j + 1]);
        }
        lemma_fold_last(t, acc2, i - 1);
    }
}

/// Last write wins: in the value of an object node, each key holds the value
/// of its last occurrence among the members, whatever came before it.
pub proof fn lemma_last_write_wins(d: DictStart, i: int)
    requires
        0 <= i < start_members(d).len(),
        forall|j: int|
            i < j < start_members(d).len() ==> start_members(d)[j].0 != start_members(d)[i].0,
    ensures
        dict_map(d).contains_key(start_members(d)[i].0),
        dict_map(d)[start_members(d)[i].0] == reduce(start_members(d)[i].1),
{
    lemma_dict_map_members(d);
    lemma_fold_last(start_members(d), Map::empty(), i);
}

/// Member order does not matter when keys are distinct: two object nodes that
/// list the same key/value pairs, in any order, reduce to the same value, so
/// every key look-up on them gives the same result.
pub proof fn lemma_member_order(d1: DictStart, d2: DictStart)
    requires
        keys_distinct(start_members(d1)),
        keys_distinct(start_members(d2)),
        start_members(d1).to_set() == start_members(d2).to_set(),
    ensures
        reduce(Object::DS(Box::new(d1))) == reduce(Object::DS(Box::new(d2))),
{
    let s1 = start_members(d1);
    let s2 = start_members(d2);
    lemma_dict_map_members(d1);
    lemma_dict_map_members(d2);
    let e = Map::<Seq<char>, Json>::empty();
    lemma_fold_distinct(s1, e);
    lemma_fold_distinct(s2, e);
    let m1 = fold_members(s1, e);
    let m2 = fold_members(s2, e);
    assert forall|k: Seq<char>| m1.contains_key(k) implies m2.contains_key(k) && m1[k] == m2[k] by {
        if forall|i: int| 0 <= i < s1.len() ==> s1[i].0 != k {
        } else {
            let i = choose|i: int| 0 <= i < s1.len() && s1[i].0 == k;
            assert(s1.to_set().contains(s1[i]));
            assert(s2.to_set().contains(s1[i]));
            let j = choose|j: int| 0 <= j < s2.len() && s2[j] == s1[i];
            assert(s2[j].0 == k);
            assert(m1[s1[i].0] == reduce(s1[i].1));
            assert(m2[s2[j].0] == reduce(s2[j].1));
        }
    }
    assert forall|k: Seq<char>| m2.contains_key(k) implies m1.contains_key(k) by {
        if forall|i: int| 0 <= i < s2.len() ==> s2[i].0 != k {
        } else {
            let i = choose|i: int| 0 <= i < s2.len() && s2[i].0 == k;
            assert(s2.to_set().contains(s2[i]));
            assert(s1.to_set().contains(s2[i]));
            let j = choose|j: int| 0 <= j < s1.len() && s1[j] == s2[i];
            assert(s1[j].0 == k);
        }
    }
    assert(m1 =~= m2);
}

} // verus!

verus! {

/// Two token sequences that differ at most in which `String` holds each text.
pub open spec fn same_tokens(t1: Seq<Token>, t2: Seq<Token>) -> bool {
    t1.len() == t2.len() && forall|i: int| 0 <= i < t1.len() ==> t1[i]@ == t2[i]@
}

pub open spec fn agree_object(
    r1: Result<(Object, int), GrammarError>,
    r2: Result<(Object, int), GrammarError>,
) -> bool {
    match r1 {
        Ok((o, q)) => r2 is Ok && r2->Ok_0.1 == q && reduce(r2->Ok_0.0) == reduce(o),
        Err(e) => r2 == Err::<(Object, int), GrammarError>(e),
    }
}

pub open spec fn agree_dict_start(
    r1: Result<(DictStart, int), GrammarError>,
    r2: Result<(DictStart, int), GrammarError>,
) -> bool {
    match r1 {
        Ok((d, q)) => r2 is Ok && r2->Ok_0.1 == q && dict_map(r2->Ok_0.0) == dict_map(d),
        Err(e) => r2 == Err::<(DictStart, int), GrammarError>(e),
    }
}

pub open spec fn agree_dict_entry(
    r1: Result<(DictEntry, int), GrammarError>,
    r2: Result<(DictEntry, int), GrammarError>,
) -> bool {
    match r1 {
        Ok((d, q)) => r2 is Ok && r2->Ok_0.1 == q && forall|acc: Map<Seq<char>, Json>|
            #[trigger] dict_fold(r2->Ok_0.0, acc) == dict_fold(d, acc),
        Err(e) => r2 == Err::<(DictEntry, int), GrammarError>(e),
    }
}

pub open spec fn agree_array_start(
    r1: Result<(ArrayStart, int), GrammarError>,
    r2: Result<(ArrayStart, int), GrammarError>,
) -> bool {
    match r1 {
        Ok((a, q)) => r2 is Ok && r2->Ok_0.1 == q && array_items(r2->Ok_0.0) == array_items(a),
        Err(e) => r2 == Err::<(ArrayStart, int), GrammarError>(e),
    }
}

pub open spec fn agree_array_entry(
    r1: Result<(ArrayEntry, int), GrammarError>,
    r2: Result<(ArrayEntry, int), GrammarError>,
) -> bool {
    match r1 {
        Ok((a, q)) => r2 is Ok && r2->Ok_0.1 == q && entry_items(r2->Ok_0.0) == entry_items(a),
        Err(e) => r2 == Err::<(ArrayEntry, int), GrammarError>(e),
    }
}

pub proof fn lemma_object_views(t1: Seq<Token>, t2: Seq<Token>, p: int)
    requires
        same_tokens(t1, t2),
    ensures
        agree_object(p_object(t1, p), p_object(t2, p)),
    decreases t1.len() + 1 - p, 1nat,
{
    if 0 <= p < t1.len() {
        assert(t1[p]@ == t2[p]@);
        match t1[p] {
            Token::OCB => {
                lemma_dict_start_views(t1, t2, p + 1);
                if let Ok((_, q)) = p_dict_start(t1, p + 1) {
                    if 0 <= q < t1.len() {
                        assert(t1[q]@ == t2[q]@);
                    }
                }
            },
            Token::OB => {
                lemma_array_start_views(t1, t2, p + 1);
                if let Ok((_, q)) = p_array_start(t1, p + 1) {
                    if 0 <= q < t1.len() {
                        assert(t1[q]@ == t2[q]@);
                    }
                }
            },
            _ => {},
        }
    }
}

pub proof fn lemma_dict_start_views(t1: Seq<Token>, t2: Seq<Token>, p: int)
    requires
        same_tokens(t1, t2),
    ensures
        agree_dict_start(p_dict_start(t1, p), p_dict_start(t2, p)),
    decreases t1.len() + 1 - p, 0nat,
{
    if 0 <= p < t1.len() {
        assert(t1[p]@ == t2[p]@);
        if t1[p] is StringVal && p + 1 < t1.len() {
            assert(t1[p + 1]@ == t2[p + 1]@);
            if t1[p + 1] is Colon {
                lemma_object_views(t1, t2, p + 2);
                if let Ok((o1, q)) = p_object(t1, p + 2) {
                    if p < q <= t1.len() {
                        lemma_dict_entry_views(t1, t2, q);
                        let o2 = p_object(t2, p + 2)->Ok_0.0;
                        let k1 = t1[p]->StringVal_0;
                        let k2 = t2[p]->StringVal_0;
                        assert(k1@ == k2@);
                        let acc = Map::<Seq<char>, Json>::empty().insert(k1@, reduce(o1));
                        assert(acc == Map::<Seq<char>, Json>::empty().insert(k2@, reduce(o2)));
                        if let Ok((e1, _)) = p_dict_entry(t1, q) {
                            let e2 = p_dict_entry(t2, q)->Ok_0.0;
                            assert(dict_fold(e2, acc) == dict_fold(e1, acc));
                        }
                    }
                }
            }
        }
    }
}

pub proof fn lemma_dict_entry_views(t1: Seq<Token>, t2: Seq<Token>, p: int)
    requires
        same_tokens(t1, t2),
    ensures
        agree_dict_entry(p_dict_entry(t1, p), p_dict_entry(t2, p)),
    decreases t1.len() + 1 - p, 0nat,
{
    if 0 <= p < t1.len() {
        assert(t1[p]@ == t2[p]@);
        if t1[p] is Comma && p + 2 < t1.len() {
            assert(t1[p + 1]@ == t2[p + 1]@);
            assert(t1[p + 2]@ == t2[p + 2]@);
            if t1[p + 1] is StringVal && t1[p + 2] is Colon {
                lemma_object_views(t1, t2, p + 3);
                if let Ok((o1, q)) = p_object(t1, p + 3) {
                    if p < q <= t1.len() {
                        lemma_dict_entry_views(t1, t2, q);
                        let o2 = p_object(t2, p + 3)->Ok_0.0;
                        let k1 = t1[p + 1]->StringVal_0;
                        let k2 = t2[p + 1]->StringVal_0;
                        assert(k1@ == k2@);
                        if let Ok((e1, _)) = p_dict_entry(t1, q) {
                            let e2 = p_dict_entry(t2, q)->Ok_0.0;
                            assert forall|acc: Map<Seq<char>, Json>|
                                #[trigger] dict_fold(DictEntry::Entry(k2, o2, Box::new(e2)), acc)
                                    == dict_fold(DictEntry::Entry(k1, o1, Box::new(e1)), acc) by {
                                let a = acc.insert(k1@, reduce(o1));
                                assert(dict_fold(e2, a) == dict_fold(e1, a));
                            }
                        }
                    }
                }
            }
        }
        if t1[p] is CCB {
            assert forall|acc: Map<Seq<char>, Json>|
                #[trigger] dict_fold(DictEntry::Nil, acc) == acc by {}
        }
    }
}

pub proof fn lemma_array_start_views(t1: Seq<Token>, t2: Seq<Token>, p: int)
    requires
        same_tokens(t1, t2),
    ensures
        agree_array_start(p_array_start(t1, p), p_array_start(t2, p)),
    decreases t1.len() + 1 - p, 2nat,
{
    if 0 <= p < t1.len() {
        assert(t1[p]@ == t2[p]@);
        lemma_object_views(t1, t2, p);
        if let Ok((_, q)) = p_object(t1, p) {
            if p < q <= t1.len() {
                lemma_array_entry_views(t1, t2, q);
            }
        }
    }
}

pub proof fn lemma_array_entry_views(t1: Seq<Token>, t2: Seq<Token>, p: int)
    requires
        same_tokens(t1, t2),
    ensures
        agree_array_entry(p_array_entry(t1, p), p_array_entry(t2, p)),
    decreases t1.len() + 1 - p, 0nat,
{
    if 0 <= p < t1.len() {
        assert(t1[p]@ == t2[p]@);
        if t1[p] is Comma {
            lemma_object_views(t1, t2, p + 1);
            if let Ok((_, q)) = p_object(t1, p + 1) {
                if p < q <= t1.len() {
                    lemma_array_entry_views(t1, t2, q);
                }
            }
        }
    }
}

} // verus!
