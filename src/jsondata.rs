use vstd::prelude::*;

verus! {

/// The decoded value tree. A number keeps the text of its literal.
#[derive(Debug, PartialEq)]
pub enum JSONVal {
    Array(Vec<JSONVal>),
    Object(JsonObject),
    Number(String),
    StringVal(String),
    Bool(bool),
    Null,
}

/// A mapping from strings to values: a list of entries with distinct keys.
#[derive(Debug, PartialEq)]
pub struct JsonObject {
    entries: Vec<(String, JSONVal)>,
}

/// The mathematical model of a decoded value.
pub enum Json {
    Array(Seq<Json>),
    Object(Map<Seq<char>, Json>),
    Number(Seq<char>),
    Str(Seq<char>),
    Bool(bool),
    Null,
}

impl JsonObject {
    pub closed spec fn entries(&self) -> Seq<(String, JSONVal)> {
        self.entries@
    }

    /// No key occurs twice.
    pub open spec fn wf(&self) -> bool {
        forall|i: int, j: int|
            0 <= i < j < self.entries().len() ==> self.entries()[i].0@ != self.entries()[j].0@
    }

    pub open spec fn has(&self, k: Seq<char>) -> bool {
        exists|i: int| 0 <= i < self.entries().len() && self.entries()[i].0@ == k
    }

    /// The value stored under `k`, if any.
    pub open spec fn lookup(&self, k: Seq<char>) -> Option<JSONVal> {
        if self.has(k) {
            let i = choose|i: int| 0 <= i < self.entries().len() && self.entries()[i].0@ == k;
            Some(self.entries()[i].1)
        } else {
            None
        }
    }

    pub open spec fn keys(&self) -> Set<Seq<char>> {
        Set::new(|k: Seq<char>| self.has(k))
    }

    pub proof fn lemma_lookup_at(&self, i: int)
        requires
            self.wf(),
            0 <= i < self.entries().len(),
        ensures
            self.lookup(self.entries()[i].0@) == Some(self.entries()[i].1),
    {
        let k = self.entries()[i].0@;
        assert(self.has(k));
        let j = choose|j: int| 0 <= j < self.entries().len() && self.entries()[j].0@ == k;
        assert(j == i);
    }

    pub fn new() -> (r: JsonObject)
        ensures
            r.wf(),
            r.entries().len() == 0,
            forall|k: Seq<char>| r.lookup(k) is None,
    {
        JsonObject { entries: Vec::new() }
    }

    /// The number of keys.
    pub fn len(&self) -> (r: usize)
        ensures
            r == self.entries().len(),
    {
        self.entries.len()
    }

    /// The key of the `i`-th entry; entries come in order of first insertion.
    pub fn key_at(&self, i: usize) -> (r: &String)
        requires
            i < self.entries().len(),
        ensures
            *r == self.entries()[i as int].0,
    {
        &self.entries[i].0
    }

    /// The value of the `i`-th entry.
    pub fn value_at(&self, i: usize) -> (r: &JSONVal)
        requires
            i < self.entries().len(),
        ensures
            *r == self.entries()[i as int].1,
    {
        &self.entries[i].1
    }

    fn find(&self, key: &String) -> (r: Option<usize>)
        ensures
            match r {
                Some(i) => i < self.entries().len() && self.entries()[i as int].0@ == key@,
                None => !self.has(key@),
            },
    {
        let mut i: usize = 0;
        while i < self.entries.len()
            invariant
                i <= self.entries@.len(),
                forall|j: int| 0 <= j < i ==> self.entries@[j].0@ != key@,
            decreases self.entries@.len() - i,
        {
            if self.entries[i].0 == *key {
                return Some(i);
            }
            i += 1;
        }
        None
    }

    /// The value stored under `key`, if any.
    pub fn get(&self, key: &String) -> (r: Option<&JSONVal>)
        requires
            self.wf(),
        ensures
            match self.lookup(key@) {
                Some(v) => r is Some && *r->Some_0 == v,
                None => r is None,
            },
    {
        match self.find(key) {
            Some(i) => {
                proof {
                    self.lemma_lookup_at(i as int);
                }
                Some(&self.entries[i].1)
            },
            None => None,
        }
    }

    /// Stores `value` under `key`, replacing what was stored there.
    pub fn insert(&mut self, key: String, value: JSONVal)
        requires
            old(self).wf(),
        ensures
            final(self).wf(),
            final(self).lookup(key@) == Some(value),
            forall|k: Seq<char>| k != key@ ==> final(self).lookup(k) == old(self).lookup(k),
            final(self).keys() == old(self).keys().insert(key@),
            forall|i: int|
                0 <= i < final(self).entries().len() ==> (final(self).entries()[i].0@ == key@
                    && final(self).entries()[i].1 == value) || (exists|j: int|
                    0 <= j < old(self).entries().len() && old(self).entries()[j]
                        == final(self).entries()[i] && old(self).entries()[j].0@ != key@),
    {
        let ghost k0 = key@;
        let ghost pre = self.entries@;
        let ghost idx: int;
        match self.find(&key) {
            Some(i) => {
                self.entries.set(i, (key, value));
                proof {
                    idx = i as int;
                    assert(self.entries@ == pre.update(idx, self.entries@[idx]));
                }
            },
            None => {
                self.entries.push((key, value));
                proof {
                    idx = pre.len() as int;
                    assert forall|j: int| 0 <= j < pre.len() implies pre[j].0@ != k0 by {
                        if pre[j].0@ == k0 {
                            assert(old(self).entries()[j].0@ == k0);
                            assert(old(self).has(k0));
                        }
                    }
                }
            },
        }
        proof {
            let n = self.entries().len();
            assert(self.entries()[idx].0@ == k0 && self.entries()[idx].1 == value);
            assert(forall|j: int| 0 <= j < n && j != idx ==> self.entries()[j] == pre[j]);
            assert(forall|j: int| 0 <= j < pre.len() && j != idx ==> pre[j].0@ != k0);
            assert forall|a: int, b: int| 0 <= a < b < n implies self.entries()[a].0@
                != self.entries()[b].0@ by {
                if a != idx && b != idx {
                    assert(old(self).entries()[a].0@ != old(self).entries()[b].0@);
                }
            }
            assert(self.wf());
            assert forall|k: Seq<char>| self.has(k) <==> (old(self).has(k) || k == k0) by {
                if self.has(k) && k != k0 {
                    let j = choose|j: int| 0 <= j < n && self.entries()[j].0@ == k;
                    assert(old(self).entries()[j].0@ == k);
                }
                if old(self).has(k) && k != k0 {
                    let j = choose|j: int| 0 <= j < pre.len() && pre[j].0@ == k;
                    assert(self.entries()[j].0@ == k);
                }
                if k == k0 {
                    assert(self.entries()[idx].0@ == k);
                }
            }
            assert(self.keys() =~= old(self).keys().insert(k0));
            assert forall|i: int| 0 <= i < n implies (self.entries()[i].0@ == k0
                && self.entries()[i].1 == value) || (exists|j: int|
                0 <= j < old(self).entries().len() && old(self).entries()[j] == self.entries()[i]
                    && old(self).entries()[j].0@ != k0) by {
                if i != idx {
                    assert(old(self).entries()[i] == self.entries()[i]);
                }
            }
            self.lemma_lookup_at(idx);
            assert forall|k: Seq<char>| k != k0 implies self.lookup(k) == old(self).lookup(k) by {
                if old(self).has(k) {
                    let j = choose|j: int|
                        0 <= j < old(self).entries().len() && old(self).entries()[j].0@ == k;
                    old(self).lemma_lookup_at(j);
                    assert(self.entries()[j] == old(self).entries()[j]);
                    self.lemma_lookup_at(j);
                } else {
                    assert(!self.has(k));
                }
            }
        }
    }
}

impl JSONVal {
    /// `self` is a value whose model is `j`.
    pub open spec fn denotes(&self, j: Json) -> bool
        decreases self,
    {
        match self {
            JSONVal::Array(vs) => j is Array && vs@.len() == j->Array_0.len() && forall|i: int|
                0 <= i < vs@.len() ==> (#[trigger] vs@[i]).denotes(j->Array_0[i]),
            JSONVal::Object(d) => j is Object && d.wf() && d.keys() == j->Object_0.dom()
                && forall|i: int|
                0 <= i < d.entries().len() ==> (#[trigger] d.entries()[i]).1.denotes(
                    j->Object_0[d.entries()[i].0@],
                ),
            JSONVal::Number(s) => j == Json::Number(s@),
            JSONVal::StringVal(s) => j == Json::Str(s@),
            JSONVal::Bool(b) => j == Json::Bool(*b),
            JSONVal::Null => j == Json::Null,
        }
    }
}

} // verus!
