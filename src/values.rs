use vstd::prelude::*;

use crate::data::{clone_value, Value, ValueView};

verus! {

/// Whether no key occurs twice among the pairs.
pub open spec fn unique_keys(p: Seq<(Seq<char>, ValueView)>) -> bool {
    forall|i: int, j: int| 0 <= i < j < p.len() ==> p[i].0 != p[j].0
}

/// The map that a list of key-value pairs stands for.
pub open spec fn map_of(p: Seq<(Seq<char>, ValueView)>) -> Map<Seq<char>, ValueView>
    decreases p.len(),
{
    if p.len() == 0 {
        Map::empty()
    } else {
        map_of(p.drop_last()).insert(p.last().0, p.last().1)
    }
}

pub proof fn lemma_map_of_absent(p: Seq<(Seq<char>, ValueView)>, k: Seq<char>)
    requires
        forall|i: int| 0 <= i < p.len() ==> (#[trigger] p[i]).0 != k,
    ensures
        !map_of(p).contains_key(k),
    decreases p.len(),
{
    if p.len() > 0 {
        lemma_map_of_absent(p.drop_last(), k);
        assert(p[p.len() - 1].0 != k);
    }
}

pub proof fn lemma_map_of_index(p: Seq<(Seq<char>, ValueView)>, i: int)
    requires
        unique_keys(p),
        0 <= i < p.len(),
    ensures
        map_of(p).contains_key(p[i].0),
        map_of(p)[p[i].0] == p[i].1,
    decreases p.len(),
{
    if i < p.len() - 1 {
        lemma_map_of_index(p.drop_last(), i);
    }
}

/// The keys of `map_of(p)` are exactly those of the pairs.
pub proof fn lemma_map_of_contains(p: Seq<(Seq<char>, ValueView)>, k: Seq<char>)
    requires
        unique_keys(p),
    ensures
        map_of(p).contains_key(k) <==> exists|i: int| 0 <= i < p.len() && (#[trigger] p[i]).0 == k,
{
    if exists|i: int| 0 <= i < p.len() && (#[trigger] p[i]).0 == k {
        let i = choose|i: int| 0 <= i < p.len() && (#[trigger] p[i]).0 == k;
        lemma_map_of_index(p, i);
    } else {
        lemma_map_of_absent(p, k);
    }
}

pub proof fn lemma_map_of_update(p: Seq<(Seq<char>, ValueView)>, i: int, v: ValueView)
    requires
        unique_keys(p),
        0 <= i < p.len(),
    ensures
        map_of(p.update(i, (p[i].0, v))) == map_of(p).insert(p[i].0, v),
    decreases p.len(),
{
    let q = p.update(i, (p[i].0, v));
    if i == p.len() - 1 {
        assert(q.drop_last() =~= p.drop_last());
        lemma_map_of_absent(p.drop_last(), p[i].0);
        assert(map_of(q) =~= map_of(p).insert(p[i].0, v));
    } else {
        lemma_map_of_update(p.drop_last(), i, v);
        assert(q.drop_last() =~= p.drop_last().update(i, (p[i].0, v)));
        assert(map_of(q) =~= map_of(p).insert(p[i].0, v));
    }
}

pub proof fn lemma_map_of_remove(p: Seq<(Seq<char>, ValueView)>, i: int)
    requires
        unique_keys(p),
        0 <= i < p.len(),
    ensures
        map_of(p.remove(i)) == map_of(p).remove(p[i].0),
    decreases p.len(),
{
    let q = p.remove(i);
    if i == p.len() - 1 {
        assert(q =~= p.drop_last());
        lemma_map_of_absent(p.drop_last(), p[i].0);
        assert(map_of(q) =~= map_of(p).remove(p[i].0));
    } else {
        lemma_map_of_remove(p.drop_last(), i);
        assert(q.drop_last() =~= p.drop_last().remove(i));
        assert(q.last() == p.last());
        assert(map_of(q) =~= map_of(p).remove(p[i].0));
    }
}

/// Settings by key. Keys are unique; the pairs keep the order in which
/// their keys were first inserted.
pub struct ValueMap {
    keys: Vec<String>,
    vals: Vec<Value>,
}

impl View for ValueMap {
    type V = Map<Seq<char>, ValueView>;

    open spec fn view(&self) -> Map<Seq<char>, ValueView> {
        map_of(self.entries())
    }
}

impl ValueMap {
    #[verifier::type_invariant]
    spec fn inv(&self) -> bool {
        &&& self.keys@.len() == self.vals@.len()
        &&& forall|i: int, j: int|
            0 <= i < j < self.keys@.len() ==> (#[trigger] self.keys@[i])@ != (#[trigger] self.keys@[j])@
    }

    proof fn lemma_entries_unique(&self)
        requires
            self.keys@.len() == self.vals@.len(),
            forall|i: int, j: int|
                0 <= i < j < self.keys@.len() ==> (#[trigger] self.keys@[i])@ != (#[trigger] self.keys@[j])@,
        ensures
            unique_keys(self.entries()),
            self.entries().len() == self.keys@.len(),
            forall|i: int| 0 <= i < self.keys@.len() ==> (#[trigger] self.entries()[i]) == (self.keys@[i]@, self.vals@[i]@),
    {
        assert forall|i: int, j: int| 0 <= i < j < self.entries().len() implies self.entries()[i].0 != self.entries()[j].0 by {
            assert(self.keys@[i]@ != self.keys@[j]@);
        }
    }

    /// The key-value pairs in order.
    pub closed spec fn entries(&self) -> Seq<(Seq<char>, ValueView)> {
        Seq::new(self.keys@.len(), |i: int| (self.keys@[i]@, self.vals@[i]@))
    }

    pub fn new() -> (r: Self)
        ensures
            r.entries() == Seq::<(Seq<char>, ValueView)>::empty(),
            r@ == Map::<Seq<char>, ValueView>::empty(),
    {
        let r = ValueMap { keys: Vec::new(), vals: Vec::new() };
        assert(r.entries() =~= Seq::<(Seq<char>, ValueView)>::empty());
        r
    }

    pub fn len(&self) -> (r: usize)
        ensures
            r == self.entries().len(),
            unique_keys(self.entries()),
    {
        proof { use_type_invariant(self); self.lemma_entries_unique(); }
        self.keys.len()
    }

    pub fn is_empty(&self) -> (r: bool)
        ensures
            r == (self.entries().len() == 0),
    {
        proof { use_type_invariant(self); }
        self.keys.len() == 0
    }

    /// The key of the pair at `i`.
    pub fn key_at(&self, i: usize) -> (r: &String)
        requires
            i < self.entries().len(),
        ensures
            r@ == self.entries()[i as int].0,
    {
        &self.keys[i]
    }

    /// The value of the pair at `i`.
    pub fn value_at(&self, i: usize) -> (r: &Value)
        requires
            i < self.entries().len(),
        ensures
            r@ == self.entries()[i as int].1,
    {
        proof { use_type_invariant(self); }
        &self.vals[i]
    }

    fn find(&self, key: &String) -> (r: Option<usize>)
        ensures
            match r {
                Some(i) => i < self.entries().len() && self.entries()[i as int].0 == key@,
                None => forall|i: int|
                    0 <= i < self.entries().len() ==> (#[trigger] self.entries()[i]).0 != key@,
            },
    {
        proof { use_type_invariant(self); }
        let mut i: usize = 0;
        while i < self.keys.len()
            invariant
                i <= self.keys@.len(),
                self.keys@.len() == self.vals@.len(),
                forall|j: int| 0 <= j < i ==> (#[trigger] self.entries()[j]).0 != key@,
            decreases self.keys@.len() - i,
        {
            if self.keys[i] == *key {
                return Some(i);
            }
            i += 1;
        }
        None
    }

    proof fn lemma_find(&self, r: Option<usize>, key: Seq<char>)
        requires
            unique_keys(self.entries()),
            match r {
                Some(i) => i < self.entries().len() && self.entries()[i as int].0 == key,
                None => forall|i: int|
                    0 <= i < self.entries().len() ==> (#[trigger] self.entries()[i]).0 != key,
            },
        ensures
            r is Some <==> self@.contains_key(key),
            r is Some ==> self@[key] == self.entries()[r->0 as int].1,
    {
        match r {
            Some(i) => lemma_map_of_index(self.entries(), i as int),
            None => lemma_map_of_absent(self.entries(), key),
        }
    }

    pub fn contains_key(&self, key: &str) -> (r: bool)
        ensures
            r == self@.contains_key(key@),
    {
        proof { use_type_invariant(self); }
        let k = key.to_owned();
        let r = self.find(&k);
        proof { self.lemma_entries_unique(); self.lemma_find(r, key@); }
        r.is_some()
    }

    pub fn get(&self, key: &str) -> (r: Option<&Value>)
        ensures
            match r {
                Some(v) => self@.contains_key(key@) && v@ == self@[key@],
                None => !self@.contains_key(key@),
            },
    {
        proof { use_type_invariant(self); }
        let k = key.to_owned();
        let r = self.find(&k);
        proof { self.lemma_entries_unique(); self.lemma_find(r, key@); }
        match r {
            Some(i) => Some(&self.vals[i]),
            None => None,
        }
    }

    pub fn get_mut(&mut self, key: &str) -> (r: Option<&mut Value>)
        ensures
            match r {
                Some(v) => {
                    &&& old(self)@.contains_key(key@)
                    &&& (*v)@ == old(self)@[key@]
                    &&& final(self)@ == old(self)@.insert(key@, (*final(v))@)
                    &&& final(self).entries().len() == old(self).entries().len()
                },
                None => !old(self)@.contains_key(key@) && *final(self) == *old(self),
            },
    {
        proof { use_type_invariant(&*self); }
        let k = key.to_owned();
        let r = self.find(&k);
        proof { self.lemma_entries_unique(); self.lemma_find(r, key@); }
        match r {
            Some(i) => {
                proof {
                    let p = self.entries();
                    assert forall|x: ValueMap|
                        x.keys@ == self.keys@ && x.vals@.len() == self.vals@.len() && (forall|j: int|
                            0 <= j < x.vals@.len() && j != i ==> x.vals@[j] == self.vals@[j])
                        implies #[trigger] x@ == self@.insert(key@, x.vals@[i as int]@)
                        && x.entries().len() == p.len() by {
                        assert(x.entries() =~= p.update(i as int, (p[i as int].0, x.vals@[i as int]@)));
                        lemma_map_of_update(p, i as int, x.vals@[i as int]@);
                    }
                }
                Some(&mut self.vals[i])
            },
            None => None,
        }
    }

    /// Sets `key` to `value`; returns the value it replaced, if any.
    pub fn insert(&mut self, key: String, value: Value) -> (r: Option<Value>)
        ensures
            final(self)@ == old(self)@.insert(key@, value@),
            match r {
                Some(v) => old(self)@.contains_key(key@) && v@ == old(self)@[key@],
                None => !old(self)@.contains_key(key@),
            },
            old(self)@.contains_key(key@) ==> final(self).entries().len() == old(self).entries().len(),
            !old(self)@.contains_key(key@) ==> final(self).entries() == old(self).entries().push(
                (key@, value@),
            ),
    {
        proof { use_type_invariant(&*self); }
        let r = self.find(&key);
        proof { self.lemma_entries_unique(); self.lemma_find(r, key@); }
        let ghost p = self.entries();
        let mut whole = ValueMap::new();
        std::mem::swap(self, &mut whole);
        let ValueMap { mut keys, mut vals } = whole;
        let result = match r {
            Some(i) => {
                let old_value = clone_value(&vals[i]);
                vals.set(i, value);
                *self = ValueMap { keys, vals };
                proof {
                    assert(self.entries() =~= p.update(i as int, (p[i as int].0, value@)));
                    lemma_map_of_update(p, i as int, value@);
                }
                Some(old_value)
            },
            None => {
                assert(forall|j: int| 0 <= j < keys@.len() ==> (#[trigger] keys@[j])@ == p[j].0);
                keys.push(key);
                vals.push(value);
                proof {
                    let q = Seq::new(keys@.len(), |j: int| (keys@[j]@, vals@[j]@));
                    assert(q =~= p.push((key@, value@)));
                }
                *self = ValueMap { keys, vals };
                proof {
                    assert(self.entries().drop_last() =~= p);
                    assert(self@ =~= map_of(p).insert(key@, value@));
                }
                None
            },
        };
        result
    }

    /// Removes `key`; returns its value, if it was present.
    pub fn remove(&mut self, key: &str) -> (r: Option<Value>)
        ensures
            final(self)@ == old(self)@.remove(key@),
            match r {
                Some(v) => old(self)@.contains_key(key@) && v@ == old(self)@[key@],
                None => !old(self)@.contains_key(key@),
            },
    {
        proof { use_type_invariant(&*self); }
        let k = key.to_owned();
        let r = self.find(&k);
        proof { self.lemma_entries_unique(); self.lemma_find(r, key@); }
        let ghost p = self.entries();
        match r {
            Some(i) => {
                let mut whole = ValueMap::new();
                std::mem::swap(self, &mut whole);
                let ValueMap { mut keys, mut vals } = whole;
                keys.remove(i);
                let v = vals.remove(i);
                proof {
                    let q = Seq::new(keys@.len(), |j: int| (keys@[j]@, vals@[j]@));
                    assert(q =~= p.remove(i as int));
                }
                *self = ValueMap { keys, vals };
                proof {
                    lemma_map_of_remove(p, i as int);
                }
                Some(v)
            },
            None => {
                proof {
                    assert(map_of(p) =~= map_of(p).remove(key@));
                }
                None
            },
        }
    }
}

/// How [`merge_values`] combines two maps.
#[derive(Debug, Clone, Copy, PartialEq, Eq)]
pub enum MergePolicy {
    /// Overwrite only the keys that already exist
    UpdateOnly,
    /// Overwrite and add every incoming key
    UpdateAndAdd,
    /// Add only the keys that do not exist yet; never overwrite
    AddOnly,
    /// Replace everything by the incoming map
    FullyReplace,
}

/// The map that merging `incoming` into `existing` gives.
pub open spec fn merged(
    existing: Map<Seq<char>, ValueView>,
    incoming: Map<Seq<char>, ValueView>,
    policy: MergePolicy,
) -> Map<Seq<char>, ValueView> {
    match policy {
        MergePolicy::UpdateOnly => Map::new(
            |k: Seq<char>| existing.contains_key(k),
            |k: Seq<char>|
                if incoming.contains_key(k) {
                    incoming[k]
                } else {
                    existing[k]
                },
        ),
        MergePolicy::UpdateAndAdd => existing.union_prefer_right(incoming),
        MergePolicy::AddOnly => incoming.union_prefer_right(existing),
        MergePolicy::FullyReplace => incoming,
    }
}

/// Combines `incoming` into `existing` under `policy`.
pub fn merge_values(existing: &mut ValueMap, incoming: &ValueMap, policy: MergePolicy)
    ensures
        final(existing)@ == merged(old(existing)@, incoming@, policy),
{
    let ghost e0 = existing@;
    let ghost pairs = incoming.entries();
    let n = incoming.len();
    if let MergePolicy::FullyReplace = policy {
        let mut fresh = ValueMap::new();
        let mut j: usize = 0;
        while j < n
            invariant
                j <= n,
                n == incoming.entries().len(),
                pairs == incoming.entries(),
                unique_keys(pairs),
                fresh@ == map_of(pairs.take(j as int)),
            decreases n - j,
        {
            let k = incoming.key_at(j);
            let v = incoming.value_at(j);
            assert(pairs.take(j + 1).drop_last() =~= pairs.take(j as int));
            fresh.insert(k.clone(), clone_value(v));
            j += 1;
        }
        assert(pairs.take(n as int) =~= pairs);
        *existing = fresh;
        return;
    }
    assert(merged(e0, map_of(pairs.take(0)), policy) =~= e0) by {
        assert(pairs.take(0) =~= Seq::<(Seq<char>, ValueView)>::empty());
    }
    let mut j: usize = 0;
    while j < n
        invariant
            j <= n,
            n == incoming.entries().len(),
            pairs == incoming.entries(),
            unique_keys(pairs),
            policy != MergePolicy::FullyReplace,
            existing@ == merged(e0, map_of(pairs.take(j as int)), policy),
        decreases n - j,
    {
        let k = incoming.key_at(j);
        let v = incoming.value_at(j);
        let ghost m = map_of(pairs.take(j as int));
        assert(pairs.take(j + 1).drop_last() =~= pairs.take(j as int));
        assert(map_of(pairs.take(j + 1)) == m.insert(k@, v@));
        proof {
            assert forall|i: int| 0 <= i < pairs.take(j as int).len() implies (#[trigger] pairs.take(
                j as int,
            )[i]).0 != k@ by {
                assert(pairs[i].0 != pairs[j as int].0);
            }
            lemma_map_of_absent(pairs.take(j as int), k@);
        }
        match policy {
            MergePolicy::UpdateOnly => {
                if existing.contains_key(k.as_str()) {
                    existing.insert(k.clone(), clone_value(v));
                }
                assert(existing@ =~= merged(e0, m.insert(k@, v@), policy));
            },
            MergePolicy::UpdateAndAdd => {
                existing.insert(k.clone(), clone_value(v));
                assert(existing@ =~= merged(e0, m.insert(k@, v@), policy));
            },
            MergePolicy::AddOnly => {
                if !existing.contains_key(k.as_str()) {
                    existing.insert(k.clone(), clone_value(v));
                }
                assert(existing@ =~= merged(e0, m.insert(k@, v@), policy));
            },
            MergePolicy::FullyReplace => {},
        }
        j += 1;
    }
    assert(pairs.take(n as int) =~= pairs);
}

} // verus!
