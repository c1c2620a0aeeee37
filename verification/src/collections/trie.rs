//! [Trie]: a tree walked by a sequence of keys; each node may hold a value.
use vstd::prelude::*;
use core::hash::Hash;
use std::collections::HashMap;
use std::collections::hash_map::Entry;
use vstd::std_specs::hash::obeys_key_model;
use vstd::std_specs::iter::IteratorSpec;

verus! {

broadcast use vstd::std_specs::hash::group_hash_axioms, vstd::std_specs::hash::axiom_hashmap_decreases;

/// `keys` starts with `prefix`.
pub open spec fn has_prefix<K>(keys: Seq<K>, prefix: Seq<K>) -> bool {
    prefix.len() <= keys.len() && keys.take(prefix.len() as int) == prefix
}

/// A node of the tree: an optional value and a child for each next key.
pub struct Trie<Key, Value> where Key: Hash + Eq {
    value: Option<Value>,
    nexts: HashMap<Key, Trie<Key, Value>>,
}

impl<Key, Value> Trie<Key, Value> where Key: Hash + Eq {
    /// The value stored at this node.
    pub closed spec fn value_view(&self) -> Option<Value> {
        self.value
    }

    /// The children, by key.
    pub closed spec fn nexts_view(&self) -> Map<Key, Trie<Key, Value>> {
        self.nexts@
    }

    /// The node reached by walking `keys`, if every step exists.
    pub open spec fn travel_spec(self, keys: Seq<Key>) -> Option<Trie<Key, Value>>
        decreases keys.len(),
    {
        if keys.len() == 0 {
            Some(self)
        } else if self.nexts_view().contains_key(keys[0]) {
            self.nexts_view()[keys[0]].travel_spec(keys.drop_first())
        } else {
            None
        }
    }

    /// The value stored at `keys`.
    pub open spec fn lookup(self, keys: Seq<Key>) -> Option<Value> {
        match self.travel_spec(keys) {
            Some(n) => n.value_view(),
            None => None,
        }
    }

    /// Neither this node nor any node below it holds a value.
    pub open spec fn no_values(self) -> bool {
        forall|keys: Seq<Key>| #[trigger] self.lookup(keys) is None
    }

    /// Walking nothing stays at the node; walking `a` then `b` is walking `a + b`; and the value
    /// at `keys` is the value held by the node that walking `keys` reaches.
    pub proof fn lemma_travel_concat(self, a: Seq<Key>, b: Seq<Key>)
        ensures
            self.travel_spec(Seq::empty()) == Some(self),
            self.travel_spec(a + b) == match self.travel_spec(a) {
                Some(n) => n.travel_spec(b),
                None => None,
            },
            self.lookup(a) == match self.travel_spec(a) {
                Some(n) => n.lookup(Seq::empty()),
                None => None,
            },
        decreases a.len(),
    {
        if a.len() > 0 {
            assert((a + b).drop_first() =~= a.drop_first() + b);
            assert((a + b)[0] == a[0]);
            if self.nexts_view().contains_key(a[0]) {
                self.nexts_view()[a[0]].lemma_travel_concat(a.drop_first(), b);
            }
        } else {
            assert(a + b =~= b);
        }
    }

    /// An empty trie.
    pub fn new() -> (res: Self)
        requires
            obeys_key_model::<Key>(),
        ensures
            res.value_view() is None,
            res.nexts_view() == Map::<Key, Trie<Key, Value>>::empty(),
            res.no_values(),
    {
        let res = Trie { nexts: HashMap::new(), value: None };
        proof {
            assert forall|keys: Seq<Key>| #[trigger] res.lookup(keys) is None by {
                if keys.len() > 0 {
                    assert(!res.nexts_view().contains_key(keys[0]));
                }
            }
        }
        res
    }

    /// Walks `index` from position `pos` on.
    fn travel_from<'a>(&'a self, index: &[Key], pos: usize) -> (res: Option<&'a Trie<Key, Value>>)
        requires
            obeys_key_model::<Key>(),
            pos <= index@.len(),
        ensures
            res matches Some(n) ==> self.travel_spec(index@.skip(pos as int)) == Some(*n),
            res is None ==> self.travel_spec(index@.skip(pos as int)) is None,
        decreases index@.len() - pos,
    {
        if pos >= index.len() {
            assert(index@.skip(pos as int) =~= Seq::<Key>::empty());
            return Some(self);
        }
        assert(index@.skip(pos as int).drop_first() =~= index@.skip(pos + 1));
        assert(index@.skip(pos as int)[0] == index@[pos as int]);
        match self.nexts.get(&index[pos]) {
            Some(next) => next.travel_from(index, pos + 1),
            None => None,
        }
    }

    /// The node reached by walking all of `index`, or `None` where a step is missing.
    ///
    /// The node need not hold a value.
    pub fn travel<'a>(&'a self, index: &[Key]) -> (res: Option<&'a Trie<Key, Value>>)
        requires
            obeys_key_model::<Key>(),
        ensures
            res matches Some(n) ==> self.travel_spec(index@) == Some(*n),
            res is None ==> self.travel_spec(index@) is None,
    {
        assert(index@.skip(0) =~= index@);
        self.travel_from(index, 0)
    }

    /// The value at `index`, if there is one.
    pub fn get<'a>(&'a self, index: &[Key]) -> (res: Option<&'a Value>)
        requires
            obeys_key_model::<Key>(),
        ensures
            res matches Some(v) ==> self.lookup(index@) == Some(*v),
            res is None ==> self.lookup(index@) is None,
    {
        match self.travel(index) {
            Some(n) => n.value.as_ref(),
            None => None,
        }
    }

    /// Whether this node holds no value and has no children; the nodes below are not looked at.
    pub fn is_empty(&self) -> (res: bool)
        requires
            obeys_key_model::<Key>(),
        ensures
            res == (self.value_view() is None && self.nexts_view().dom().len() == 0),
    {
        self.value.is_none() && self.nexts.len() == 0
    }

    /// A node with no value and no children holds no values below it.
    pub proof fn lemma_empty_no_values(self)
        requires
            self.value_view() is None,
            self.nexts_view().dom().len() == 0,
        ensures
            self.no_values(),
    {
        assert(self.nexts_view().dom().finite());
        assert forall|keys: Seq<Key>| #[trigger] self.lookup(keys) is None by {
            if keys.len() > 0 && self.nexts_view().contains_key(keys[0]) {
                assert(self.nexts_view().dom().contains(keys[0]));
                vstd::set_lib::lemma_set_empty_equivalency_len(self.nexts_view().dom());
            }
        }
    }

    /// Stores `value` at `index`, creating the nodes on the way; returns the value that was there.
    pub fn insert(&mut self, index: Vec<Key>, value: Value) -> (res: Option<Value>)
        requires
            obeys_key_model::<Key>(),
        ensures
            res == old(self).lookup(index@),
            final(self).lookup(index@) == Some(value),
            forall|keys: Seq<Key>|
                keys != index@ ==> #[trigger] final(self).lookup(keys) == old(self).lookup(keys),
        decreases index@.len(),
    {
        let mut index = index;
        if index.len() == 0 {
            let res = self.value.take();
            self.value = Some(value);
            proof {
                assert forall|keys: Seq<Key>| keys != index@ implies #[trigger] self.lookup(keys)
                    == old(self).lookup(keys) by {
                    assert(keys.len() > 0) by {
                        if keys.len() == 0 {
                            assert(keys =~= index@);
                        }
                    }
                }
            }
            return res;
        }
        let ghost full = index@;
        let key = index.remove(0);
        assert(full.drop_first() =~= index@);
        assert(full[0] == key);
        let mut next = match self.nexts.remove(&key) {
            Some(next) => next,
            None => {
                proof {
                    assert(!old(self).nexts_view().contains_key(key));
                }
                Trie::new()
            },
        };
        let ghost old_next = next;
        let res = next.insert(index, value);
        self.nexts.insert(key, next);
        proof {
            let on = old(self).nexts_view();
            assert(self.nexts_view() == on.insert(key, next));
            if on.contains_key(key) {
                assert(old_next == on[key]);
            } else {
                assert(old_next.lookup(index@) is None);
            }
            assert forall|keys: Seq<Key>| keys != full implies #[trigger] self.lookup(keys)
                == old(self).lookup(keys) by {
                if keys.len() > 0 && keys[0] == key {
                    assert(keys.drop_first() != index@) by {
                        if keys.drop_first() == index@ {
                            assert forall|i: int| 0 <= i < keys.len() implies keys[i] == full[i] by {
                                        if i > 0 {
                                            assert(keys[i] == keys.drop_first()[i - 1]);
                                            assert(full[i] == full.drop_first()[i - 1]);
                                        }
                                    }
                                    assert(keys =~= full);
                        }
                    }
                    assert(next.lookup(keys.drop_first()) == old_next.lookup(keys.drop_first()));
                    if !on.contains_key(key) {
                        assert(old_next.no_values());
                    }
                }
            }
        }
        res
    }

    /// Removes the value at `index` and returns it; children left with no value and no
    /// children are dropped: afterwards no node on the path below this one holds no value and
    /// has no children.
    pub fn remove(&mut self, index: Vec<Key>) -> (res: Option<Value>)
        requires
            obeys_key_model::<Key>(),
        ensures
            res == old(self).lookup(index@),
            final(self).lookup(index@) is None,
            forall|keys: Seq<Key>|
                keys != index@ ==> #[trigger] final(self).lookup(keys) == old(self).lookup(keys),
            forall|j: int|
                1 <= j <= index@.len() ==> match #[trigger] final(self).travel_spec(index@.take(j)) {
                    Some(n) => !(n.value_view() is None && n.nexts_view().dom().len() == 0),
                    None => true,
                },
        decreases index@.len(),
    {
        let mut index = index;
        if index.len() == 0 {
            let res = self.value.take();
            proof {
                assert forall|keys: Seq<Key>| keys != index@ implies #[trigger] self.lookup(keys)
                    == old(self).lookup(keys) by {
                    assert(keys.len() > 0) by {
                        if keys.len() == 0 {
                            assert(keys =~= index@);
                        }
                    }
                }
            }
            return res;
        }
        let ghost full = index@;
        let key = index.remove(0);
        assert(full.drop_first() =~= index@);
        assert(full[0] == key);
        match self.nexts.remove(&key) {
            Some(next) => {
                let mut next = next;
                let ghost old_next = next;
                let res = next.remove(index);
                if !next.is_empty() {
                    self.nexts.insert(key, next);
                } else {
                    proof {
                        next.lemma_empty_no_values();
                    }
                }
                proof {
                    let on = old(self).nexts_view();
                    assert(old_next == on[key]);
                    assert forall|keys: Seq<Key>| keys != full implies #[trigger] self.lookup(keys)
                        == old(self).lookup(keys) by {
                        if keys.len() > 0 && keys[0] == key {
                            assert(keys.drop_first() != index@) by {
                                if keys.drop_first() == index@ {
                                    assert forall|i: int| 0 <= i < keys.len() implies keys[i] == full[i] by {
                                        if i > 0 {
                                            assert(keys[i] == keys.drop_first()[i - 1]);
                                            assert(full[i] == full.drop_first()[i - 1]);
                                        }
                                    }
                                    assert(keys =~= full);
                                }
                            }
                            assert(next.lookup(keys.drop_first()) == old_next.lookup(
                                keys.drop_first(),
                            ));
                        }
                    }
                    if !self.nexts_view().contains_key(key) {
                        assert(next.lookup(index@) is None);
                    }
                    assert forall|j: int| 1 <= j <= full.len() implies match #[trigger] self.travel_spec(
                        full.take(j),
                    ) {
                        Some(n) => !(n.value_view() is None && n.nexts_view().dom().len() == 0),
                        None => true,
                    } by {
                        let p = full.take(j);
                        assert(p[0] == key);
                        assert(p.drop_first() =~= index@.take(j - 1));
                        if j == 1 {
                            assert(index@.take(0) =~= Seq::<Key>::empty());
                        } else {
                            assert(next.travel_spec(index@.take(j - 1)) == self.travel_spec(p)
                                || !self.nexts_view().contains_key(key));
                        }
                    }
                }
                res
            },
            None => {
                proof {
                    assert(self.nexts_view() == old(self).nexts_view());
                }
                None
            },
        }
    }

    /// The node reached by walking all of `index`, mutably, or `None` where a step is missing.
    /// Whatever is done to the node, afterwards the trie holds, at the keys that start with
    /// `index`, what the node holds at the rest of them, and elsewhere what it held before.
    pub fn travel_mut<'a>(&'a mut self, index: Vec<Key>) -> (res: Option<&'a mut Trie<Key, Value>>)
        requires
            obeys_key_model::<Key>(),
        ensures
            res is Some <==> old(self).travel_spec(index@) is Some,
            res matches Some(n) ==> {
                &&& old(self).travel_spec(index@) == Some(*n)
                &&& forall|keys: Seq<Key>|
                    #[trigger] final(self).lookup(keys) == if has_prefix(keys, index@) {
                        final(n).lookup(keys.skip(index@.len() as int))
                    } else {
                        old(self).lookup(keys)
                    }
            },
            res is None ==> forall|keys: Seq<Key>|
                #[trigger] final(self).lookup(keys) == old(self).lookup(keys),
        decreases index@.len(),
    {
        let mut index = index;
        if index.len() == 0 {
            proof {
                assert forall|keys: Seq<Key>| #[trigger] has_prefix(keys, index@) by {
                    assert(keys.take(0) =~= index@);
                }
                assert forall|keys: Seq<Key>| keys.skip(0) == keys by {
                    assert(keys.skip(0) =~= keys);
                }
            }
            return Some(self);
        }
        let ghost full = index@;
        let key = index.remove(0);
        assert(full.drop_first() =~= index@);
        assert(full[0] == key);
        let ghost on = old(self).nexts_view();
        proof {
            assert forall|keys: Seq<Key>|
                has_prefix(keys, full) implies keys.len() > 0 && keys[0] == key && has_prefix(
                    #[trigger] keys.drop_first(),
                    index@,
                ) && keys.drop_first().skip(index@.len() as int) == keys.skip(full.len() as int) by {
                assert(keys[0] == keys.take(full.len() as int)[0]);
                assert(keys.drop_first().take(index@.len() as int) =~= keys.take(
                    full.len() as int,
                ).drop_first());
                assert(keys.drop_first().skip(index@.len() as int) =~= keys.skip(full.len() as int));
            }
            assert forall|keys: Seq<Key>|
                keys.len() > 0 && keys[0] == key && has_prefix(#[trigger] keys.drop_first(), index@)
                    implies has_prefix(keys, full) by {
                assert(keys.take(full.len() as int) =~= seq![key] + keys.drop_first().take(
                    index@.len() as int,
                ));
                assert(full =~= seq![key] + index@);
            }
        }
        let ghost selfg = self;
        match self.nexts.entry(key) {
            Entry::Occupied(o) => {
                let next = o.into_mut();
                let ghost nextg = next;
                let r = next.travel_mut(index);
                proof {
                    let child = on[key];
                    let fchild = *final(nextg);
                    assert(final(selfg).value_view() == old(self).value_view());
                    assert(final(selfg).nexts_view() == on.insert(key, fchild));
                    assert(*nextg == child);
                    assert(old(self).travel_spec(full) == child.travel_spec(index@));
                    assert forall|keys: Seq<Key>|
                        keys.len() > 0 && keys[0] == key implies #[trigger] final(selfg).lookup(keys)
                            == fchild.lookup(keys.drop_first()) && old(self).lookup(keys)
                            == child.lookup(keys.drop_first()) by {}
                    assert forall|keys: Seq<Key>|
                        !(keys.len() > 0 && keys[0] == key) implies #[trigger] final(selfg).lookup(keys)
                            == old(self).lookup(keys) by {
                        if keys.len() > 0 {
                            assert(final(selfg).nexts_view().contains_key(keys[0])
                                == on.contains_key(keys[0]));
                        }
                    }
                }
                r
            },
            Entry::Vacant(_) => {
                proof {
                    assert(!on.contains_key(key));
                    assert(final(selfg).nexts_view() =~= on);
                }
                None
            },
        }
    }

    /// The value at `index` mutably, if there is one. Whatever it becomes, afterwards the trie
    /// holds it at `index`, and elsewhere what it held before.
    pub fn get_mut<'a>(&'a mut self, index: Vec<Key>) -> (res: Option<&'a mut Value>)
        requires
            obeys_key_model::<Key>(),
        ensures
            res is Some <==> old(self).lookup(index@) is Some,
            res matches Some(v) ==> {
                &&& old(self).lookup(index@) == Some(*v)
                &&& forall|keys: Seq<Key>|
                    #[trigger] final(self).lookup(keys) == if keys == index@ {
                        Some(*final(v))
                    } else {
                        old(self).lookup(keys)
                    }
            },
            res is None ==> forall|keys: Seq<Key>|
                #[trigger] final(self).lookup(keys) == old(self).lookup(keys),
    {
        let ghost idx = index@;
        match self.travel_mut(index) {
            Some(n) => {
                let ghost ng = n;
                let r = n.value.as_mut();
                proof {
                    let fnode = *final(ng);
                    assert(fnode.nexts_view() == ng.nexts_view());
                    assert forall|keys: Seq<Key>| has_prefix(keys, idx) implies keys =~= idx + keys.skip(
                        idx.len() as int,
                    ) by {
                        assert(keys.take(idx.len() as int) == idx);
                    }
                    assert forall|q: Seq<Key>| q.len() > 0 implies #[trigger] fnode.lookup(q)
                        == ng.lookup(q) by {}
                    assert forall|q: Seq<Key>| #[trigger] old(self).lookup(idx + q) == ng.lookup(q) by {
                        old(self).lemma_travel_append(idx, q);
                    }
                    assert(idx + Seq::<Key>::empty() =~= idx);
                    assert forall|keys: Seq<Key>| has_prefix(keys, idx) && keys != idx implies (
                        #[trigger] keys.skip(idx.len() as int)).len() > 0 by {
                        if keys.skip(idx.len() as int).len() == 0 {
                            assert(keys =~= idx);
                        }
                    }
                    assert(has_prefix(idx, idx)) by {
                        assert(idx.take(idx.len() as int) =~= idx);
                    }
                    assert(idx.skip(idx.len() as int) =~= Seq::<Key>::empty());
                }
                r
            },
            None => {
                proof {
                    assert(old(self).travel_spec(idx) is None);
                }
                None
            },
        }
    }

    /// Walking `p` and then `q` is walking `p + q`.
    pub proof fn lemma_travel_append(self, p: Seq<Key>, q: Seq<Key>)
        ensures
            self.travel_spec(p + q) == match self.travel_spec(p) {
                Some(n) => n.travel_spec(q),
                None => None,
            },
        decreases p.len(),
    {
        if p.len() == 0 {
            assert(p + q =~= q);
        } else {
            assert((p + q)[0] == p[0]);
            assert((p + q).drop_first() =~= p.drop_first() + q);
            if self.nexts_view().contains_key(p[0]) {
                self.nexts_view()[p[0]].lemma_travel_append(p.drop_first(), q);
            }
        }
    }

    /// Walking one more key goes from the node reached to its child at that key.
    pub proof fn lemma_travel_push(self, p: Seq<Key>, k: Key)
        ensures
            self.travel_spec(p.push(k)) == match self.travel_spec(p) {
                Some(n) => if n.nexts_view().contains_key(k) {
                    Some(n.nexts_view()[k])
                } else {
                    None
                },
                None => None,
            },
        decreases p.len(),
    {
        if p.len() == 0 {
            assert(p.push(k).drop_first() =~= Seq::<Key>::empty());
            assert(p.push(k)[0] == k);
            if self.nexts_view().contains_key(k) {
                assert(self.nexts_view()[k].travel_spec(Seq::<Key>::empty()) == Some(
                    self.nexts_view()[k],
                ));
            }
        } else {
            assert(p.push(k).drop_first() =~= p.drop_first().push(k));
            assert(p.push(k)[0] == p[0]);
            if self.nexts_view().contains_key(p[0]) {
                self.nexts_view()[p[0]].lemma_travel_push(p.drop_first(), k);
            }
        }
    }

    /// Where a walk fails, every longer walk with the same start fails too.
    pub proof fn lemma_travel_none_extends(self, p: Seq<Key>, q: Seq<Key>)
        requires
            self.travel_spec(p) is None,
        ensures
            self.travel_spec(p + q) is None,
        decreases p.len(),
    {
        assert(p.len() > 0);
        assert((p + q)[0] == p[0]);
        assert((p + q).drop_first() =~= p.drop_first() + q);
        if self.nexts_view().contains_key(p[0]) {
            self.nexts_view()[p[0]].lemma_travel_none_extends(p.drop_first(), q);
        }
    }

    /// Walks `index` as far as it goes; returns the value of the deepest node on the way that
    /// holds one (this node's value where none below does), the keys that lead to it, and the
    /// keys after them.
    pub fn match_get<'a>(&'a self, index: Vec<Key>) -> (res: (Option<&'a Value>, Vec<Key>, Vec<Key>))
        requires
            obeys_key_model::<Key>(),
        ensures
            res.1@ + res.2@ == index@,
            res.1@.len() == 0 ==> (res.0 matches Some(v) ==> self.value_view() == Some(*v)) && (
            res.0 is None ==> self.value_view() is None),
            res.1@.len() > 0 ==> (res.0 matches Some(v) && self.lookup(res.1@) == Some(*v)),
            forall|m: int|
                res.1@.len() < m <= index@.len() ==> #[trigger] self.lookup(index@.take(m)) is None,
    {
        let ghost index0 = index@;
        let mut index = index;
        let mut used: Vec<Key> = Vec::new();
        let mut unused: Vec<Key> = Vec::new();
        let mut current: &Trie<Key, Value> = self;
        let mut selected: &Trie<Key, Value> = self;
        assert(index0.take(0) =~= Seq::<Key>::empty());
        while index.len() > 0
            invariant_except_break
                obeys_key_model::<Key>(),
                used@ + unused@ + index@ == index0,
                self.travel_spec(used@ + unused@) == Some(*current),
                self.travel_spec(used@) == Some(*selected),
                used@.len() > 0 ==> selected.value_view() is Some,
                used@.len() == 0 ==> *selected == *self,
                forall|m: int|
                    used@.len() < m <= used@.len() + unused@.len() ==> #[trigger] self.lookup(
                        index0.take(m),
                    ) is None,
            ensures
                used@ + unused@ + index@ == index0,
                self.travel_spec(used@) == Some(*selected),
                used@.len() > 0 ==> selected.value_view() is Some,
                used@.len() == 0 ==> *selected == *self,
                forall|m: int|
                    used@.len() < m <= index0.len() ==> #[trigger] self.lookup(index0.take(m))
                        is None,
            decreases index@.len(),
        {
            let ghost before = used@ + unused@;
            let key = index.remove(0);
            proof {
                assert(index0.take(before.len() as int) =~= before) by {
                    assert(index0 =~= before + (seq![key] + index@));
                }
                assert(index0.take(before.len() + 1int) =~= before.push(key)) by {
                    assert(index0 =~= before + (seq![key] + index@));
                }
                self.lemma_travel_push(before, key);
            }
            match current.nexts.get(&key) {
                Some(next) => {
                    unused.push(key);
                    proof {
                        assert(used@ + unused@ =~= before.push(key));
                    }
                    if next.value.is_some() {
                        selected = next;
                        used.append(&mut unused);
                        proof {
                            assert(used@ =~= before.push(key));
                            assert(used@ + unused@ =~= before.push(key));
                        }
                    } else {
                        proof {
                            assert(self.lookup(index0.take(before.len() + 1int)) is None);
                        }
                    }
                    current = next;
                },
                None => {
                    unused.push(key);
                    proof {
                        assert(used@ + unused@ =~= before.push(key));
                        assert forall|m: int|
                            used@.len() < m <= index0.len() implies #[trigger] self.lookup(
                                index0.take(m),
                            ) is None by {
                            if m > before.len() {
                                let p = before.push(key);
                                assert(index0.take(m) =~= p + index0.take(m).skip(p.len() as int));
                                self.lemma_travel_none_extends(p, index0.take(m).skip(p.len() as int));
                            }
                        }
                        assert(used@ + unused@ + index@ =~= index0);
                    }
                    break;
                },
            }
        }
        let ghost unused_before = unused@;
        unused.append(&mut index);
        proof {
            assert(used@ + unused@ =~= index0);
        }
        (selected.value.as_ref(), used, unused)
    }

    /// Whether neither this node nor any node below it holds a value.
    pub fn is_true_empty(&self) -> (res: bool)
        requires
            obeys_key_model::<Key>(),
        ensures
            res == self.no_values(),
        decreases self,
    {
        if self.value.is_some() {
            assert(self.lookup(Seq::<Key>::empty()) is Some);
            return false;
        }
        let ghost m = self.nexts@;
        let ghost sq = vstd::std_specs::hash::spec_values_iter(&self.nexts).remaining();
        let ghost mut cnt: int = 0;
        proof {
            vstd::std_specs::hash::axiom_spec_values_iter(&self.nexts);
        }
        for c in it: self.nexts.values()
            invariant
                obeys_key_model::<Key>(),
                m == self.nexts@,
                self.value_view() is None,
                it.seq() == sq,
                cnt == it.index(),
                sq.unref().to_set() == m.values(),
                forall|i: int| 0 <= i < cnt ==> (#[trigger] sq[i]).no_values(),
        {
            proof {
                let v = *c;
                assert(sq.unref()[it.index()] == v);
                assert(m.values().contains(v));
                let k = choose|k: Key| m.dom().contains(k) && m[k] == v;
                assert(decreases_to!(self => self.nexts));
                assert(decreases_to!(self.nexts => self.nexts@));
                assert(decreases_to!(m => m[k]));
            }
            if !c.is_true_empty() {
                proof {
                    let v = *c;
                    let k = choose|k: Key| m.dom().contains(k) && m[k] == v;
                    let ks = choose|ks: Seq<Key>| v.lookup(ks) is Some;
                    let full = seq![k] + ks;
                    assert(full.drop_first() =~= ks);
                    assert(self.lookup(full) is Some);
                }
                return false;
            }
            proof {
                cnt = cnt + 1;
            }
        }
        proof {
            assert(cnt == sq.len());
            assert forall|ks: Seq<Key>| #[trigger] self.lookup(ks) is None by {
                if ks.len() > 0 && m.contains_key(ks[0]) {
                    let v = m[ks[0]];
                    assert(m.values().contains(v));
                    assert(sq.unref().to_set().contains(v));
                    let vs = sq.unref();
                    let i = choose|i: int| 0 <= i < vs.len() && #[trigger] vs[i] == v;
                    assert(sq[i].no_values());
                    assert(v.lookup(ks.drop_first()) is None);
                }
            }
        }
        true
    }
}

} // verus!
