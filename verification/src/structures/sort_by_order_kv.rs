//! [SortByOrderWithKV]: a [SortByOrder] over keys, each key carrying an optional value.
use vstd::prelude::*;
use core::hash::Hash;
use std::collections::HashMap;
use vstd::std_specs::hash::obeys_key_model;
use crate::structures::sort_by_order::{
    SortByOrder, Order, acyclic, edges_valid, with_befores, with_afters, derefs,
    is_topological_order, visit_order,
};

verus! {

broadcast use vstd::std_specs::hash::group_hash_axioms;

/// Numbers `key` with the next number `n` unless it already has one.
pub open spec fn register<'a, K>(m: Map<&'a K, usize>, n: nat, key: &'a K) -> (Map<&'a K, usize>, nat) {
    if m.contains_key(key) {
        (m, n)
    } else {
        (m.insert(key, n as usize), n + 1)
    }
}

/// Numbers each key in turn.
pub open spec fn register_all<'a, K>(m: Map<&'a K, usize>, n: nat, keys: Seq<&'a K>) -> (Map<
    &'a K,
    usize,
>, nat)
    decreases keys.len(),
{
    if keys.len() == 0 {
        (m, n)
    } else {
        let r = register_all(m, n, keys.drop_last());
        register(r.0, r.1, keys.last())
    }
}

/// The numbers of `keys` in `m`.
pub open spec fn ids_of<'a, K>(m: Map<&'a K, usize>, keys: Seq<&'a K>) -> Seq<usize> {
    keys.map_values(|k: &'a K| m[k])
}

proof fn lemma_register_extends<'a, K>(m: Map<&'a K, usize>, n: nat, key: &'a K)
    ensures
        register(m, n, key).0.contains_key(key),
        forall|k: &'a K| #[trigger] m.contains_key(k) ==> register(m, n, key).0.contains_key(k)
            && register(m, n, key).0[k] == m[k],
        forall|k: &'a K| #[trigger] register(m, n, key).0.contains_key(k) ==> m.contains_key(k) || k
            == key,
        !m.contains_key(key) ==> register(m, n, key).0[key] == n as usize && register(m, n, key).1
            == n + 1,
        m.contains_key(key) ==> register(m, n, key).1 == n,
{
}

proof fn lemma_pad_with_befores(g: Seq<Seq<usize>>, n1: nat, n2: nat, k: usize, x: Seq<usize>)
    requires
        g.len() <= n1 <= n2,
        k < n1,
    ensures
        pad(with_befores(pad(g, n1, Seq::empty()), k, x), n2, Seq::empty()) == with_befores(
            pad(g, n2, Seq::empty()),
            k,
            x,
        ),
{
    assert(pad(with_befores(pad(g, n1, Seq::empty()), k, x), n2, Seq::empty()) =~= with_befores(
        pad(g, n2, Seq::empty()),
        k,
        x,
    ));
}

proof fn lemma_with_befores_push(g: Seq<Seq<usize>>, k: usize, x: Seq<usize>, y: usize)
    requires
        k < g.len(),
    ensures
        with_befores(with_befores(g, k, x), k, seq![y]) == with_befores(g, k, x.push(y)),
{
    if x.len() == 0 {
        assert(x.push(y) =~= seq![y]);
    } else {
        assert(g[k as int] + x + seq![y] =~= g[k as int] + x.push(y));
        assert(with_befores(with_befores(g, k, x), k, seq![y]) =~= with_befores(g, k, x.push(y)));
    }
}

proof fn lemma_pad_with_afters(g: Seq<Seq<usize>>, n: nat, k: usize, ys: Seq<usize>)
    requires
        g.len() <= n,
        forall|i: int| 0 <= i < ys.len() ==> #[trigger] ys[i] < g.len(),
    ensures
        pad(with_afters(g, k, ys), n, Seq::empty()) == with_afters(pad(g, n, Seq::empty()), k, ys),
        with_afters(g, k, ys).len() == g.len(),
    decreases ys.len(),
{
    if ys.len() > 0 {
        lemma_pad_with_afters(g, n, k, ys.drop_last());
        let h = with_afters(g, k, ys.drop_last());
        let hp = with_afters(pad(g, n, Seq::empty()), k, ys.drop_last());
        assert(pad(h.update(ys.last() as int, h[ys.last() as int].push(k)), n, Seq::empty())
            =~= hp.update(ys.last() as int, hp[ys.last() as int].push(k)));
    }
}

/// `s` extended to length `n` with `x`.
pub open spec fn pad<T>(s: Seq<T>, n: nat, x: T) -> Seq<T> {
    s + Seq::new((n - s.len()) as nat, |i: int| x)
}

/// The values present, in the order of their ids in `order`.
pub open spec fn present<T>(order: Seq<usize>, vals: Seq<Option<T>>) -> Seq<T>
    decreases order.len(),
{
    if order.len() == 0 {
        Seq::empty()
    } else {
        let rest = present(order.drop_last(), vals);
        match vals[order.last() as int] {
            Some(v) => rest.push(v),
            None => rest,
        }
    }
}

/// The values present in two orders, one after the other, are the values present in the first
/// followed by those present in the second.
pub proof fn lemma_present_concat<T>(o1: Seq<usize>, o2: Seq<usize>, vals: Seq<Option<T>>)
    ensures
        present(o1 + o2, vals) == present(o1, vals) + present(o2, vals),
    decreases o2.len(),
{
    if o2.len() == 0 {
        assert(o1 + o2 =~= o1);
        assert(present(o1, vals) + present(o2, vals) =~= present(o1, vals));
    } else {
        lemma_present_concat(o1, o2.drop_last(), vals);
        assert((o1 + o2).drop_last() =~= o1 + o2.drop_last());
        assert((o1 + o2).last() == o2.last());
        let a = present(o1, vals);
        let b = present(o2.drop_last(), vals);
        match vals[o2.last() as int] {
            Some(v) => {
                assert((a + b).push(v) =~= a + b.push(v));
            },
            None => {},
        }
    }
}

/// A single id gives its value where it has one, and nothing where it has none.
pub proof fn lemma_present_single<T>(id: usize, vals: Seq<Option<T>>)
    ensures
        present(seq![id], vals) == match vals[id as int] {
            Some(v) => seq![v],
            None => Seq::empty(),
        },
{
    assert(seq![id].drop_last() =~= Seq::<usize>::empty());
    assert(seq![id].last() == id);
    assert(present(Seq::<usize>::empty(), vals) == Seq::<T>::empty());
    match vals[id as int] {
        Some(v) => {
            assert(Seq::<T>::empty().push(v) =~= seq![v]);
        },
        None => {},
    }
}

/// Keys numbered as items of a [SortByOrder], with an optional value per item.
pub struct SortByOrderWithKV<'a, TKey: Eq + Hash, TValue> {
    sbo: SortByOrder,
    key_to_id_map: HashMap<&'a TKey, usize>,
    id_to_value_list: Vec<Option<TValue>>,
}

impl<'a, TKey: Eq + Hash, TValue> SortByOrderWithKV<'a, TKey, TValue> {
    /// The number of each key.
    pub closed spec fn ids(&self) -> Map<&'a TKey, usize> {
        self.key_to_id_map@
    }

    /// The value of each item.
    pub closed spec fn values(&self) -> Seq<Option<TValue>> {
        self.id_to_value_list@
    }

    /// The constraints between the items.
    pub closed spec fn graph(&self) -> Seq<Seq<usize>> {
        self.sbo.graph()
    }

    /// The order last computed.
    pub closed spec fn order(&self) -> Seq<usize> {
        self.sbo.result()
    }

    /// One value slot per item, every key numbered below the item count, distinct keys distinct
    /// numbers.
    pub closed spec fn wf(&self) -> bool {
        &&& self.sbo.wf()
        &&& self.id_to_value_list@.len() == self.sbo.graph().len()
        &&& forall|k: &'a TKey| #[trigger] self.key_to_id_map@.contains_key(k) ==> self.key_to_id_map@[k]
            < self.sbo.graph().len()
    }

    /// No keys.
    pub fn new() -> (res: Self)
        ensures
            res.wf(),
            res.ids() == Map::<&'a TKey, usize>::empty(),
            res.values() == Seq::<Option<TValue>>::empty(),
            res.graph() == Seq::<Seq<usize>>::empty(),
    {
        let res = SortByOrderWithKV {
            sbo: SortByOrder::new(),
            key_to_id_map: HashMap::new(),
            id_to_value_list: Vec::new(),
        };
        assert(res.values() =~= Seq::<Option<TValue>>::empty());
        res
    }

    /// The number of `key`, numbering it with the next item if it has none.
    pub fn get_or_add_key_to_id(&mut self, key: &'a TKey) -> (res: usize)
        requires
            old(self).wf(),
            obeys_key_model::<&'a TKey>(),
            old(self).graph().len() < usize::MAX,
        ensures
            final(self).wf(),
            (final(self).ids(), final(self).graph().len()) == register(
                old(self).ids(),
                old(self).graph().len(),
                key,
            ),
            res == final(self).ids()[key],
            final(self).graph() == pad(old(self).graph(), final(self).graph().len(), Seq::empty()),
            final(self).values() == pad(old(self).values(), final(self).graph().len(), None),
            old(self).ids().contains_key(key) ==> *final(self) == *old(self),
    {
        match self.key_to_id_map.get(&key) {
            Some(res) => {
                proof {
                    assert(self.graph() =~= pad(self.graph(), self.graph().len(), Seq::empty()));
                    assert(self.values() =~= pad(self.values(), self.graph().len(), None));
                }
                *res
            },
            None => {
                let id = self.sbo.add_item();
                self.key_to_id_map.insert(key, id);
                self.id_to_value_list.push(None);
                proof {
                    assert(self.graph() =~= pad(old(self).graph(), self.graph().len(), Seq::empty()));
                    assert(self.values() =~= pad(old(self).values(), self.graph().len(), None));
                }
                id
            },
        }
    }

    /// The value slot of item `id`.
    pub fn id_to_value(&mut self, id: usize) -> (res: &mut Option<TValue>)
        requires
            old(self).wf(),
            id < old(self).values().len(),
        ensures
            *res == old(self).values()[id as int],
            final(self).wf(),
            final(self).values() == old(self).values().update(id as int, *final(res)),
            final(self).ids() == old(self).ids(),
            final(self).graph() == old(self).graph(),
    {
        &mut self.id_to_value_list[id]
    }

    /// Gives `key` the value `value`, numbering it first if it has no number.
    pub fn insert(&mut self, key: &'a TKey, value: TValue)
        requires
            old(self).wf(),
            obeys_key_model::<&'a TKey>(),
            old(self).graph().len() < usize::MAX,
        ensures
            final(self).wf(),
            (final(self).ids(), final(self).graph().len()) == register(
                old(self).ids(),
                old(self).graph().len(),
                key,
            ),
            final(self).graph() == pad(old(self).graph(), final(self).graph().len(), Seq::empty()),
            final(self).values() == pad(old(self).values(), final(self).graph().len(), None).update(
                final(self).ids()[key] as int,
                Some(value),
            ),
    {
        let id = self.get_or_add_key_to_id(key);
        self.id_to_value_list.set(id, Some(value));
    }

    /// Requires `a` to come before `b`, numbering `a` and then `b` if they have no numbers.
    pub fn add_order(&mut self, a: &'a TKey, b: &'a TKey)
        requires
            old(self).wf(),
            obeys_key_model::<&'a TKey>(),
            old(self).graph().len() + 2 <= usize::MAX,
        ensures
            final(self).wf(),
            (final(self).ids(), final(self).graph().len()) == register_all(
                old(self).ids(),
                old(self).graph().len(),
                seq![a, b],
            ),
            final(self).values() == pad(old(self).values(), final(self).graph().len(), None),
            final(self).graph() == with_befores(
                pad(old(self).graph(), final(self).graph().len(), Seq::empty()),
                final(self).ids()[b],
                seq![final(self).ids()[a]],
            ),
    {
        let aid = self.get_or_add_key_to_id(a);
        let ghost m1 = self.ids();
        let bid = self.get_or_add_key_to_id(b);
        proof {
            assert(seq![a, b].drop_last() =~= seq![a]);
            assert(seq![a].drop_last() =~= Seq::<&'a TKey>::empty());
            assert(self.ids()[a] == m1[a]);
            reveal_with_fuel(register_all, 3);
            assert(register_all(old(self).ids(), old(self).graph().len(), seq![a]) == register(
                old(self).ids(),
                old(self).graph().len(),
                a,
            ));
        }
        let ghost g1 = self.graph();
        self.sbo.add_order(aid, bid);
        proof {
            assert(g1 =~= pad(old(self).graph(), self.graph().len(), Seq::empty()));
            assert(self.values() =~= pad(old(self).values(), self.graph().len(), None));
        }
    }

    /// The values present, in the order of [SortByOrder::get_res] ([visit_order]), which meets
    /// every constraint.
    pub fn get_res(&mut self) -> (res: Vec<&TValue>)
        requires
            old(self).wf(),
            edges_valid(old(self).graph()),
            acyclic(old(self).graph()),
        ensures
            final(self).wf(),
            final(self).ids() == old(self).ids(),
            final(self).values() == old(self).values(),
            final(self).graph() == old(self).graph(),
            is_topological_order(final(self).order(), final(self).graph()),
            final(self).order() == visit_order(final(self).graph(), final(self).graph().len() as int),
            derefs(res@) == present(final(self).order(), final(self).values()),
    {
        let order = self.sbo.get_res();
        present_values(order, &self.id_to_value_list)
    }

    /// [Self::get_res] where the constraints admit an order; `None`, with nothing changed, where
    /// they form a cycle.
    pub fn try_get_res(&mut self) -> (res: Option<Vec<&TValue>>)
        requires
            old(self).wf(),
            edges_valid(old(self).graph()),
        ensures
            res is Some <==> acyclic(old(self).graph()),
            res is None ==> *final(self) == *old(self),
            final(self).wf(),
            final(self).ids() == old(self).ids(),
            final(self).values() == old(self).values(),
            final(self).graph() == old(self).graph(),
            res matches Some(r) ==> {
                &&& is_topological_order(final(self).order(), final(self).graph())
                &&& final(self).order() == visit_order(
                    final(self).graph(),
                    final(self).graph().len() as int,
                )
                &&& derefs(r@) == present(final(self).order(), final(self).values())
            },
    {
        match self.sbo.try_get_res() {
            Some(order) => Some(present_values(order, &self.id_to_value_list)),
            None => None,
        }
    }
}

/// The values of `vals` that are present, taken in the order of the ids in `order`.
fn present_values<'v, T>(order: &[usize], vals: &'v Vec<Option<T>>) -> (res: Vec<&'v T>)
    requires
        forall|i: int| 0 <= i < order@.len() ==> #[trigger] order@[i] < vals@.len(),
    ensures
        derefs(res@) == present(order@, vals@),
{
    let mut res: Vec<&T> = Vec::new();
    let mut i: usize = 0;
    while i < order.len()
        invariant
            0 <= i <= order@.len(),
            forall|k: int| 0 <= k < order@.len() ==> #[trigger] order@[k] < vals@.len(),
            derefs(res@) == present(order@.take(i as int), vals@),
        decreases order@.len() - i,
    {
        let id = order[i];
        proof {
            assert(order@.take(i + 1).drop_last() =~= order@.take(i as int));
        }
        match &vals[id] {
            Some(v) => {
                res.push(v);
                proof {
                    assert(derefs(res@) =~= present(order@.take(i as int), vals@).push(*v));
                }
            },
            None => {},
        }
        i = i + 1;
    }
    proof {
        assert(order@.take(order@.len() as int) =~= order@);
    }
    res
}

impl<'a, TKey: Eq + Hash, TValue> SortByOrderWithKV<'a, TKey, TValue> {
    /// Numbers the key of `order`, then each of its befores, requiring it before the key, then
    /// each of its afters, requiring the key before it.
    #[verifier::rlimit(40)]
    pub fn add_orders<O: Order<'a, TKey>>(&mut self, order: &O)
        requires
            old(self).wf(),
            obeys_key_model::<&'a TKey>(),
            old(self).graph().len() + 1 + order.befores_view().len() + order.afters_view().len()
                <= usize::MAX,
        ensures
            final(self).wf(),
            (final(self).ids(), final(self).graph().len()) == register_all(
                old(self).ids(),
                old(self).graph().len(),
                seq![order.key_view()] + order.befores_view() + order.afters_view(),
            ),
            final(self).values() == pad(old(self).values(), final(self).graph().len(), None),
            final(self).graph() == with_afters(
                with_befores(
                    pad(old(self).graph(), final(self).graph().len(), Seq::empty()),
                    final(self).ids()[order.key_view()],
                    ids_of(final(self).ids(), order.befores_view()),
                ),
                final(self).ids()[order.key_view()],
                ids_of(final(self).ids(), order.afters_view()),
            ),
    {
        let key = order.key();
        let befores = order.befores();
        let afters = order.afters();
        let ghost m0 = self.ids();
        let ghost n0 = self.graph().len();
        let ghost g0 = self.graph();
        let ghost v0 = self.values();
        let ghost bs = befores@;
        let ghost afs = afters@;
        let ghost all = seq![key] + bs + afs;
        let k = self.get_or_add_key_to_id(key);
        proof {
            reveal_with_fuel(register_all, 2);
            assert(all.take(1).drop_last() =~= Seq::<&'a TKey>::empty());
            assert(all.take(1) =~= seq![key]);
            lemma_register_extends(m0, n0 as nat, key);
        }
        let mut i: usize = 0;
        while i < befores.len()
            invariant
                0 <= i <= bs.len(),
                bs == befores@,
                all == seq![key] + bs + afs,
                self.wf(),
                (self.ids(), self.graph().len()) == register_all(m0, n0 as nat, all.take(1 + i)),
                self.graph().len() <= n0 + 1 + i,
                n0 + 1 + bs.len() + afs.len() <= usize::MAX,
                g0.len() == n0,
                v0.len() == n0,
                self.ids().contains_key(key),
                k == self.ids()[key],
                forall|x: int| 0 <= x < i ==> self.ids().contains_key(#[trigger] bs[x]),
                self.graph() == with_befores(
                    pad(g0, self.graph().len() as nat, Seq::empty()),
                    k,
                    ids_of(self.ids(), bs.take(i as int)),
                ),
                self.values() == pad(v0, self.graph().len() as nat, None),
                obeys_key_model::<&'a TKey>(),
            decreases bs.len() - i,
        {
            let ghost m1 = self.ids();
            let ghost g1 = self.graph();
            let ghost n1 = self.graph().len();
            let id = self.get_or_add_key_to_id(befores[i]);
            proof {
                assert(all.take(1 + i + 1).drop_last() =~= all.take(1 + i));
                assert(all.take(1 + i + 1).last() == bs[i as int]);
                lemma_register_extends(m1, n1 as nat, bs[i as int]);
                assert(self.ids()[key] == k);
                assert(ids_of(self.ids(), bs.take(i as int)) =~= ids_of(m1, bs.take(i as int)));
                lemma_pad_with_befores(g0, n1 as nat, self.graph().len() as nat, k, ids_of(m1, bs.take(i as int)));
                assert(self.graph() =~= pad(g1, self.graph().len() as nat, Seq::empty()));
            }
            let ghost g2 = self.graph();
            self.sbo.add_order(id, k);
            proof {
                lemma_with_befores_push(
                    pad(g0, self.graph().len() as nat, Seq::empty()),
                    k,
                    ids_of(self.ids(), bs.take(i as int)),
                    id,
                );
                assert(ids_of(self.ids(), bs.take(i + 1)) =~= ids_of(self.ids(), bs.take(i as int)).push(id));
            }
            i = i + 1;
        }
        proof {
            assert(bs.take(bs.len() as int) =~= bs);
        }
        let ghost gb = with_befores(pad(g0, self.graph().len() as nat, Seq::empty()), k, ids_of(self.ids(), bs));
        let mut j: usize = 0;
        while j < afters.len()
            invariant
                0 <= j <= afs.len(),
                afs == afters@,
                all == seq![key] + bs + afs,
                self.wf(),
                (self.ids(), self.graph().len()) == register_all(m0, n0 as nat, all.take(1 + bs.len() + j as int)),
                self.graph().len() <= n0 + 1 + bs.len() + j,
                n0 + 1 + bs.len() + afs.len() <= usize::MAX,
                g0.len() == n0,
                v0.len() == n0,
                self.ids().contains_key(key),
                k == self.ids()[key],
                forall|x: int| 0 <= x < bs.len() ==> self.ids().contains_key(#[trigger] bs[x]),
                forall|x: int| 0 <= x < j ==> self.ids().contains_key(#[trigger] afs[x]),
                self.graph() == with_afters(
                    with_befores(pad(g0, self.graph().len() as nat, Seq::empty()), k, ids_of(self.ids(), bs)),
                    k,
                    ids_of(self.ids(), afs.take(j as int)),
                ),
                self.values() == pad(v0, self.graph().len() as nat, None),
                obeys_key_model::<&'a TKey>(),
            decreases afs.len() - j,
        {
            let ghost m1 = self.ids();
            let ghost g1 = self.graph();
            let ghost n1 = self.graph().len();
            let id = self.get_or_add_key_to_id(afters[j]);
            proof {
                assert(all.take(1 + bs.len() + j as int + 1).drop_last() =~= all.take(1 + bs.len() + j as int));
                assert(all.take(1 + bs.len() + j as int + 1).last() == afs[j as int]);
                lemma_register_extends(m1, n1 as nat, afs[j as int]);
                assert(self.ids()[key] == k);
                assert(ids_of(self.ids(), bs) =~= ids_of(m1, bs));
                assert(ids_of(self.ids(), afs.take(j as int)) =~= ids_of(m1, afs.take(j as int)));
                let hb = with_befores(pad(g0, n1 as nat, Seq::empty()), k, ids_of(m1, bs));
                assert forall|x: int| 0 <= x < ids_of(m1, afs.take(j as int)).len() implies #[trigger] ids_of(
                    m1,
                    afs.take(j as int),
                )[x] < hb.len() by {
                    assert(m1.contains_key(afs[x]));
                }
                lemma_pad_with_afters(hb, self.graph().len() as nat, k, ids_of(m1, afs.take(j as int)));
                lemma_pad_with_befores(g0, n1 as nat, self.graph().len() as nat, k, ids_of(m1, bs));
                assert(self.graph() =~= pad(g1, self.graph().len() as nat, Seq::empty()));
            }
            self.sbo.add_order(k, id);
            proof {
                let ys = ids_of(self.ids(), afs.take(j as int));
                let gb2 = with_befores(pad(g0, self.graph().len() as nat, Seq::empty()), k, ids_of(self.ids(), bs));
                assert(ids_of(self.ids(), afs.take(j + 1)) =~= ys.push(id));
                assert(ys.push(id).drop_last() =~= ys);
                let h = with_afters(gb2, k, ys);
                assert(h[id as int] + seq![k] =~= h[id as int].push(k));
            }
            j = j + 1;
        }
        proof {
            assert(afs.take(afs.len() as int) =~= afs);
            assert(all.take((1 + bs.len() + afs.len()) as int) =~= all);
        }
    }
}

} // verus!
