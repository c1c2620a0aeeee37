//! [SortByOrder]: items with "comes before" constraints, put in an order that meets them all.
use vstd::prelude::*;

verus! {

/// The "comes before" lists form no cycle: some ranking puts every item's predecessors strictly
/// below it.
pub open spec fn acyclic(g: Seq<Seq<usize>>) -> bool {
    exists|rank: Seq<int>| #[trigger] ranks_edges(g, rank)
}

/// `rank` puts every predecessor strictly below the item it precedes.
pub open spec fn ranks_edges(g: Seq<Seq<usize>>, rank: Seq<int>) -> bool {
    &&& rank.len() == g.len()
    &&& forall|b: int, k: int|
        0 <= b < g.len() && 0 <= k < g[b].len() ==> #[trigger] rank[g[b][k] as int] < rank[b]
}

/// Every predecessor names an item.
pub open spec fn edges_valid(g: Seq<Seq<usize>>) -> bool {
    forall|b: int, k: int| 0 <= b < g.len() && 0 <= k < g[b].len() ==> #[trigger] g[b][k] < g.len()
}

/// `res` lists every item exactly once, each after all of its predecessors.
pub open spec fn is_topological_order(res: Seq<usize>, g: Seq<Seq<usize>>) -> bool {
    &&& res.len() == g.len()
    &&& forall|i: int| 0 <= i < res.len() ==> #[trigger] res[i] < g.len()
    &&& forall|i: int, j: int| 0 <= i < j < res.len() ==> res[i] != res[j]
    &&& forall|i: int, j: int, k: int|
        0 <= i < res.len() && 0 <= j < res.len() && 0 <= k < g[res[i] as int].len() && g[res[i] as int][k]
            == res[j] ==> j < i
}

/// The depth-first visit of item `v`, appending to `res`: nothing if `res` holds `v` already (or
/// the depth `fuel` is used up), else the visits of `v`'s predecessors, in the order they were
/// added, then `v`.
pub open spec fn visit(g: Seq<Seq<usize>>, v: int, res: Seq<usize>, fuel: nat) -> Seq<usize>
    decreases fuel, 0int, 0int,
{
    if res.contains(v as usize) || fuel == 0 {
        res
    } else {
        visit_list(g, g[v], g[v].len() as int, res, (fuel - 1) as nat).push(v as usize)
    }
}

/// The visits of the first `m` items of `vs`, in order, appending to `res`.
pub open spec fn visit_list(g: Seq<Seq<usize>>, vs: Seq<usize>, m: int, res: Seq<usize>, fuel: nat) -> Seq<
    usize,
>
    decreases fuel, 1int, m,
{
    if m <= 0 {
        res
    } else {
        visit(g, vs[m - 1] as int, visit_list(g, vs, m - 1, res, fuel), fuel)
    }
}

/// The order of [SortByOrder::get_res] over the first `i` items: each item visited in turn by
/// number ([visit]), with as much depth as there are items.
pub open spec fn visit_order(g: Seq<Seq<usize>>, i: int) -> Seq<usize>
    decreases i,
{
    if i <= 0 {
        Seq::empty()
    } else {
        visit(g, i - 1, visit_order(g, i - 1), g.len())
    }
}

/// Where the search stands with an item.
enum NodeState {
    Unchecked,
    Checking,
    Checked,
}

/// Items `0..len`, each with the list of the items that must come before it.
pub struct SortByOrder {
    nodes: Vec<SortByOrderNode>,
    res: Vec<usize>,
    updated: bool,
}

/// The items that must come before one item.
struct SortByOrderNode {
    pub befores: Vec<usize>,
}

impl SortByOrderNode {
    fn new() -> (res: Self)
        ensures
            res.befores@ == Seq::<usize>::empty(),
    {
        SortByOrderNode { befores: Vec::new() }
    }
}

/// The number of items not yet visited.
spec fn count_unchecked(s: Seq<NodeState>) -> nat
    decreases s.len(),
{
    if s.len() == 0 {
        0
    } else {
        count_unchecked(s.drop_last()) + if s.last() is Unchecked {
            1nat
        } else {
            0nat
        }
    }
}

/// The number of items being visited.
spec fn count_checking(s: Seq<NodeState>) -> nat
    decreases s.len(),
{
    if s.len() == 0 {
        0
    } else {
        count_checking(s.drop_last()) + if s.last() is Checking {
            1nat
        } else {
            0nat
        }
    }
}

proof fn lemma_count_checking_update(s: Seq<NodeState>, i: int, x: NodeState)
    requires
        0 <= i < s.len(),
    ensures
        count_checking(s.update(i, x)) + (if s[i] is Checking {
            1int
        } else {
            0int
        }) == count_checking(s) + (if x is Checking {
            1int
        } else {
            0int
        }),
    decreases s.len(),
{
    if i < s.len() - 1 {
        assert(s.update(i, x).drop_last() =~= s.drop_last().update(i, x));
        lemma_count_checking_update(s.drop_last(), i, x);
    } else {
        assert(s.update(i, x).drop_last() =~= s.drop_last());
    }
}

/// Two states with the same items being visited count as many of them.
proof fn lemma_count_checking_same(s: Seq<NodeState>, t: Seq<NodeState>)
    requires
        s.len() == t.len(),
        forall|k: int| 0 <= k < s.len() ==> (#[trigger] s[k] is Checking <==> t[k] is Checking),
    ensures
        count_checking(s) == count_checking(t),
    decreases s.len(),
{
    if s.len() > 0 {
        assert forall|k: int| 0 <= k < s.drop_last().len() implies (#[trigger] s.drop_last()[k] is Checking
            <==> t.drop_last()[k] is Checking) by {
            assert(s.drop_last()[k] == s[k] && t.drop_last()[k] == t[k]);
        }
        lemma_count_checking_same(s.drop_last(), t.drop_last());
    }
}

/// Fewer items are being visited than there are, when one is not; none when none is.
proof fn lemma_count_checking_bound(s: Seq<NodeState>, i: int)
    requires
        0 <= i < s.len(),
        !(s[i] is Checking),
    ensures
        count_checking(s) < s.len(),
    decreases s.len(),
{
    lemma_count_checking_le(s);
    if i < s.len() - 1 {
        assert(s.drop_last()[i] == s[i]);
        lemma_count_checking_bound(s.drop_last(), i);
    } else {
        lemma_count_checking_le(s.drop_last());
    }
}

proof fn lemma_count_checking_le(s: Seq<NodeState>)
    ensures
        count_checking(s) <= s.len(),
        (forall|k: int| 0 <= k < s.len() ==> !(#[trigger] s[k] is Checking)) ==> count_checking(s) == 0,
    decreases s.len(),
{
    if s.len() > 0 {
        assert(forall|k: int| 0 <= k < s.drop_last().len() ==> #[trigger] s.drop_last()[k] == s[k]);
        lemma_count_checking_le(s.drop_last());
    }
}

/// The number of items finished.
spec fn count_checked(s: Seq<NodeState>) -> nat
    decreases s.len(),
{
    if s.len() == 0 {
        0
    } else {
        count_checked(s.drop_last()) + if s.last() is Checked {
            1nat
        } else {
            0nat
        }
    }
}

proof fn lemma_count_checked_update(s: Seq<NodeState>, i: int, x: NodeState)
    requires
        0 <= i < s.len(),
    ensures
        count_checked(s.update(i, x)) + (if s[i] is Checked {
            1int
        } else {
            0int
        }) == count_checked(s) + (if x is Checked {
            1int
        } else {
            0int
        }),
    decreases s.len(),
{
    if i < s.len() - 1 {
        assert(s.update(i, x).drop_last() =~= s.drop_last().update(i, x));
        lemma_count_checked_update(s.drop_last(), i, x);
    } else {
        assert(s.update(i, x).drop_last() =~= s.drop_last());
    }
}

/// With every item finished, the count is the number of items.
proof fn lemma_count_all_checked(s: Seq<NodeState>)
    requires
        forall|k: int| 0 <= k < s.len() ==> #[trigger] s[k] is Checked,
    ensures
        count_checked(s) == s.len(),
    decreases s.len(),
{
    if s.len() > 0 {
        assert(forall|k: int| 0 <= k < s.drop_last().len() ==> #[trigger] s.drop_last()[k] == s[k]);
        lemma_count_all_checked(s.drop_last());
    }
}

/// With nothing finished, the count is zero.
proof fn lemma_count_none_checked(s: Seq<NodeState>)
    requires
        forall|k: int| 0 <= k < s.len() ==> #[trigger] s[k] is Unchecked,
    ensures
        count_checked(s) == 0,
    decreases s.len(),
{
    if s.len() > 0 {
        assert(forall|k: int| 0 <= k < s.drop_last().len() ==> #[trigger] s.drop_last()[k] == s[k]);
        lemma_count_none_checked(s.drop_last());
    }
}

proof fn lemma_count_update(s: Seq<NodeState>, i: int, x: NodeState)
    requires
        0 <= i < s.len(),
    ensures
        count_unchecked(s.update(i, x)) + (if s[i] is Unchecked {
            1int
        } else {
            0int
        }) == count_unchecked(s) + (if x is Unchecked {
            1int
        } else {
            0int
        }),
    decreases s.len(),
{
    if i < s.len() - 1 {
        assert(s.update(i, x).drop_last() =~= s.drop_last().update(i, x));
        lemma_count_update(s.drop_last(), i, x);
    } else {
        assert(s.update(i, x).drop_last() =~= s.drop_last());
    }
}

/// The search state is consistent: `res` lists exactly the finished items, `pos` says where, and
/// every finished item comes after its finished predecessors.
spec fn dfs_inv(state: Seq<NodeState>, res: Seq<usize>, pos: Seq<int>, g: Seq<Seq<usize>>) -> bool {
    &&& state.len() == g.len()
    &&& res.len() == count_checked(state)
    &&& pos.len() == g.len()
    &&& forall|i: int| 0 <= i < res.len() ==> #[trigger] res[i] < g.len()
    &&& forall|i: int| 0 <= i < res.len() ==> #[trigger] state[res[i] as int] is Checked
    &&& forall|i: int| 0 <= i < res.len() ==> #[trigger] pos[res[i] as int] == i
    &&& forall|k: int| 0 <= k < g.len() && #[trigger] state[k] is Checked ==> 0 <= pos[k] < res.len()
    &&& forall|k: int| 0 <= k < g.len() && #[trigger] state[k] is Checked ==> res[pos[k]] == k
    &&& forall|b: int, k: int|
        #![trigger state[b], g[b][k]]
        0 <= b < g.len() && 0 <= k < g[b].len() && state[b] is Checked ==> state[g[b][k] as int] is Checked
    &&& forall|b: int, k: int|
        #![trigger state[b], g[b][k]]
        0 <= b < g.len() && 0 <= k < g[b].len() && state[b] is Checked ==> pos[g[b][k] as int] < pos[b]
}

/// The "comes before" lists of the nodes.
spec fn graph_of(nodes: Seq<SortByOrderNode>) -> Seq<Seq<usize>> {
    nodes.map_values(|n: SortByOrderNode| n.befores@)
}

/// Visits `id` after all of its predecessors, appending each finished item to `res`; gives up,
/// saying so, where a predecessor is still being visited (a cycle). With `ranked`, `rank` ranks
/// the constraints and it never gives up.
fn add_to_res(
    id: usize,
    state_list: &mut Vec<NodeState>,
    res_list: &mut Vec<usize>,
    nodes: &Vec<SortByOrderNode>,
    Ghost(ranked): Ghost<bool>,
    Ghost(rank): Ghost<Seq<int>>,
    Ghost(pos): Ghost<Seq<int>>,
) -> (out: (Ghost<Seq<int>>, bool))
    requires
        id < nodes@.len(),
        edges_valid(graph_of(nodes@)),
        ranked ==> ranks_edges(graph_of(nodes@), rank),
        dfs_inv(old(state_list)@, old(res_list)@, pos, graph_of(nodes@)),
        !(old(state_list)@[id as int] is Checking),
        ranked ==> forall|k: int|
            0 <= k < nodes@.len() && #[trigger] old(state_list)@[k] is Checking ==> rank[k] > rank[id as int],
    ensures
        ranked ==> out.1,
        out.1 ==> {
            &&& dfs_inv(final(state_list)@, final(res_list)@, out.0@, graph_of(nodes@))
            &&& final(state_list)@[id as int] is Checked
            &&& final(res_list)@.len() >= old(res_list)@.len()
            &&& forall|i: int|
                0 <= i < old(res_list)@.len() ==> #[trigger] final(res_list)@[i] == old(res_list)@[i]
            &&& forall|k: int|
                0 <= k < nodes@.len() ==> (#[trigger] final(state_list)@[k] is Checking <==> old(
                    state_list,
                )@[k] is Checking)
            &&& forall|k: int|
                0 <= k < nodes@.len() && #[trigger] final(state_list)@[k] is Unchecked ==> old(
                    state_list,
                )@[k] is Unchecked
            &&& count_unchecked(final(state_list)@) <= count_unchecked(old(state_list)@)
            &&& final(res_list)@ == visit(
                graph_of(nodes@),
                id as int,
                old(res_list)@,
                (nodes@.len() - count_checking(old(state_list)@)) as nat,
            )
        },
    decreases count_unchecked(old(state_list)@),
{
    let ghost g = graph_of(nodes@);
    match state_list[id] {
        NodeState::Checked => {
            proof {
                assert(res_list@[pos[id as int]] == id);
            }
            return (Ghost(pos), true);
        },
        NodeState::Checking => {
            return (Ghost(pos), false);
        },
        NodeState::Unchecked => {},
    }
    let ghost s0 = state_list@;
    let ghost r0 = res_list@;
    let ghost c0 = count_checking(s0);
    let ghost fuel = (nodes@.len() - c0) as nat;
    proof {
        lemma_count_update(state_list@, id as int, NodeState::Checking);
        lemma_count_checked_update(state_list@, id as int, NodeState::Checking);
        lemma_count_checking_update(state_list@, id as int, NodeState::Checking);
        lemma_count_checking_bound(s0, id as int);
        assert forall|i: int| 0 <= i < r0.len() implies r0[i] != id by {
            assert(s0[r0[i] as int] is Checked);
        }
        assert(!r0.contains(id));
    }
    state_list.set(id, NodeState::Checking);
    let ghost mut p = pos;
    let befores = &nodes[id].befores;
    let mut j: usize = 0;
    while j < befores.len()
        invariant
            id < nodes@.len(),
            g == graph_of(nodes@),
            befores@ == g[id as int],
            edges_valid(g),
            ranked ==> ranks_edges(g, rank),
            0 <= j <= befores@.len(),
            state_list@.len() == g.len(),
            state_list@[id as int] is Checking,
            dfs_inv(state_list@, res_list@, p, g),
            forall|k: int| 0 <= k < j ==> #[trigger] state_list@[befores@[k] as int] is Checked,
            forall|k: int|
                0 <= k < nodes@.len() && k != id ==> (#[trigger] state_list@[k] is Checking <==> s0[k] is Checking),
            ranked ==> forall|k: int|
                0 <= k < nodes@.len() && #[trigger] s0[k] is Checking ==> rank[k] > rank[id as int],
            forall|k: int| 0 <= k < nodes@.len() && #[trigger] state_list@[k] is Unchecked ==> s0[k] is Unchecked,
            res_list@.len() >= r0.len(),
            forall|i: int| 0 <= i < r0.len() ==> #[trigger] res_list@[i] == r0[i],
            count_unchecked(state_list@) + 1 <= count_unchecked(s0),
            s0 == old(state_list)@,
            r0 == old(res_list)@,
            c0 == count_checking(s0),
            fuel == nodes@.len() - c0,
            fuel >= 1,
            count_checking(state_list@) == c0 + 1,
            res_list@ == visit_list(g, g[id as int], j as int, r0, (fuel - 1) as nat),
        decreases befores@.len() - j,
    {
        let child = befores[j];
        proof {
            if ranked {
                assert(rank[child as int] < rank[id as int]);
            }
        }
        match state_list[child] {
            NodeState::Checking => {
                return (Ghost(p), false);
            },
            _ => {},
        }
        let ghost sb = state_list@;
        let ghost rb = res_list@;
        let (np, ok) = add_to_res(child, state_list, res_list, nodes, Ghost(ranked), Ghost(rank), Ghost(p));
        if !ok {
            return (Ghost(p), false);
        }
        proof {
            p = np@;
            lemma_count_checking_same(state_list@, sb);
        }
        j = j + 1;
    }
    let ghost sl = state_list@;
    let ghost rl = res_list@;
    let ghost pl = p;
    proof {
        p = p.update(id as int, res_list@.len() as int);
        lemma_count_update(state_list@, id as int, NodeState::Checked);
        lemma_count_checked_update(state_list@, id as int, NodeState::Checked);
    }
    res_list.push(id);
    state_list.set(id, NodeState::Checked);
    proof {
        assert(rl == visit_list(g, g[id as int], g[id as int].len() as int, r0, (fuel - 1) as nat));
        assert(res_list@ == visit(g, id as int, r0, fuel));
        let st = state_list@;
        let rs = res_list@;
        assert forall|i: int| 0 <= i < rs.len() implies #[trigger] st[rs[i] as int] is Checked
            && p[rs[i] as int] == i by {
            if i < rl.len() {
                assert(sl[rl[i] as int] is Checked);
                assert(pl[rl[i] as int] == i);
            }
        }
        assert forall|k: int| 0 <= k < g.len() && #[trigger] st[k] is Checked implies 0 <= p[k]
            < rs.len() && rs[p[k]] == k by {
            if k != id {
                assert(sl[k] is Checked);
            }
        }
        assert forall|b: int, k: int|
            #![trigger st[b], g[b][k]]
            0 <= b < g.len() && 0 <= k < g[b].len() && st[b] is Checked implies st[g[b][k] as int] is Checked
                && p[g[b][k] as int] < p[b] by {
            if b == id {
                assert(g[b][k] == befores@[k]);
                assert(sl[befores@[k] as int] is Checked);
            } else {
                assert(sl[b] is Checked);
                assert(sl[g[b][k] as int] is Checked);
            }
        }
    }
    (Ghost(p), true)
}


/// The graph after appending `bs` to the predecessors of `k`.
pub open spec fn with_befores(g: Seq<Seq<usize>>, k: usize, bs: Seq<usize>) -> Seq<Seq<usize>> {
    if bs.len() == 0 {
        g
    } else {
        g.update(k as int, g[k as int] + bs)
    }
}

/// The graph after making `k` a predecessor of each of `afters`, in turn.
pub open spec fn with_afters(g: Seq<Seq<usize>>, k: usize, afters: Seq<usize>) -> Seq<Seq<usize>>
    decreases afters.len(),
{
    if afters.len() == 0 {
        g
    } else {
        let g1 = with_afters(g, k, afters.drop_last());
        g1.update(afters.last() as int, g1[afters.last() as int].push(k))
    }
}

proof fn lemma_with_afters_len(g: Seq<Seq<usize>>, k: usize, afters: Seq<usize>)
    requires
        forall|i: int| 0 <= i < afters.len() ==> #[trigger] afters[i] < g.len(),
    ensures
        with_afters(g, k, afters).len() == g.len(),
    decreases afters.len(),
{
    if afters.len() > 0 {
        lemma_with_afters_len(g, k, afters.drop_last());
    }
}

impl SortByOrder {
    /// For each item, the items that must come before it.
    pub closed spec fn graph(&self) -> Seq<Seq<usize>> {
        graph_of(self.nodes@)
    }

    /// The order last computed.
    pub closed spec fn result(&self) -> Seq<usize> {
        self.res@
    }

    /// Whether the order computed is up to date.
    pub closed spec fn is_updated(&self) -> bool {
        self.updated
    }

    /// An order marked up to date meets every constraint and is the visiting order.
    pub closed spec fn wf(&self) -> bool {
        &&& self.updated ==> is_topological_order(self.res@, graph_of(self.nodes@))
        &&& self.updated ==> self.res@ == visit_order(graph_of(self.nodes@), self.nodes@.len() as int)
    }

    /// No items.
    pub fn new() -> (res: Self)
        ensures
            res.wf(),
            res.graph() == Seq::<Seq<usize>>::empty(),
            res.result() == Seq::<usize>::empty(),
            !res.is_updated(),
    {
        let res = SortByOrder { nodes: Vec::new(), res: Vec::new(), updated: false };
        assert(res.graph() =~= Seq::<Seq<usize>>::empty());
        res
    }

    /// Adds an item with no constraints; returns its number, the number of items before.
    pub fn add_item(&mut self) -> (id: usize)
        requires
            old(self).graph().len() < usize::MAX,
        ensures
            final(self).wf(),
            id == old(self).graph().len(),
            final(self).graph() == old(self).graph().push(Seq::<usize>::empty()),
            !final(self).is_updated(),
    {
        let id = self.nodes.len();
        self.nodes.push(SortByOrderNode::new());
        self.updated = false;
        assert(self.graph() =~= old(self).graph().push(Seq::<usize>::empty()));
        id
    }

    /// Requires `a` to come before `b`.
    pub fn add_order(&mut self, a: usize, b: usize)
        requires
            b < old(self).graph().len(),
        ensures
            final(self).wf(),
            final(self).graph() == with_befores(old(self).graph(), b, seq![a]),
            !final(self).is_updated(),
    {
        let ghost g0 = self.graph();
        let ghost n0 = self.nodes@;
        self.nodes[b].befores.push(a);
        self.updated = false;
        assert(self.nodes@.len() == n0.len());
        assert(forall|j: int| 0 <= j < n0.len() && j != b ==> self.nodes@[j] == n0[j]);
        assert(self.nodes@[b as int].befores@ == n0[b as int].befores@.push(a));
        assert(g0[b as int] + seq![a] =~= g0[b as int].push(a));
        assert forall|j: int| 0 <= j < n0.len() implies #[trigger] self.graph()[j] == with_befores(
            g0,
            b,
            seq![a],
        )[j] by {
            if j != b {
                assert(self.nodes@[j] == n0[j]);
            }
        }
        assert(self.graph() =~= with_befores(g0, b, seq![a]));
    }

    /// [Self::get_res] for constraints that may form a cycle: `None`, with nothing changed,
    /// exactly when they do; otherwise the order, computed afresh.
    pub fn try_get_res(&mut self) -> (res: Option<&[usize]>)
        requires
            old(self).wf(),
            edges_valid(old(self).graph()),
        ensures
            res is Some <==> acyclic(old(self).graph()),
            res is None ==> *final(self) == *old(self),
            final(self).wf(),
            final(self).graph() == old(self).graph(),
            res matches Some(r) ==> {
                &&& final(self).is_updated()
                &&& r@ == final(self).result()
                &&& is_topological_order(r@, final(self).graph())
                &&& r@ == visit_order(final(self).graph(), final(self).graph().len() as int)
            },
    {
        let ghost g = self.graph();
        let ghost ranked = acyclic(g);
        let ghost rank = choose|rank: Seq<int>| ranks_edges(g, rank);
        let n = self.nodes.len();
        let mut state_list: Vec<NodeState> = Vec::new();
        let mut k: usize = 0;
        while k < n
            invariant
                0 <= k <= n,
                n == self.nodes@.len(),
                state_list@.len() == k,
                forall|j: int| 0 <= j < k ==> #[trigger] state_list@[j] is Unchecked,
            decreases n - k,
        {
            state_list.push(NodeState::Unchecked);
            k = k + 1;
        }
        let mut res_list: Vec<usize> = Vec::new();
        let ghost mut pos: Seq<int> = Seq::new(n as nat, |i: int| 0int);
        proof {
            lemma_count_none_checked(state_list@);
        }
        let mut i: usize = 0;
        while i < n
            invariant
                0 <= i <= n,
                n == self.nodes@.len(),
                g == graph_of(self.nodes@),
                *self == *old(self),
                self.wf(),
                edges_valid(g),
                ranked == acyclic(g),
                ranked ==> ranks_edges(g, rank),
                dfs_inv(state_list@, res_list@, pos, g),
                forall|j: int| 0 <= j < n ==> !(#[trigger] state_list@[j] is Checking),
                forall|j: int| 0 <= j < i ==> #[trigger] state_list@[j] is Checked,
                res_list@ == visit_order(g, i as int),
            decreases n - i,
        {
            proof {
                lemma_count_checking_le(state_list@);
            }
            let (np, ok) = add_to_res(
                i,
                &mut state_list,
                &mut res_list,
                &self.nodes,
                Ghost(ranked),
                Ghost(rank),
                Ghost(pos),
            );
            if !ok {
                return None;
            }
            proof {
                pos = np@;
            }
            i = i + 1;
        }
        proof {
            lemma_count_all_checked(state_list@);
            let r = res_list@;
            assert forall|a: int, b: int| 0 <= a < b < r.len() implies r[a] != r[b] by {
                assert(pos[r[a] as int] == a);
                assert(pos[r[b] as int] == b);
            }
            assert forall|a: int, b: int, c: int|
                0 <= a < r.len() && 0 <= b < r.len() && 0 <= c < g[r[a] as int].len()
                    && g[r[a] as int][c] == r[b] implies b < a by {
                assert(state_list@[r[a] as int] is Checked);
                assert(pos[g[r[a] as int][c] as int] < pos[r[a] as int]);
                assert(pos[r[b] as int] == b);
                assert(pos[r[a] as int] == a);
            }
            assert forall|b: int, c: int| 0 <= b < g.len() && 0 <= c < g[b].len() implies #[trigger] pos[
                g[b][c] as int] < pos[b] by {
                assert(state_list@[b] is Checked);
            }
            assert(ranks_edges(g, pos));
        }
        self.res = res_list;
        self.updated = true;
        Some(self.res.as_slice())
    }

    /// Puts the items in an order in which every item comes after all the items required before
    /// it: the items are visited by number, each after its predecessors in the order they were
    /// added ([visit_order]). The constraints must name items only and must not form a cycle.
    pub fn get_res(&mut self) -> (res: &[usize])
        requires
            old(self).wf(),
            edges_valid(old(self).graph()),
            acyclic(old(self).graph()),
        ensures
            final(self).wf(),
            final(self).is_updated(),
            final(self).graph() == old(self).graph(),
            res@ == final(self).result(),
            is_topological_order(res@, final(self).graph()),
            res@ == visit_order(final(self).graph(), final(self).graph().len() as int),
            old(self).is_updated() ==> res@ == old(self).result(),
    {
        if !self.updated {
            let ghost g = self.graph();
            let ghost rank = choose|rank: Seq<int>| ranks_edges(g, rank);
            let n = self.nodes.len();
            let mut state_list: Vec<NodeState> = Vec::new();
            let mut k: usize = 0;
            while k < n
                invariant
                    0 <= k <= n,
                    n == self.nodes@.len(),
                    state_list@.len() == k,
                    forall|j: int| 0 <= j < k ==> #[trigger] state_list@[j] is Unchecked,
                decreases n - k,
            {
                state_list.push(NodeState::Unchecked);
                k = k + 1;
            }
            let mut res_list: Vec<usize> = Vec::new();
            let ghost mut pos: Seq<int> = Seq::new(n as nat, |i: int| 0int);
            proof {
                lemma_count_none_checked(state_list@);
            }
            let mut i: usize = 0;
            while i < n
                invariant
                    0 <= i <= n,
                    n == self.nodes@.len(),
                    g == graph_of(self.nodes@),
                    edges_valid(g),
                    ranks_edges(g, rank),
                    dfs_inv(state_list@, res_list@, pos, g),
                    forall|j: int| 0 <= j < n ==> !(#[trigger] state_list@[j] is Checking),
                    forall|j: int| 0 <= j < i ==> #[trigger] state_list@[j] is Checked,
                    res_list@ == visit_order(g, i as int),
                decreases n - i,
            {
                proof {
                    lemma_count_checking_le(state_list@);
                }
                let (np, ok) = add_to_res(
                    i,
                    &mut state_list,
                    &mut res_list,
                    &self.nodes,
                    Ghost(true),
                    Ghost(rank),
                    Ghost(pos),
                );
                proof {
                    assert(ok);
                    pos = np@;
                }
                i = i + 1;
            }
            proof {
                lemma_count_all_checked(state_list@);
                let r = res_list@;
                assert forall|a: int, b: int| 0 <= a < b < r.len() implies r[a] != r[b] by {
                    assert(pos[r[a] as int] == a);
                    assert(pos[r[b] as int] == b);
                }
                assert forall|a: int, b: int, c: int|
                    0 <= a < r.len() && 0 <= b < r.len() && 0 <= c < g[r[a] as int].len()
                        && g[r[a] as int][c] == r[b] implies b < a by {
                    assert(state_list@[r[a] as int] is Checked);
                    assert(pos[g[r[a] as int][c] as int] < pos[r[a] as int]);
                    assert(pos[r[b] as int] == b);
                    assert(pos[r[a] as int] == a);
                }
            }
            self.res = res_list;
            self.updated = true;
        }
        self.res.as_slice()
    }
}


/// An item together with the items that must come before it and those that must come after it.
pub trait Order<'a, K> {
    /// The item.
    spec fn key_view(&self) -> &'a K;

    /// The items that must come before it.
    spec fn befores_view(&self) -> Seq<&'a K>;

    /// The items that must come after it.
    spec fn afters_view(&self) -> Seq<&'a K>;

    /// The item.
    fn key(&self) -> (res: &'a K)
        ensures
            res == self.key_view(),
    ;

    /// The items that must come before it.
    fn befores(&self) -> (res: Vec<&'a K>)
        ensures
            res@ == self.befores_view(),
    ;

    /// The items that must come after it.
    fn afters(&self) -> (res: Vec<&'a K>)
        ensures
            res@ == self.afters_view(),
    ;
}

/// An [Order] given by lists, either of which may be absent.
pub struct OrderSymVal<'a, K> {
    pub key: &'a K,
    pub befores: Option<Vec<&'a K>>,
    pub afters: Option<Vec<&'a K>>,
}

/// The items of an optional list, none if it is absent.
pub open spec fn listed<T>(v: Option<Vec<T>>) -> Seq<T> {
    match v {
        Some(v) => v@,
        None => Seq::empty(),
    }
}

/// A copy of the references in `v`.
fn copy_refs<'a, K>(v: &Option<Vec<&'a K>>) -> (res: Vec<&'a K>)
    ensures
        res@ == listed(*v),
{
    let mut res: Vec<&'a K> = Vec::new();
    match v {
        Some(items) => {
            let mut i: usize = 0;
            while i < items.len()
                invariant
                    0 <= i <= items@.len(),
                    res@ == items@.take(i as int),
                decreases items@.len() - i,
            {
                res.push(items[i]);
                i = i + 1;
                assert(res@ =~= items@.take(i as int));
            }
            assert(items@.take(items@.len() as int) =~= items@);
        },
        None => {},
    }
    res
}

impl<'a, K> Order<'a, K> for OrderSymVal<'a, K> {
    open spec fn key_view(&self) -> &'a K {
        self.key
    }

    open spec fn befores_view(&self) -> Seq<&'a K> {
        listed(self.befores)
    }

    open spec fn afters_view(&self) -> Seq<&'a K> {
        listed(self.afters)
    }

    fn key(&self) -> (res: &'a K) {
        self.key
    }

    fn befores(&self) -> (res: Vec<&'a K>) {
        copy_refs(&self.befores)
    }

    fn afters(&self) -> (res: Vec<&'a K>) {
        copy_refs(&self.afters)
    }
}

/// The values behind a sequence of references.
pub open spec fn derefs<T>(s: Seq<&T>) -> Seq<T> {
    s.map_values(|r: &T| *r)
}

impl SortByOrder {
    /// Adds the constraints of `order`: each of its befores before its key, then its key before
    /// each of its afters.
    pub fn add_orders<'a, O: Order<'a, usize>>(&mut self, order: &O)
        requires
            old(self).wf(),
            order.befores_view().len() > 0 ==> *order.key_view() < old(self).graph().len(),
            forall|i: int|
                0 <= i < order.afters_view().len() ==> *#[trigger] order.afters_view()[i] < old(
                    self,
                ).graph().len(),
        ensures
            final(self).wf(),
            final(self).graph() == with_afters(
                with_befores(old(self).graph(), *order.key_view(), derefs(order.befores_view())),
                *order.key_view(),
                derefs(order.afters_view()),
            ),
    {
        let k: usize = *order.key();
        let befores = order.befores();
        let afters = order.afters();
        let ghost g0 = self.graph();
        let ghost bs = derefs(befores@);
        let ghost afs = derefs(afters@);
        let mut i: usize = 0;
        while i < befores.len()
            invariant
                0 <= i <= befores@.len(),
                bs == derefs(befores@),
                befores@.len() > 0 ==> k < g0.len(),
                self.graph() == with_befores(g0, k, bs.take(i as int)),
                self.wf(),
            decreases befores@.len() - i,
        {
            let ghost gb = self.graph();
            self.add_order(*befores[i], k);
            proof {
                let x = *befores@[i as int];
                assert(bs[i as int] == x);
                assert(bs.take(i + 1) =~= bs.take(i as int).push(x));
                if i == 0 {
                    assert(bs.take(0) =~= Seq::<usize>::empty());
                    assert(gb == g0);
                    assert(g0[k as int] + bs.take(1) =~= g0[k as int] + seq![x]);
                } else {
                    assert(gb[k as int] == g0[k as int] + bs.take(i as int));
                    assert(gb[k as int] + seq![x] =~= g0[k as int] + bs.take(i + 1));
                }
                assert(self.graph() =~= with_befores(g0, k, bs.take(i + 1)));
            }
            i = i + 1;
        }
        proof {
            assert(bs.take(befores@.len() as int) =~= bs);
        }
        let ghost g1 = self.graph();
        let mut j: usize = 0;
        while j < afters.len()
            invariant
                0 <= j <= afters@.len(),
                afs == derefs(afters@),
                forall|x: int| 0 <= x < afs.len() ==> #[trigger] afs[x] < g0.len(),
                g1.len() == g0.len(),
                self.graph() == with_afters(g1, k, afs.take(j as int)),
                self.wf(),
            decreases afters@.len() - j,
        {
            proof {
                lemma_with_afters_len(g1, k, afs.take(j as int));
                assert(afs[j as int] == *afters@[j as int]);
            }
            self.add_order(k, *afters[j]);
            proof {
                assert(afs.take(j + 1).drop_last() =~= afs.take(j as int));
                let gj = with_afters(g1, k, afs.take(j as int));
                assert(gj[afs[j as int] as int] + seq![k] =~= gj[afs[j as int] as int].push(k));
            }
            j = j + 1;
        }
        proof {
            assert(afs.take(afters@.len() as int) =~= afs);
        }
    }
}

} // verus!
