use vstd::prelude::*;
use super::processor::{
    find_remove, is_permutation, lemma_covering_has_len,
};

verus! {

broadcast use vstd::seq_lib::group_to_multiset_ensures;

/// Every edge target names a node.
pub open spec fn valid_adjacency(adj: Seq<Seq<usize>>) -> bool {
    forall|u: int, e: int|
        0 <= u < adj.len() && 0 <= e < adj[u].len() ==> (#[trigger] adj[u][e]) < adj.len()
}

/// `rank` grows strictly along every edge.
pub open spec fn is_ranking(adj: Seq<Seq<usize>>, rank: Seq<nat>) -> bool {
    &&& rank.len() == adj.len()
    &&& forall|u: int, e: int|
        0 <= u < adj.len() && 0 <= e < adj[u].len() ==> rank[u] < rank[(#[trigger] adj[u][e]) as int]
}

/// The graph has no cycle: some ranking of its nodes grows along every edge.
pub open spec fn is_acyclic(adj: Seq<Seq<usize>>) -> bool {
    exists|rank: Seq<nat>| is_ranking(adj, rank)
}

/// `order` lists every node once, and every edge leads from an earlier entry
/// to a later one.
pub open spec fn is_topological_order(adj: Seq<Seq<usize>>, order: Seq<usize>) -> bool {
    &&& is_permutation(order, adj.len())
    &&& forall|a: int, b: int, e: int|
        #![trigger adj[order[a] as int][e], order[b]]
        0 <= a < order.len() && 0 <= b < order.len() && 0 <= e < adj[order[a] as int].len()
            && adj[order[a] as int][e] == order[b] ==> a < b
}

/// Total number of entries over all lists `s[0..k]`.
pub open spec fn total_len(s: Seq<Seq<usize>>, k: int) -> nat
    decreases k,
{
    if k <= 0 {
        0
    } else {
        total_len(s, k - 1) + s[k - 1].len()
    }
}

proof fn lemma_total_len_update(s: Seq<Seq<usize>>, k: int, t: int, x: Seq<usize>)
    requires
        0 <= t < s.len(),
        0 <= k <= s.len(),
    ensures
        t < k ==> total_len(s.update(t, x), k) + s[t].len() == total_len(s, k) + x.len(),
        t >= k ==> total_len(s.update(t, x), k) == total_len(s, k),
    decreases k,
{
    if k > 0 {
        lemma_total_len_update(s, k - 1, t, x);
    }
}

/// The contents of each list.
pub open spec fn views(s: Seq<Vec<usize>>) -> Seq<Seq<usize>> {
    Seq::new(s.len(), |i: int| s[i]@)
}

/// In the state that Kahn's algorithm reaches once no node is left to take, a
/// node of an acyclic graph that was never emitted has a predecessor of lower
/// rank that was never emitted either, which cannot go on forever.
proof fn lemma_stuck_node_emitted(
    adj: Seq<Seq<usize>>,
    rank: Seq<nat>,
    rem: Seq<Seq<usize>>,
    incoming: Seq<Seq<usize>>,
    out: Seq<usize>,
    v: int,
)
    requires
        is_ranking(adj, rank),
        adj.len() <= usize::MAX,
        0 <= v < adj.len(),
        rem.len() == adj.len(),
        incoming.len() == adj.len(),
        forall|u: int|
            0 <= u < adj.len() ==> #[trigger] rem[u] == if out.contains(u as usize) {
                Seq::<usize>::empty()
            } else {
                adj[u]
            },
        forall|w: int, u: int|
            0 <= w < adj.len() && 0 <= u < adj.len() ==> (#[trigger] incoming[w].to_multiset().count(
                u as usize,
            )) == rem[u].to_multiset().count(w as usize),
        forall|w: int, x: int|
            0 <= w < adj.len() && 0 <= x < incoming[w].len() ==> (#[trigger] incoming[w][x])
                < adj.len(),
        forall|w: int| 0 <= w < adj.len() && incoming[w].len() == 0 ==> out.contains(w as usize),
    ensures
        out.contains(v as usize),
    decreases rank[v],
{
    if !out.contains(v as usize) {
        let u = incoming[v][0] as int;
        assert(incoming[v].contains(u as usize));
        assert(incoming[v].to_multiset().count(u as usize) > 0);
        assert(rem[u].to_multiset().count(v as usize) > 0);
        assert(rem[u].contains(v as usize));
        let e = choose|e: int| 0 <= e < rem[u].len() && rem[u][e] == v as usize;
        assert(adj[u][e] == v);
        lemma_stuck_node_emitted(adj, rank, rem, incoming, out, u);
    }
}

/// Number of edges of `adj[0..m]` that lead to `w`.
pub open spec fn in_degree(adj: Seq<Seq<usize>>, w: usize, m: int) -> nat
    decreases m,
{
    if m <= 0 {
        0
    } else {
        in_degree(adj, w, m - 1) + adj[m - 1].to_multiset().count(w)
    }
}

/// Number of entries of `s` that are below `m`, counted value by value.
pub open spec fn count_below(s: Seq<usize>, m: int) -> nat
    decreases m,
{
    if m <= 0 {
        0
    } else {
        count_below(s, m - 1) + s.to_multiset().count((m - 1) as usize)
    }
}

/// A state of Kahn's algorithm: the stack of nodes ready to be emitted, the
/// nodes emitted so far, and for each node the number of its incoming edges
/// not yet consumed.
pub type KahnState = (Seq<usize>, Seq<usize>, Seq<int>);

/// The nodes among `0..m` with no pending edge, in increasing order.
pub open spec fn ready_nodes(pending: Seq<int>, m: int) -> Seq<usize>
    decreases m,
{
    if m <= 0 {
        Seq::empty()
    } else {
        let r = ready_nodes(pending, m - 1);
        if pending[m - 1] == 0 {
            r.push((m - 1) as usize)
        } else {
            r
        }
    }
}

/// The state before any node is emitted.
pub open spec fn kahn_start(adj: Seq<Seq<usize>>) -> KahnState {
    let pending = Seq::new(adj.len(), |w: int| in_degree(adj, w as usize, adj.len() as int) as int);
    (ready_nodes(pending, adj.len() as int), Seq::empty(), pending)
}

/// Consumes one edge into `w`; `w` is pushed on the stack when none is left.
pub open spec fn consume_edge(s: KahnState, w: usize) -> KahnState {
    let p = s.2[w as int] - 1;
    (if p == 0 {
        s.0.push(w)
    } else {
        s.0
    }, s.1, s.2.update(w as int, p))
}

/// Consumes the edges of `v`, from its last one down to the one at `k`.
pub open spec fn consume_edges(adj: Seq<Seq<usize>>, v: usize, k: int, s: KahnState) -> KahnState
    decreases adj[v as int].len() - k,
{
    if k < 0 || k >= adj[v as int].len() {
        s
    } else {
        consume_edge(consume_edges(adj, v, k + 1, s), adj[v as int][k])
    }
}

/// Emits the node on top of the stack and consumes its edges.
pub open spec fn kahn_step(adj: Seq<Seq<usize>>, s: KahnState) -> KahnState {
    if s.0.len() == 0 {
        s
    } else {
        let v = s.0.last();
        consume_edges(adj, v, 0, (s.0.drop_last(), s.1.push(v), s.2))
    }
}

/// The state after `steps` steps, or once the stack is empty.
pub open spec fn kahn_run(adj: Seq<Seq<usize>>, s: KahnState, steps: nat) -> KahnState
    decreases steps,
{
    if steps == 0 || s.0.len() == 0 {
        s
    } else {
        kahn_run(adj, kahn_step(adj, s), (steps - 1) as nat)
    }
}

/// The order in which Kahn's algorithm emits the nodes of `adj`, taking the
/// most recently readied node first; it lists every node exactly when the
/// graph has no cycle.
pub open spec fn kahn_order(adj: Seq<Seq<usize>>) -> Seq<usize> {
    kahn_run(adj, kahn_start(adj), adj.len()).1
}

proof fn lemma_kahn_run_next(adj: Seq<Seq<usize>>, s: KahnState, i: nat)
    ensures
        kahn_run(adj, s, i + 1) == kahn_step(adj, kahn_run(adj, s, i)),
    decreases i,
{
    if s.0.len() == 0 {
        assert(kahn_run(adj, s, i + 1) == s);
        assert(kahn_run(adj, s, i) == s);
    } else if i == 0 {
        assert(kahn_run(adj, s, 1) == kahn_run(adj, kahn_step(adj, s), 0));
    } else {
        lemma_kahn_run_next(adj, kahn_step(adj, s), (i - 1) as nat);
        assert(kahn_run(adj, s, i) == kahn_run(adj, kahn_step(adj, s), (i - 1) as nat));
        assert(kahn_run(adj, s, i + 1) == kahn_run(adj, kahn_step(adj, s), i));
    }
}

proof fn lemma_kahn_run_stopped(adj: Seq<Seq<usize>>, s: KahnState, i: nat, j: nat)
    requires
        i <= j,
        kahn_run(adj, s, i).0.len() == 0,
    ensures
        kahn_run(adj, s, j) == kahn_run(adj, s, i),
    decreases j - i,
{
    if i < j {
        lemma_kahn_run_stopped(adj, s, i, (j - 1) as nat);
        lemma_kahn_run_next(adj, s, (j - 1) as nat);
    }
}

/// A list of nodes below `m` has as many entries as it counts value by value.
proof fn lemma_count_below_len(s: Seq<usize>, m: int)
    requires
        0 <= m <= usize::MAX,
        forall|x: int| 0 <= x < s.len() ==> (#[trigger] s[x]) < m,
    ensures
        count_below(s, m) == s.len(),
    decreases s.len(),
{
    if s.len() == 0 {
        lemma_count_below_empty(s, m);
    } else {
        let t = s.drop_last();
        assert(s == t.push(s.last()));
        lemma_count_below_len(t, m);
        lemma_count_below_push(t, s.last(), m);
    }
}

proof fn lemma_count_below_empty(s: Seq<usize>, m: int)
    requires
        s.len() == 0,
    ensures
        count_below(s, m) == 0,
    decreases m,
{
    if m > 0 {
        lemma_count_below_empty(s, m - 1);
    }
}

proof fn lemma_count_below_push(s: Seq<usize>, x: usize, m: int)
    requires
        m <= usize::MAX,
    ensures
        count_below(s.push(x), m) == count_below(s, m) + if 0 <= x < m { 1nat } else { 0nat },
    decreases m,
{
    if m > 0 {
        lemma_count_below_push(s, x, m - 1);
        assert(s.push(x).to_multiset() == s.to_multiset().insert(x));
        let u = (m - 1) as usize;
        if u == x {
            assert(s.push(x).to_multiset().count(u) == s.to_multiset().count(u) + 1);
        } else {
            assert(s.push(x).to_multiset().count(u) == s.to_multiset().count(u));
        }
    }
}

/// The number of entries of each list.
pub open spec fn pending_of(s: Seq<Vec<usize>>) -> Seq<int> {
    Seq::new(s.len(), |w: int| s[w]@.len() as int)
}

/// A list that holds each `u` as often as `adj[u]` holds `w` counts the
/// edges into `w`.
proof fn lemma_count_below_in_degree(s: Seq<usize>, adj: Seq<Seq<usize>>, w: usize, m: int)
    requires
        m <= adj.len(),
        forall|u: int| 0 <= u < m ==> #[trigger] s.to_multiset().count(u as usize) == adj[u].to_multiset().count(w),
    ensures
        count_below(s, m) == in_degree(adj, w, m),
    decreases m,
{
    if m > 0 {
        lemma_count_below_in_degree(s, adj, w, m - 1);
        assert(s.to_multiset().count((m - 1) as usize) == adj[m - 1].to_multiset().count(w));
    }
}

/// A list of distinct nodes below `n` has at most `n` entries.
proof fn lemma_distinct_below_len(s: Seq<usize>, n: usize)
    requires
        s.no_duplicates(),
        forall|i: int| 0 <= i < s.len() ==> #[trigger] s[i] < n,
    ensures
        s.len() <= n,
{
    broadcast use vstd::set_lib::range_set_properties;
    s.unique_seq_to_set();
    let r = Set::<usize>::range(0, n);
    assert(s.to_set().subset_of(r));
    vstd::set_lib::lemma_len_subset(s.to_set(), r);
}

/// Orders the nodes of the graph `nodes` (node `u` has an edge to each entry of
/// `nodes[u]`) with Kahn's algorithm: nodes whose predecessors have all been
/// emitted wait on a stack, and the one pushed last is emitted first. `None`
/// when the graph has a cycle.
pub fn topological_sort(nodes: &Vec<Vec<usize>>) -> (r: Option<Vec<usize>>)
    requires
        valid_adjacency(nodes.deep_view()),
    ensures
        match r {
            Some(order) => {
                &&& order@ == kahn_order(nodes.deep_view())
                &&& is_topological_order(nodes.deep_view(), order@)
            },
            None => {
                &&& kahn_order(nodes.deep_view()).len() < nodes@.len()
                &&& !is_acyclic(nodes.deep_view())
            },
        },
{
    let ghost adj = nodes.deep_view();
    let n = nodes.len();

    let mut incoming_edges: Vec<Vec<usize>> = Vec::new();
    let mut v: usize = 0;
    while v < n
        invariant
            0 <= v <= n,
            incoming_edges@.len() == v,
            forall|w: int| 0 <= w < v ==> (#[trigger] incoming_edges@[w])@.len() == 0,
        decreases n - v,
    {
        incoming_edges.push(Vec::new());
        v = v + 1;
    }

    let mut node: usize = 0;
    while node < n
        invariant
            n == adj.len(),
            adj == nodes.deep_view(),
            valid_adjacency(adj),
            0 <= node <= n,
            incoming_edges@.len() == n,
            forall|w: int, x: int|
                0 <= w < n && 0 <= x < incoming_edges@[w]@.len() ==> (#[trigger] incoming_edges@[w]@[x])
                    < n,
            forall|w: int, u: int|
                0 <= w < n && 0 <= u < n ==> (#[trigger] incoming_edges@[w]@.to_multiset().count(
                    u as usize,
                )) == if u < node {
                    adj[u].to_multiset().count(w as usize)
                } else {
                    0
                },
        decreases n - node,
    {
        let len = nodes[node].len();
        let mut e: usize = 0;
        while e < len
            invariant
                n == adj.len(),
                adj == nodes.deep_view(),
                valid_adjacency(adj),
                0 <= node < n,
                len == adj[node as int].len(),
                0 <= e <= len,
                incoming_edges@.len() == n,
                forall|w: int, x: int|
                    0 <= w < n && 0 <= x < incoming_edges@[w]@.len() ==> (#[trigger] incoming_edges@[w]@[x])
                        < n,
                forall|w: int, u: int|
                    0 <= w < n && 0 <= u < n ==> (#[trigger] incoming_edges@[w]@.to_multiset().count(
                        u as usize,
                    )) == if u < node {
                        adj[u].to_multiset().count(w as usize)
                    } else if u == node {
                        adj[u].take(e as int).to_multiset().count(w as usize)
                    } else {
                        0
                    },
            decreases len - e,
        {
            let target = nodes[node][e];
            proof {
                assert(adj[node as int].take(e + 1) == adj[node as int].take(e as int).push(target));
                assert(adj[node as int][e as int] == target);
            }
            incoming_edges[target].push(node);
            e = e + 1;
        }
        proof {
            assert(adj[node as int].take(len as int) == adj[node as int]);
        }
        node = node + 1;
    }

    let ghost pending0 = pending_of(incoming_edges@);
    proof {
        assert forall|w: int| 0 <= w < n implies #[trigger] pending0[w] == kahn_start(adj).2[w] by {
            let iw = incoming_edges@[w]@;
            lemma_count_below_len(iw, n as int);
            lemma_count_below_in_degree(iw, adj, w as usize, n as int);
        }
        assert(pending0 =~= kahn_start(adj).2);
    }
    let mut independent_nodes: Vec<usize> = Vec::new();
    let mut v: usize = 0;
    while v < n
        invariant
            n == adj.len(),
            0 <= v <= n,
            incoming_edges@.len() == n,
            pending_of(incoming_edges@) == pending0,
            independent_nodes@ == ready_nodes(pending0, v as int),
            independent_nodes@.no_duplicates(),
            forall|x: int| 0 <= x < independent_nodes@.len() ==> (#[trigger] independent_nodes@[x]) < v,
            forall|w: int|
                0 <= w < v ==> ((#[trigger] incoming_edges@[w])@.len() == 0
                    <==> independent_nodes@.contains(w as usize)),
        decreases n - v,
    {
        let ghost before = independent_nodes@;
        if incoming_edges[v].len() == 0 {
            independent_nodes.push(v);
            proof {
                assert forall|w: int| 0 <= w < v implies (#[trigger] before.contains(w as usize)
                    <==> independent_nodes@.contains(w as usize)) by {
                    if independent_nodes@.contains(w as usize) {
                        let x = choose|x: int| 0 <= x < independent_nodes@.len() && independent_nodes@[x] == w as usize;
                        if x < before.len() {
                            assert(before[x] == w);
                        }
                    }
                    if before.contains(w as usize) {
                        let x = choose|x: int| 0 <= x < before.len() && before[x] == w as usize;
                        assert(independent_nodes@[x] == w);
                    }
                }
                assert(independent_nodes@[before.len() as int] == v);
            }
        }
        proof {
            assert(pending0[v as int] == incoming_edges@[v as int]@.len());
        }
        v = v + 1;
    }

    let mut new_ordering: Vec<usize> = Vec::with_capacity(n);
    let ghost mut rem: Seq<Seq<usize>> = adj;
    proof {
        assert forall|w: int, u: int| 0 <= w < n && 0 <= u < n implies
            (#[trigger] incoming_edges@[w]@.to_multiset().count(u as usize))
                == rem[u].to_multiset().count(w as usize) by {}
        assert forall|w: int| 0 <= w < n implies
            ((#[trigger] incoming_edges@[w])@.len() == 0 <==> (new_ordering@.contains(w as usize)
                || independent_nodes@.contains(w as usize))) by {}
        assert(new_ordering@ + independent_nodes@ == independent_nodes@);
        assert forall|u: int, e: int|
            0 <= u < n && 0 <= e < adj[u].len() && (new_ordering@.contains(#[trigger] adj[u][e])
                || independent_nodes@.contains(adj[u][e])) implies new_ordering@.contains(u as usize) by {
            let t = adj[u][e];
            assert(adj[u].contains(t));
            assert(incoming_edges@[t as int]@.to_multiset().count(u as usize) > 0);
            assert(incoming_edges@[t as int]@.len() > 0);
        }
    }
    while independent_nodes.len() > 0
        invariant
            (independent_nodes@, new_ordering@, pending_of(incoming_edges@)) == kahn_run(
                adj,
                kahn_start(adj),
                new_ordering@.len() as nat,
            ),
            n == adj.len(),
            adj == nodes.deep_view(),
            valid_adjacency(adj),
            incoming_edges@.len() == n,
            rem.len() == n,
            forall|u: int|
                0 <= u < n ==> #[trigger] rem[u] == if new_ordering@.contains(u as usize) {
                    Seq::<usize>::empty()
                } else {
                    adj[u]
                },
            forall|w: int, x: int|
                0 <= w < n && 0 <= x < incoming_edges@[w]@.len() ==> (#[trigger] incoming_edges@[w]@[x])
                    < n,
            forall|w: int, u: int|
                0 <= w < n && 0 <= u < n ==> (#[trigger] incoming_edges@[w]@.to_multiset().count(
                    u as usize,
                )) == rem[u].to_multiset().count(w as usize),
            forall|x: int| 0 <= x < independent_nodes@.len() ==> (#[trigger] independent_nodes@[x]) < n,
            forall|x: int| 0 <= x < new_ordering@.len() ==> (#[trigger] new_ordering@[x]) < n,
            (new_ordering@ + independent_nodes@).no_duplicates(),
            forall|w: int|
                0 <= w < n ==> ((#[trigger] incoming_edges@[w])@.len() == 0 <==> (
                new_ordering@.contains(w as usize) || independent_nodes@.contains(w as usize))),
            forall|u: int, e: int|
                0 <= u < n && 0 <= e < adj[u].len() && (new_ordering@.contains(#[trigger] adj[u][e])
                    || independent_nodes@.contains(adj[u][e])) ==> new_ordering@.contains(u as usize),
            forall|a: int, b: int, e: int|
                #![trigger adj[new_ordering@[a] as int][e], new_ordering@[b]]
                0 <= a < new_ordering@.len() && 0 <= b < new_ordering@.len() && 0 <= e
                    < adj[new_ordering@[a] as int].len() && adj[new_ordering@[a] as int][e]
                    == new_ordering@[b] ==> a < b,
        decreases total_len(views(incoming_edges@), n as int) + independent_nodes@.len(),
    {
        let ghost stack0 = independent_nodes@;
        let ghost out0 = new_ordering@;
        let ghost pending1 = pending_of(incoming_edges@);
        proof {
            lemma_kahn_run_next(adj, kahn_start(adj), out0.len() as nat);
        }
        let ghost measure0 = total_len(views(incoming_edges@), n as int) + stack0.len();
        let node = independent_nodes.pop().unwrap();
        proof {
            assert(stack0 == independent_nodes@.push(node));
            assert((out0 + stack0)[out0.len() + independent_nodes@.len() as int] == node);
            assert forall|x: int| 0 <= x < independent_nodes@.len() implies (#[trigger] independent_nodes@[x]) < n by {
                assert(stack0[x] == independent_nodes@[x]);
            }
        }
        new_ordering.push(node);
        proof {
            assert(new_ordering@ == out0.push(node));
            let s_new = new_ordering@ + independent_nodes@;
            let s_old = out0 + stack0;
            let l = out0.len() as int;
            let m = s_old.len() as int;
            assert(s_new.len() == m);
            assert forall|i: int, j: int| 0 <= i < m && 0 <= j < m && i != j implies s_new[i] != s_new[j] by {
                let fi = if i < l { i } else if i == l { m - 1 } else { i - 1 };
                let fj = if j < l { j } else if j == l { m - 1 } else { j - 1 };
                assert(s_new[i] == s_old[fi]);
                assert(s_new[j] == s_old[fj]);
            }
            assert(s_new.no_duplicates());
            assert(new_ordering@[l] == node);
            assert forall|x: usize| #[trigger] stack0.contains(x) <==> (x == node || independent_nodes@.contains(x)) by {
                if stack0.contains(x) && x != node {
                    let i = choose|i: int| 0 <= i < stack0.len() && stack0[i] == x;
                    assert(independent_nodes@[i] == x);
                }
                if independent_nodes@.contains(x) {
                    let i = choose|i: int| 0 <= i < independent_nodes@.len() && independent_nodes@[i] == x;
                    assert(stack0[i] == x);
                }
            }
            assert forall|x: usize| #[trigger] new_ordering@.contains(x) <==> (x == node || out0.contains(x)) by {
                if new_ordering@.contains(x) && x != node {
                    let i = choose|i: int| 0 <= i < new_ordering@.len() && new_ordering@[i] == x;
                    assert(out0[i] == x);
                }
                if out0.contains(x) {
                    let i = choose|i: int| 0 <= i < out0.len() && out0[i] == x;
                    assert(new_ordering@[i] == x);
                }
            }
            assert(!out0.contains(node)) by {
                if out0.contains(node) {
                    let i = choose|i: int| 0 <= i < out0.len() && out0[i] == node;
                    assert((out0 + stack0)[i] == node);
                    assert((out0 + stack0)[out0.len() + stack0.len() as int - 1] == node);
                }
            }
            assert forall|a: int, b: int, e: int|
                #![trigger adj[new_ordering@[a] as int][e], new_ordering@[b]]
                0 <= a < new_ordering@.len() && 0 <= b < new_ordering@.len() && 0 <= e
                    < adj[new_ordering@[a] as int].len() && adj[new_ordering@[a] as int][e]
                    == new_ordering@[b] implies a < b by {
                if a == out0.len() && b < out0.len() {
                    assert(adj[node as int][e] == out0[b]);
                    assert(out0.contains(out0[b]));
                }
                if a < out0.len() && b < out0.len() {
                    assert(out0[a] == new_ordering@[a]);
                    assert(out0[b] == new_ordering@[b]);
                }
            }
            assert(rem[node as int] == adj[node as int]);
        }
        let len = nodes[node].len();
        let mut k = len;
        proof {
            assert(adj[node as int].take(len as int) == adj[node as int]);
        }
        while k > 0
            invariant
                (independent_nodes@, new_ordering@, pending_of(incoming_edges@)) == consume_edges(
                    adj,
                    node,
                    k as int,
                    (stack0.drop_last(), out0.push(node), pending1),
                ),
                kahn_run(adj, kahn_start(adj), (out0.len() + 1) as nat) == consume_edges(
                    adj,
                    node,
                    0,
                    (stack0.drop_last(), out0.push(node), pending1),
                ),
                new_ordering@.len() == out0.len() + 1,
                n == adj.len(),
                adj == nodes.deep_view(),
                valid_adjacency(adj),
                node < n,
                len == adj[node as int].len(),
                0 <= k <= len,
                new_ordering@.contains(node),
                incoming_edges@.len() == n,
                rem.len() == n,
                rem[node as int] == adj[node as int].take(k as int),
                forall|u: int|
                    0 <= u < n && u != node ==> #[trigger] rem[u] == if new_ordering@.contains(u as usize) {
                        Seq::<usize>::empty()
                    } else {
                        adj[u]
                    },
                forall|w: int, x: int|
                    0 <= w < n && 0 <= x < incoming_edges@[w]@.len() ==> (#[trigger] incoming_edges@[w]@[x])
                        < n,
                forall|w: int, u: int|
                    0 <= w < n && 0 <= u < n ==> (#[trigger] incoming_edges@[w]@.to_multiset().count(
                        u as usize,
                    )) == rem[u].to_multiset().count(w as usize),
                forall|x: int| 0 <= x < independent_nodes@.len() ==> (#[trigger] independent_nodes@[x]) < n,
                forall|x: int| 0 <= x < new_ordering@.len() ==> (#[trigger] new_ordering@[x]) < n,
                (new_ordering@ + independent_nodes@).no_duplicates(),
                forall|w: int|
                    0 <= w < n ==> ((#[trigger] incoming_edges@[w])@.len() == 0 <==> (
                    new_ordering@.contains(w as usize) || independent_nodes@.contains(w as usize))),
                forall|u: int, e: int|
                    0 <= u < n && 0 <= e < adj[u].len() && (new_ordering@.contains(#[trigger] adj[u][e])
                        || independent_nodes@.contains(adj[u][e])) ==> new_ordering@.contains(u as usize),
                forall|a: int, b: int, e: int|
                    #![trigger adj[new_ordering@[a] as int][e], new_ordering@[b]]
                    0 <= a < new_ordering@.len() && 0 <= b < new_ordering@.len() && 0 <= e
                        < adj[new_ordering@[a] as int].len() && adj[new_ordering@[a] as int][e]
                        == new_ordering@[b] ==> a < b,
                total_len(views(incoming_edges@), n as int) + independent_nodes@.len() < measure0,
            decreases k,
        {
            k = k - 1;
            let next_node = nodes[node][k];
            let ghost inc0 = incoming_edges@;
            let ghost stack1 = independent_nodes@;
            let ghost before_edge = (independent_nodes@, new_ordering@, pending_of(incoming_edges@));
            proof {
                assert(adj[node as int].take(k + 1) == adj[node as int].take(k as int).push(next_node));
                assert(rem[node as int].to_multiset().count(next_node) > 0);
                assert(inc0[next_node as int]@.to_multiset().count((node as int) as usize)
                    == rem[node as int].to_multiset().count((next_node as int) as usize));
                assert(inc0[next_node as int]@.to_multiset().count(node) > 0);
                assert(inc0[next_node as int]@.contains(node));
            }
            find_remove(&mut incoming_edges[next_node], &node);
            proof {
                let p = choose|p: int|
                    crate::dsp::processor::is_first_match(inc0[next_node as int]@, node, p)
                        && incoming_edges@[next_node as int]@ == inc0[next_node as int]@.remove(p);
                assert(inc0[next_node as int]@[p] == node);
                rem = rem.update(node as int, adj[node as int].take(k as int));
                assert(views(incoming_edges@) =~= views(inc0).update(next_node as int, incoming_edges@[next_node as int]@));
                lemma_total_len_update(views(inc0), n as int, next_node as int, incoming_edges@[next_node as int]@);
                assert forall|w: int, x: int|
                    0 <= w < n && 0 <= x < incoming_edges@[w]@.len() implies (#[trigger] incoming_edges@[w]@[x])
                        < n by {
                    if w == next_node {
                        if x < p {
                            assert(incoming_edges@[w]@[x] == inc0[w]@[x]);
                        } else {
                            assert(incoming_edges@[w]@[x] == inc0[w]@[x + 1]);
                        }
                    }
                }
                assert(inc0[next_node as int]@.len() > 0);
                assert(!new_ordering@.contains(next_node) && !stack1.contains(next_node));
                assert(pending_of(incoming_edges@) =~= before_edge.2.update(
                    next_node as int,
                    before_edge.2[next_node as int] - 1,
                ));
            }
            if incoming_edges[next_node].len() == 0 {
                independent_nodes.push(next_node);
                proof {
                    assert forall|x: usize| #[trigger] independent_nodes@.contains(x) <==> (x == next_node || stack1.contains(x)) by {
                        if independent_nodes@.contains(x) && x != next_node {
                            let i = choose|i: int| 0 <= i < independent_nodes@.len() && independent_nodes@[i] == x;
                            assert(stack1[i] == x);
                        }
                        if stack1.contains(x) {
                            let i = choose|i: int| 0 <= i < stack1.len() && stack1[i] == x;
                            assert(independent_nodes@[i] == x);
                        }
                        assert(independent_nodes@[stack1.len() as int] == next_node);
                    }
                    assert(new_ordering@ + independent_nodes@ == (new_ordering@ + stack1).push(next_node));
                    assert(!(new_ordering@ + stack1).contains(next_node)) by {
                        if (new_ordering@ + stack1).contains(next_node) {
                            let i = choose|i: int| 0 <= i < (new_ordering@ + stack1).len() && (new_ordering@ + stack1)[i] == next_node;
                            if i < new_ordering@.len() {
                                assert(new_ordering@.contains(next_node));
                            } else {
                                assert(stack1[i - new_ordering@.len()] == next_node);
                            }
                        }
                    }
                    assert forall|u: int, e: int|
                        0 <= u < n && 0 <= e < adj[u].len() && adj[u][e] == next_node implies
                        new_ordering@.contains(u as usize) by {
                        if !new_ordering@.contains(u as usize) {
                            assert(u != node);
                            assert(rem[u] == adj[u]);
                            assert(rem[u].contains(next_node));
                            assert(incoming_edges@[next_node as int]@.to_multiset().count(u as usize) > 0);
                        }
                    }
                }
            }
        }
        proof {
            assert(adj[node as int].take(0) == Seq::<usize>::empty());
        }
    }
    proof {
        let i = new_ordering@.len() as nat;
        assert(new_ordering@ + independent_nodes@ == new_ordering@);
        lemma_distinct_below_len(new_ordering@, n);
        lemma_kahn_run_stopped(adj, kahn_start(adj), i, n as nat);
        assert(kahn_order(adj) == new_ordering@);
    }
    let mut v: usize = 0;
    while v < n
        invariant
            n == adj.len(),
            adj == nodes.deep_view(),
            kahn_order(adj) == new_ordering@,
            new_ordering@.len() <= n,
            new_ordering@.no_duplicates(),
            forall|x: int| 0 <= x < new_ordering@.len() ==> (#[trigger] new_ordering@[x]) < n,
            0 <= v <= n,
            independent_nodes@.len() == 0,
            incoming_edges@.len() == n,
            rem.len() == n,
            forall|u: int|
                0 <= u < n ==> #[trigger] rem[u] == if new_ordering@.contains(u as usize) {
                    Seq::<usize>::empty()
                } else {
                    adj[u]
                },
            forall|w: int, x: int|
                0 <= w < n && 0 <= x < incoming_edges@[w]@.len() ==> (#[trigger] incoming_edges@[w]@[x])
                    < n,
            forall|w: int, u: int|
                0 <= w < n && 0 <= u < n ==> (#[trigger] incoming_edges@[w]@.to_multiset().count(
                    u as usize,
                )) == rem[u].to_multiset().count(w as usize),
            forall|w: int|
                0 <= w < n ==> ((#[trigger] incoming_edges@[w])@.len() == 0 <==> (
                new_ordering@.contains(w as usize) || independent_nodes@.contains(w as usize))),
            forall|w: int| 0 <= w < v ==> (#[trigger] incoming_edges@[w])@.len() == 0,
        decreases n - v,
    {
        if incoming_edges[v].len() != 0 {
            proof {
                if is_acyclic(adj) {
                    let rank = choose|rank: Seq<nat>| is_ranking(adj, rank);
                    lemma_stuck_node_emitted(adj, rank, rem, views(incoming_edges@), new_ordering@, v as int);
                }
                if new_ordering@.len() == n {
                    super::processor::lemma_permutation_covers(new_ordering@, n);
                    assert(new_ordering@.contains(v));
                }
            }
            return None;
        }
        v = v + 1;
    }
    proof {
        assert forall|w: usize| w < n implies #[trigger] new_ordering@.contains(w) by {
            assert(incoming_edges@[w as int]@.len() == 0);
        }
        assert(new_ordering@ + independent_nodes@ == new_ordering@);
        lemma_covering_has_len(new_ordering@, n);
    }
    Some(new_ordering)
}

} // verus!
