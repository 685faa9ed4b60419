use vstd::prelude::*;
use vstd::std_specs::cmp::PartialEqSpec;
use super::graph::{is_acyclic, is_ranking, is_topological_order, kahn_order, topological_sort, valid_adjacency};

verus! {

/// Relies on `<[E]>::swap`: exchanges the elements at `a` and `b`, panicking
/// when either index is out of bounds.
pub assume_specification<E>[ <[E]>::swap ](s: &mut [E], a: usize, b: usize)
    requires
        a < old(s)@.len(),
        b < old(s)@.len(),
    ensures
        final(s)@ == old(s)@.update(a as int, old(s)@[b as int]).update(b as int, old(s)@[a as int]),
;

/// `p` lists each of `0..n` exactly once.
pub open spec fn is_permutation(p: Seq<usize>, n: nat) -> bool {
    &&& p.len() == n
    &&& p.no_duplicates()
    &&& forall|i: int| 0 <= i < p.len() ==> #[trigger] p[i] < n
}

/// A sequence of distinct indices below `n` that names every index below `n`
/// has exactly `n` entries.
pub proof fn lemma_covering_has_len(s: Seq<usize>, n: usize)
    requires
        s.no_duplicates(),
        forall|i: int| 0 <= i < s.len() ==> #[trigger] s[i] < n,
        forall|v: usize| v < n ==> #[trigger] s.contains(v),
    ensures
        s.len() == n,
{
    broadcast use vstd::set_lib::range_set_properties;
    s.unique_seq_to_set();
    assert(s.to_set() =~= Set::<usize>::range(0, n));
}

/// Every index below `n` occurs in a permutation of `0..n`.
pub proof fn lemma_permutation_covers(s: Seq<usize>, n: usize)
    requires
        is_permutation(s, n as nat),
    ensures
        forall|v: usize| v < n ==> #[trigger] s.contains(v),
{
    broadcast use vstd::set_lib::range_set_properties;
    s.unique_seq_to_set();
    let r = Set::<usize>::range(0, n);
    assert(s.to_set().subset_of(r));
    vstd::set_lib::lemma_subset_equality(s.to_set(), r);
    assert forall|v: usize| v < n implies #[trigger] s.contains(v) by {
        assert(r.contains(v));
        assert(s.to_set().contains(v));
    }
}

/// Index of the first element of `s` that equals `x`.
pub open spec fn is_first_match<T: PartialEq>(s: Seq<T>, x: T, p: int) -> bool {
    &&& 0 <= p < s.len()
    &&& s[p].eq_spec(&x)
    &&& forall|q: int| 0 <= q < p ==> !(#[trigger] s[q]).eq_spec(&x)
}

/// Removes the first element of `vec` that equals `object`.
pub fn find_remove<T: Eq>(vec: &mut Vec<T>, object: &T)
    requires
        T::obeys_eq_spec(),
        exists|i: int| 0 <= i < old(vec)@.len() && (#[trigger] old(vec)@[i]).eq_spec(object),
    ensures
        exists|p: int|
            is_first_match(old(vec)@, *object, p) && final(vec)@ == old(vec)@.remove(p),
{
    let n = vec.len();
    let mut pos: usize = 0;
    while !vec[pos].eq(object)
        invariant
            T::obeys_eq_spec(),
            n == vec@.len(),
            pos < vec@.len(),
            exists|i: int| pos <= i < vec@.len() && (#[trigger] vec@[i]).eq_spec(object),
            forall|q: int| 0 <= q < pos ==> !(#[trigger] vec@[q]).eq_spec(object),
        decreases vec@.len() - pos,
    {
        pos = pos + 1;
    }
    let _ = vec.remove(pos);
}

/// Some element of `s` equals a later one.
pub open spec fn spec_has_duplicates<T: PartialEq>(s: Seq<T>) -> bool {
    exists|i: int, j: int| #![trigger s[i], s[j]] 0 <= i < j < s.len() && s[i].eq_spec(&s[j])
}

/// Whether some element of `slice` equals an earlier one.
pub fn has_duplicates<T: Eq + Clone>(slice: &[T]) -> (r: bool)
    requires
        T::obeys_eq_spec(),
    ensures
        r == spec_has_duplicates(slice@),
{
    let n = slice.len();
    let mut j: usize = 0;
    while j < n
        invariant
            T::obeys_eq_spec(),
            n == slice@.len(),
            0 <= j <= n,
            forall|a: int, b: int|
                #![trigger slice@[a], slice@[b]]
                0 <= a < b < j ==> !slice@[a].eq_spec(&slice@[b]),
        decreases n - j,
    {
        let mut i: usize = 0;
        while i < j
            invariant
                T::obeys_eq_spec(),
                n == slice@.len(),
                0 <= i <= j < n,
                forall|a: int| 0 <= a < i ==> !(#[trigger] slice@[a]).eq_spec(&slice@[j as int]),
            decreases j - i,
        {
            if slice[i].eq(&slice[j]) {
                return true;
            }
            i = i + 1;
        }
        j = j + 1;
    }
    false
}

/// Number of positions `p < k` with `s[p] != p`.
pub open spec fn count_unplaced(s: Seq<usize>, k: int) -> nat
    decreases k,
{
    if k <= 0 {
        0
    } else {
        count_unplaced(s, k - 1) + if s[k - 1] != (k - 1) as usize { 1nat } else { 0nat }
    }
}

proof fn lemma_count_unplaced_place(s: Seq<usize>, k: int, c: int)
    requires
        0 <= c < s.len(),
        s[c] != c as usize,
        k <= s.len(),
    ensures
        c < k ==> count_unplaced(s.update(c, c as usize), k) + 1 == count_unplaced(s, k),
        c >= k ==> count_unplaced(s.update(c, c as usize), k) == count_unplaced(s, k),
    decreases k,
{
    if k > 0 {
        lemma_count_unplaced_place(s, k - 1, c);
    }
}

/// Rearranges `slice` so that position `p` holds the element that stood at
/// `indices[p]`, following the permutation's cycles in place. `indices` is
/// left as the identity.
pub fn permute<T>(slice: &mut [T], indices: &mut [usize])
    requires
        old(slice)@.len() == old(indices)@.len(),
        is_permutation(old(indices)@, old(indices)@.len()),
    ensures
        final(slice)@.len() == old(slice)@.len(),
        final(indices)@.len() == old(indices)@.len(),
        forall|p: int|
            0 <= p < old(slice)@.len() ==> final(slice)@[p] == old(slice)@[old(indices)@[p] as int],
        forall|p: int| 0 <= p < old(indices)@.len() ==> #[trigger] final(indices)@[p] == p,
{
    let ghost orig = slice@;
    let ghost sigma = indices@;
    let n = indices.len();
    let mut i: usize = 0;
    while i < n
        invariant
            n == sigma.len(),
            n == orig.len(),
            is_permutation(sigma, n as nat),
            slice@.len() == n,
            indices@.len() == n,
            0 <= i <= n,
            forall|p: int| 0 <= p < n ==> indices@[p] == p || indices@[p] == sigma[p],
            forall|p: int| 0 <= p < n && indices@[p] == p ==> slice@[p] == orig[sigma[p] as int],
            forall|q: int| 0 <= q < n && indices@[q] != q ==> slice@[q] == orig[q],
            forall|p: int|
                0 <= p < n && indices@[sigma[p] as int] == sigma[p] ==> indices@[p] == p,
            forall|p: int|
                0 <= p < n && indices@[p] == p ==> indices@[sigma[p] as int] == sigma[p],
            forall|p: int| 0 <= p < i ==> indices@[p] == p,
        decreases n - i,
    {
        let mut current = i;
        if indices[i] != i {
            let ghost mut prev: int = 0;
            while i != indices[current]
                invariant
                    n == sigma.len(),
                    n == orig.len(),
                    is_permutation(sigma, n as nat),
                    slice@.len() == n,
                    indices@.len() == n,
                    0 <= i < n,
                    i <= current < n,
                    indices@[current as int] == sigma[current as int],
                    indices@[current as int] != current,
                    current == i || (0 <= prev < n && sigma[prev] == current && indices@[prev]
                        == prev),
                    current == i || indices@[i as int] == i,
                    slice@[current as int] == orig[i as int],
                    forall|p: int| 0 <= p < n ==> indices@[p] == p || indices@[p] == sigma[p],
                    forall|p: int|
                        0 <= p < n && indices@[p] == p ==> slice@[p] == orig[sigma[p] as int],
                    forall|q: int|
                        0 <= q < n && indices@[q] != q && q != current ==> slice@[q] == orig[q],
                    forall|p: int|
                        0 <= p < n && indices@[sigma[p] as int] == sigma[p] && sigma[p] != i
                            ==> indices@[p] == p,
                    forall|p: int|
                        0 <= p < n && indices@[p] == p && sigma[p] != current ==> indices@[sigma[
                            p] as int] == sigma[p],
                    forall|p: int| 0 <= p < i ==> indices@[p] == p,
                decreases count_unplaced(indices@, n as int),
            {
                let next = indices[current];
                proof {
                    if next == current {
                        assert(current != i);
                        assert(sigma[prev] == sigma[current as int]);
                    }
                    if indices@[next as int] == next {
                        assert(indices@[current as int] == current);
                    }
                    lemma_count_unplaced_place(indices@, n as int, current as int);
                }
                slice.swap(current, next);
                indices[current] = current;
                proof {
                    prev = current as int;
                }
                current = next;
            }
        }
        proof {
            if indices@[current as int] != current {
                lemma_count_unplaced_place(indices@, n as int, current as int);
            }
        }
        indices[current] = current;
        i = i + 1;
    }
}

/// An outgoing edge of a node, naming the index of its target. A feedback
/// edge closes a cycle: what it carries reaches its target one block late.
#[derive(Clone, Copy, PartialEq, Eq, Structural, Hash, Debug)]
pub enum Edge {
    Normal(usize),
    Feedback(usize),
}

impl Edge {
    pub open spec fn target(self) -> usize {
        match self {
            Edge::Normal(i) => i,
            Edge::Feedback(i) => i,
        }
    }

    /// The same kind of edge, leading to `t`.
    pub open spec fn with_target(self, t: usize) -> Edge {
        match self {
            Edge::Normal(_) => Edge::Normal(t),
            Edge::Feedback(_) => Edge::Feedback(t),
        }
    }

    /// The same kind of edge, leading to the next index.
    pub open spec fn shifted(self) -> Edge {
        self.with_target((self.target() + 1) as usize)
    }

    /// Turns a normal edge into a feedback edge to the same target.
    pub fn set_as_feedback(&mut self)
        requires
            *old(self) is Normal,
        ensures
            *final(self) == Edge::Feedback(old(self).target()),
    {
        let i = match *self {
            Edge::Normal(i) => i,
            Edge::Feedback(i) => i,
        };
        *self = Edge::Feedback(i);
    }
}

/// Index of the first edge of `edges` that leads to `t`.
pub open spec fn is_first_edge_to(edges: Seq<Edge>, t: usize, p: int) -> bool {
    &&& 0 <= p < edges.len()
    &&& edges[p].target() == t
    &&& forall|q: int| 0 <= q < p ==> (#[trigger] edges[q]).target() != t
}

/// Some edge of `edges` leads to `t`.
pub open spec fn has_edge_to(edges: Seq<Edge>, t: usize) -> bool {
    exists|p: int| 0 <= p < edges.len() && (#[trigger] edges[p]).target() == t
}

fn position(edges: &[Edge], index: &usize) -> (r: Option<usize>)
    ensures
        match r {
            Some(p) => is_first_edge_to(edges@, *index, p as int),
            None => !has_edge_to(edges@, *index),
        },
{
    let n = edges.len();
    let mut p: usize = 0;
    while p < n
        invariant
            n == edges@.len(),
            0 <= p <= n,
            forall|q: int| 0 <= q < p ==> (#[trigger] edges@[q]).target() != *index,
        decreases n - p,
    {
        let t = match edges[p] {
            Edge::Normal(i) => i,
            Edge::Feedback(i) => i,
        };
        if t == *index {
            return Some(p);
        }
        p = p + 1;
    }
    None
}

fn contains(edges: &[Edge], index: &usize) -> (r: bool)
    ensures
        r == has_edge_to(edges@, *index),
{
    match position(edges, index) {
        Some(_) => true,
        None => false,
    }
}

/// Targets of the normal edges of `edges`, in order.
pub open spec fn normal_targets(edges: Seq<Edge>) -> Seq<usize>
    decreases edges.len(),
{
    if edges.len() == 0 {
        Seq::empty()
    } else {
        let init = normal_targets(edges.drop_last());
        match edges.last() {
            Edge::Normal(t) => init.push(t),
            Edge::Feedback(_) => init,
        }
    }
}

/// The graph formed by the normal edges of each list.
pub open spec fn normal_adjacency(lists: Seq<Seq<Edge>>) -> Seq<Seq<usize>> {
    Seq::new(lists.len(), |i: int| normal_targets(lists[i]))
}

/// Each entry of `normal_targets(edges)` is the target of a normal edge of
/// `edges`, and each normal edge gives one.
pub proof fn lemma_normal_targets(edges: Seq<Edge>)
    ensures
        normal_targets(edges).len() <= edges.len(),
        forall|x: int|
            0 <= x < normal_targets(edges).len() ==> exists|k: int|
                0 <= k < edges.len() && #[trigger] edges[k] == Edge::Normal(
                    #[trigger] normal_targets(edges)[x],
                ),
        forall|k: int|
            0 <= k < edges.len() && (#[trigger] edges[k]) is Normal ==> normal_targets(
                edges,
            ).contains(edges[k].target()),
    decreases edges.len(),
{
    if edges.len() > 0 {
        let init = edges.drop_last();
        lemma_normal_targets(init);
        let nt = normal_targets(edges);
        assert forall|x: int| 0 <= x < nt.len() implies exists|k: int|
            0 <= k < edges.len() && #[trigger] edges[k] == Edge::Normal(#[trigger] nt[x]) by {
            if x < normal_targets(init).len() {
                assert(nt[x] == normal_targets(init)[x]);
                let k = choose|k: int|
                    0 <= k < init.len() && #[trigger] init[k] == Edge::Normal(normal_targets(init)[x]);
                assert(edges[k] == init[k]);
            } else {
                assert(edges[edges.len() - 1] == Edge::Normal(nt[x]));
            }
        }
        assert forall|k: int| 0 <= k < edges.len() && (#[trigger] edges[k]) is Normal implies nt.contains(
            edges[k].target(),
        ) by {
            if k < init.len() {
                assert(init[k] == edges[k]);
                let y = choose|y: int|
                    0 <= y < normal_targets(init).len() && normal_targets(init)[y] == init[k].target();
                assert(nt[y] == normal_targets(init)[y]);
            } else {
                assert(nt[nt.len() - 1] == edges[k].target());
            }
        }
    }
}

/// A node of the audio graph: its payload, the identifier it is found by, and
/// its outgoing edges.
#[derive(Debug)]
pub struct AudioGraphNode<I, D> {
    pub data: D,
    id: I,
    edges: Vec<Edge>,
}

impl<I, D> AudioGraphNode<I, D> {
    pub closed spec fn spec_id(self) -> I {
        self.id
    }

    pub closed spec fn spec_data(self) -> D {
        self.data
    }

    pub closed spec fn spec_edges(self) -> Seq<Edge> {
        self.edges@
    }

    /// A node with no edges.
    pub fn new(id: I, data: D) -> (r: Self)
        ensures
            r.spec_id() == id,
            r.spec_data() == data,
            r.spec_edges() == Seq::<Edge>::empty(),
    {
        Self { data, id, edges: Vec::new() }
    }

    pub fn id(&self) -> (r: &I)
        ensures
            *r == self.spec_id(),
    {
        &self.id
    }

    pub fn edges(&self) -> (r: &[Edge])
        ensures
            r@ == self.spec_edges(),
    {
        self.edges.as_slice()
    }
}

/// The edge lists of `nodes`, in order.
pub open spec fn edge_lists<I, D>(nodes: Seq<AudioGraphNode<I, D>>) -> Seq<Seq<Edge>> {
    Seq::new(nodes.len(), |i: int| nodes[i].spec_edges())
}

/// `new` is `old` with node `p` of `new` taken from node `perm[p]` of `old`:
/// same identifier and payload, and the edges of `old_edges[perm[p]]`, each
/// of the same kind, retargeted so that `perm` maps the new target back to
/// the old one.
pub open spec fn is_reordering<I, D>(
    old: Seq<AudioGraphNode<I, D>>,
    old_edges: Seq<Seq<Edge>>,
    new: Seq<AudioGraphNode<I, D>>,
    perm: Seq<usize>,
) -> bool {
    &&& new.len() == old.len()
    &&& old_edges.len() == old.len()
    &&& perm.len() == old.len()
    &&& forall|p: int|
        0 <= p < new.len() ==> {
            &&& (#[trigger] new[p]).spec_id() == old[perm[p] as int].spec_id()
            &&& new[p].spec_data() == old[perm[p] as int].spec_data()
            &&& is_relabeling(old_edges[perm[p] as int], new[p].spec_edges(), perm)
        }
}

/// `new` holds the edges of `old` in the same order and of the same kinds,
/// with each target `t` replaced by the index that `perm` maps to `t`.
pub open spec fn is_relabeling(old: Seq<Edge>, new: Seq<Edge>, perm: Seq<usize>) -> bool {
    &&& new.len() == old.len()
    &&& forall|k: int|
        0 <= k < new.len() ==> {
            &&& (#[trigger] new[k]).target() < perm.len()
            &&& new[k] == old[k].with_target(new[k].target())
            &&& perm[new[k].target() as int] == old[k].target()
        }
}

/// The graph of audio nodes, kept in an order in which every normal edge
/// leads from an earlier node to a later one.
#[derive(Debug)]
pub struct AudioGraph<I, D> {
    ordered_nodes: Vec<AudioGraphNode<I, D>>,
}

impl<I, D> View for AudioGraph<I, D> {
    type V = Seq<AudioGraphNode<I, D>>;

    closed spec fn view(&self) -> Seq<AudioGraphNode<I, D>> {
        self.ordered_nodes@
    }
}

/// Every edge leads to a node, no node has two edges to the same target, and
/// every normal edge leads forward.
pub open spec fn well_formed_edges(lists: Seq<Seq<Edge>>) -> bool {
    forall|u: int, k: int|
        0 <= u < lists.len() && 0 <= k < lists[u].len() ==> {
            &&& (#[trigger] lists[u][k]).target() < lists.len()
            &&& (lists[u][k] is Normal ==> u < lists[u][k].target())
            &&& forall|k2: int|
                0 <= k2 < lists[u].len() && k2 != k ==> (#[trigger] lists[u][k2]).target()
                    != lists[u][k].target()
        }
}

/// Index of the first node of `nodes` whose identifier equals `id`.
pub open spec fn is_first_with_id<I: PartialEq, D>(
    nodes: Seq<AudioGraphNode<I, D>>,
    id: I,
    p: int,
) -> bool {
    &&& 0 <= p < nodes.len()
    &&& nodes[p].spec_id().eq_spec(&id)
    &&& forall|q: int| 0 <= q < p ==> !(#[trigger] nodes[q]).spec_id().eq_spec(&id)
}

/// Some node of `nodes` has an identifier equal to `id`.
pub open spec fn has_id<I: PartialEq, D>(nodes: Seq<AudioGraphNode<I, D>>, id: I) -> bool {
    exists|p: int| 0 <= p < nodes.len() && (#[trigger] nodes[p]).spec_id().eq_spec(&id)
}

/// Index of the first node whose identifier equals `id`.
pub open spec fn index_of_id<I: PartialEq, D>(nodes: Seq<AudioGraphNode<I, D>>, id: I) -> int {
    choose|p: int| is_first_with_id(nodes, id, p)
}

proof fn lemma_first_with_id_unique<I: PartialEq, D>(
    nodes: Seq<AudioGraphNode<I, D>>,
    id: I,
    p: int,
)
    requires
        is_first_with_id(nodes, id, p),
    ensures
        index_of_id(nodes, id) == p,
{
    let c = index_of_id(nodes, id);
    assert(is_first_with_id(nodes, id, c));
    if c < p {
        assert(!nodes[c].spec_id().eq_spec(&id));
    }
    if p < c {
        assert(!nodes[p].spec_id().eq_spec(&id));
    }
}

impl<I, D> Default for AudioGraph<I, D> {
    fn default() -> (r: Self)
        ensures
            r@ == Seq::<AudioGraphNode<I, D>>::empty(),
    {
        AudioGraph { ordered_nodes: Vec::new() }
    }
}

impl<I, D> core::ops::Deref for AudioGraph<I, D> {
    type Target = [AudioGraphNode<I, D>];

    fn deref(&self) -> &[AudioGraphNode<I, D>] {
        self.ordered_nodes.as_slice()
    }
}

impl<I, D> AudioGraph<I, D> {
    /// The invariant of the graph: its edges are well formed, and every
    /// feedback edge closes a cycle of normal edges.
    pub open spec fn wf(self) -> bool {
        &&& well_formed_edges(edge_lists(self@))
        &&& feedback_closes_cycle(edge_lists(self@))
    }

    /// The nodes, in processing order.
    pub fn nodes(&self) -> (r: &[AudioGraphNode<I, D>])
        ensures
            r@ == self@,
    {
        self.ordered_nodes.as_slice()
    }

    /// Inserts a node with no edges in front of all others; every other node
    /// moves one place back and keeps its edges.
    pub fn top_level_insert(&mut self, id: I, data: D)
        requires
            old(self).wf(),
        ensures
            final(self).wf(),
            final(self)@.len() == old(self)@.len() + 1,
            final(self)@[0].spec_id() == id,
            final(self)@[0].spec_data() == data,
            final(self)@[0].spec_edges() == Seq::<Edge>::empty(),
            forall|p: int|
                0 < p < final(self)@.len() ==> {
                    &&& (#[trigger] final(self)@[p]).spec_id() == old(self)@[p - 1].spec_id()
                    &&& final(self)@[p].spec_data() == old(self)@[p - 1].spec_data()
                    &&& final(self)@[p].spec_edges().len() == old(self)@[p - 1].spec_edges().len()
                    &&& forall|k: int|
                        0 <= k < final(self)@[p].spec_edges().len() ==> #[trigger] final(self)@[
                            p].spec_edges()[k] == old(self)@[p - 1].spec_edges()[k].shifted()
                },
    {
        let ghost old_nodes = self.ordered_nodes@;
        let n = self.ordered_nodes.len();
        let mut i: usize = 0;
        while i < n
            invariant
                n == old_nodes.len(),
                well_formed_edges(edge_lists(old_nodes)),
                self.ordered_nodes@.len() == n,
                0 <= i <= n,
                forall|p: int|
                    0 <= p < n ==> {
                        &&& (#[trigger] self.ordered_nodes@[p]).spec_id() == old_nodes[p].spec_id()
                        &&& self.ordered_nodes@[p].spec_data() == old_nodes[p].spec_data()
                        &&& self.ordered_nodes@[p].spec_edges().len()
                            == old_nodes[p].spec_edges().len()
                        &&& forall|k: int|
                            0 <= k < self.ordered_nodes@[p].spec_edges().len()
                                ==> #[trigger] self.ordered_nodes@[p].spec_edges()[k] == if p < i {
                                old_nodes[p].spec_edges()[k].shifted()
                            } else {
                                old_nodes[p].spec_edges()[k]
                            }
                    },
            decreases n - i,
        {
            let m = self.ordered_nodes[i].edges.len();
            let mut k: usize = 0;
            while k < m
                invariant
                    n == old_nodes.len(),
                    well_formed_edges(edge_lists(old_nodes)),
                    self.ordered_nodes@.len() == n,
                    0 <= i < n,
                    0 <= k <= m,
                    m == old_nodes[i as int].spec_edges().len(),
                    forall|p: int|
                        0 <= p < n ==> {
                            &&& (#[trigger] self.ordered_nodes@[p]).spec_id() == old_nodes[p].spec_id()
                            &&& self.ordered_nodes@[p].spec_data() == old_nodes[p].spec_data()
                            &&& self.ordered_nodes@[p].spec_edges().len()
                                == old_nodes[p].spec_edges().len()
                            &&& forall|k2: int|
                                0 <= k2 < self.ordered_nodes@[p].spec_edges().len()
                                    ==> #[trigger] self.ordered_nodes@[p].spec_edges()[k2] == if p < i
                                    || (p == i && k2 < k) {
                                    old_nodes[p].spec_edges()[k2].shifted()
                                } else {
                                    old_nodes[p].spec_edges()[k2]
                                }
                        },
                decreases m - k,
            {
                let e = self.ordered_nodes[i].edges[k];
                proof {
                    assert(edge_lists(old_nodes)[i as int][k as int] == e);
                }
                let moved = match e {
                    Edge::Normal(t) => Edge::Normal(t + 1),
                    Edge::Feedback(t) => Edge::Feedback(t + 1),
                };
                self.ordered_nodes[i].edges[k] = moved;
                k = k + 1;
            }
            i = i + 1;
        }
        self.ordered_nodes.insert(0, AudioGraphNode::new(id, data));
        let total = self.ordered_nodes.len();
        proof {
            assert(total == self@.len());
            let lists = edge_lists(self.ordered_nodes@);
            let old_lists = edge_lists(old_nodes);
            assert forall|u: int, k: int| 0 <= u < lists.len() && 0 <= k < lists[u].len() implies {
                &&& (#[trigger] lists[u][k]).target() < lists.len()
                &&& (lists[u][k] is Normal ==> u < lists[u][k].target())
                &&& forall|k2: int|
                    0 <= k2 < lists[u].len() && k2 != k ==> (#[trigger] lists[u][k2]).target()
                        != lists[u][k].target()
            } by {
                assert(u > 0);
                assert(lists[u][k] == old_lists[u - 1][k].shifted());
                assert forall|k2: int|
                    0 <= k2 < lists[u].len() && k2 != k implies (#[trigger] lists[u][k2]).target()
                        != lists[u][k].target() by {
                    assert(lists[u][k2] == old_lists[u - 1][k2].shifted());
                }
            }
            assert forall|p: int, k: int|
                0 <= p < lists.len() && 0 <= k < lists[p].len() && (#[trigger] lists[p][k]) is Feedback
                    implies !is_acyclic(normal_adjacency(as_normal(lists, p, k))) by {
                assert(p > 0);
                assert(lists[p][k] == old_lists[p - 1][k].shifted());
                assert(old_lists[p - 1][k] is Feedback);
                let a = as_normal(old_lists, p - 1, k);
                let b = as_normal(lists, p, k);
                assert forall|x: int| 0 <= x < a.len() implies (#[trigger] b[x + 1]).len() == a[x].len()
                    && forall|j: int| 0 <= j < a[x].len() ==> #[trigger] b[x + 1][j] == a[x][j].shifted() by {
                    assert forall|j: int| 0 <= j < a[x].len() implies #[trigger] b[x + 1][j] == a[x][j].shifted() by {
                        assert(lists[x + 1][j] == old_lists[x][j].shifted());
                    }
                }
                assert forall|x: int, j: int| 0 <= x < b.len() && 0 <= j < b[x].len() implies (#[trigger] b[x][j]).target() < b.len() by {
                    assert(b[x][j].target() == lists[x][j].target());
                }
                assert forall|x: int, j: int| 0 <= x < a.len() && 0 <= j < a[x].len() implies (#[trigger] a[x][j]).target() < a.len() by {
                    assert(a[x][j].target() == old_lists[x][j].target());
                }
                assert(b.len() == total);
                lemma_cycle_shifted(a, b);
            }
        }
    }

    /// The graph of normal edges, as target lists.
    fn normal_edges(&self) -> (r: Vec<Vec<usize>>)
        ensures
            r.deep_view() == normal_adjacency(edge_lists(self@)),
    {
        let n = self.ordered_nodes.len();
        let mut lists: Vec<Vec<usize>> = Vec::new();
        let mut u: usize = 0;
        while u < n
            invariant
                n == self@.len(),
                0 <= u <= n,
                lists@.len() == u,
                forall|x: int| 0 <= x < u ==> (#[trigger] lists@[x])@ == normal_targets(self@[x].spec_edges()),
            decreases n - u,
        {
            let edges = &self.ordered_nodes[u].edges;
            let m = edges.len();
            let mut targets: Vec<usize> = Vec::new();
            let mut k: usize = 0;
            while k < m
                invariant
                    m == edges@.len(),
                    0 <= k <= m,
                    targets@ == normal_targets(edges@.take(k as int)),
                decreases m - k,
            {
                proof {
                    assert(edges@.take(k + 1).drop_last() == edges@.take(k as int));
                }
                match edges[k] {
                    Edge::Normal(t) => targets.push(t),
                    Edge::Feedback(_) => {},
                }
                k = k + 1;
            }
            proof {
                assert(edges@.take(m as int) == edges@);
            }
            lists.push(targets);
            u = u + 1;
        }
        proof {
            assert forall|x: int| 0 <= x < n implies #[trigger] lists.deep_view()[x] =~= lists@[x]@ by {}
            assert(lists.deep_view() =~= normal_adjacency(edge_lists(self@)));
        }
        lists
    }

    /// Orders the nodes by their normal edges (see `topological_sort`).
    fn topological_sort(&self) -> (r: Option<Vec<usize>>)
        requires
            valid_targets(edge_lists(self@)),
        ensures
            match r {
                Some(order) => {
                    &&& order@ == kahn_order(normal_adjacency(edge_lists(self@)))
                    &&& is_topological_order(normal_adjacency(edge_lists(self@)), order@)
                },
                None => !is_acyclic(normal_adjacency(edge_lists(self@))),
            },
    {
        let outgoing_edges = self.normal_edges();
        proof {
            lemma_valid_normal_adjacency(edge_lists(self@));
        }
        topological_sort(&outgoing_edges)
    }

    /// Moves node `indices[p]` to position `p`, retargeting every edge so that
    /// it leads to the same node as before.
    fn reorder(&mut self, indices: &mut Vec<usize>)
        requires
            valid_targets(edge_lists(old(self)@)),
            is_permutation(old(indices)@, old(self)@.len()),
        ensures
            is_reordering(old(self)@, edge_lists(old(self)@), final(self)@, old(indices)@),
    {
        let ghost old_nodes = self.ordered_nodes@;
        let ghost sigma = indices@;
        let n = self.ordered_nodes.len();
        proof {
            lemma_permutation_covers(sigma, n);
        }
        let mut i: usize = 0;
        while i < n
            invariant
                n == old_nodes.len(),
                valid_targets(edge_lists(old_nodes)),
                is_permutation(sigma, n as nat),
                indices@ == sigma,
                forall|v: usize| v < n ==> #[trigger] sigma.contains(v),
                self.ordered_nodes@.len() == n,
                0 <= i <= n,
                forall|p: int|
                    0 <= p < n ==> {
                        &&& (#[trigger] self.ordered_nodes@[p]).spec_id() == old_nodes[p].spec_id()
                        &&& self.ordered_nodes@[p].spec_data() == old_nodes[p].spec_data()
                        &&& p < i ==> is_relabeling(
                            old_nodes[p].spec_edges(),
                            self.ordered_nodes@[p].spec_edges(),
                            sigma,
                        )
                        &&& p >= i ==> self.ordered_nodes@[p].spec_edges()
                            == old_nodes[p].spec_edges()
                    },
            decreases n - i,
        {
            let m = self.ordered_nodes[i].edges.len();
            let mut k: usize = 0;
            while k < m
                invariant
                    n == old_nodes.len(),
                    valid_targets(edge_lists(old_nodes)),
                    is_permutation(sigma, n as nat),
                    indices@ == sigma,
                    forall|v: usize| v < n ==> #[trigger] sigma.contains(v),
                    self.ordered_nodes@.len() == n,
                    0 <= i < n,
                    0 <= k <= m,
                    m == old_nodes[i as int].spec_edges().len(),
                    forall|p: int|
                        0 <= p < n ==> {
                            &&& (#[trigger] self.ordered_nodes@[p]).spec_id() == old_nodes[p].spec_id()
                            &&& self.ordered_nodes@[p].spec_data() == old_nodes[p].spec_data()
                            &&& p < i ==> is_relabeling(
                                old_nodes[p].spec_edges(),
                                self.ordered_nodes@[p].spec_edges(),
                                sigma,
                            )
                            &&& p > i ==> self.ordered_nodes@[p].spec_edges()
                                == old_nodes[p].spec_edges()
                        },
                    self.ordered_nodes@[i as int].spec_edges().len() == m,
                    forall|k2: int|
                        0 <= k2 < m ==> {
                            let e = #[trigger] self.ordered_nodes@[i as int].spec_edges()[k2];
                            let o = old_nodes[i as int].spec_edges()[k2];
                            if k2 < k {
                                &&& e.target() < n
                                &&& e == o.with_target(e.target())
                                &&& sigma[e.target() as int] == o.target()
                            } else {
                                e == o
                            }
                        },
                decreases m - k,
            {
                let edge = self.ordered_nodes[i].edges[k];
                proof {
                    assert(edge_lists(old_nodes)[i as int][k as int] == edge);
                }
                let moved = match edge {
                    Edge::Normal(t) => Edge::Normal(index_in(indices, t)),
                    Edge::Feedback(t) => Edge::Feedback(index_in(indices, t)),
                };
                self.ordered_nodes[i].edges[k] = moved;
                k = k + 1;
            }
            i = i + 1;
        }
        let ghost relabeled = self.ordered_nodes@;
        permute(self.ordered_nodes.as_mut_slice(), indices.as_mut_slice());
        proof {
            assert forall|p: int| 0 <= p < n implies {
                &&& (#[trigger] self@[p]).spec_id() == old_nodes[sigma[p] as int].spec_id()
                &&& self@[p].spec_data() == old_nodes[sigma[p] as int].spec_data()
                &&& is_relabeling(edge_lists(old_nodes)[sigma[p] as int], self@[p].spec_edges(), sigma)
            } by {
                assert(self@[p] == relabeled[sigma[p] as int]);
            }
        }
    }
}

/// The identity permutation of `0..n`.
pub open spec fn identity(n: nat) -> Seq<usize> {
    Seq::new(n, |i: int| i as usize)
}

/// The edge lists of `nodes` after `edge` is appended to those of node `f`.
pub open spec fn with_edge<I, D>(nodes: Seq<AudioGraphNode<I, D>>, f: int, edge: Edge) -> Seq<Seq<Edge>> {
    edge_lists(nodes).update(f, edge_lists(nodes)[f].push(edge))
}

/// What `connect` does once the two nodes are found at `f` and `t`, with `r`
/// its result: a duplicate edge is refused and leaves the graph as it was;
/// otherwise a normal edge from `f` to `t` is added and the nodes reordered
/// by `r`, the order in which Kahn's algorithm emits the new normal graph
/// (see `kahn_order`), or, when the new edge
/// would close a cycle, it is added as a feedback edge instead, leading
/// back to an earlier node or to `f` itself, and `r` keeps the order as it
/// was.
pub open spec fn connect_result<I, D>(
    old: Seq<AudioGraphNode<I, D>>,
    new: Seq<AudioGraphNode<I, D>>,
    f: int,
    t: usize,
    r: Option<Seq<usize>>,
) -> bool {
    match r {
        None => has_edge_to(edge_lists(old)[f], t) && new == old,
        Some(perm) => {
            &&& !has_edge_to(edge_lists(old)[f], t)
            &&& is_permutation(perm, old.len())
            &&& if is_acyclic(normal_adjacency(with_edge(old, f, Edge::Normal(t)))) {
                &&& perm == kahn_order(normal_adjacency(with_edge(old, f, Edge::Normal(t))))
                &&& is_topological_order(normal_adjacency(with_edge(old, f, Edge::Normal(t))), perm)
                &&& is_reordering(old, with_edge(old, f, Edge::Normal(t)), new, perm)
            } else {
                &&& t <= f
                &&& perm == identity(old.len())
                &&& is_reordering(old, with_edge(old, f, Edge::Feedback(t)), new, perm)
            }
        },
    }
}

impl<I: Eq, D> AudioGraph<I, D> {
    /// Index of the first node whose identifier equals `node_id`.
    pub fn find_node(&self, node_id: &I) -> (r: usize)
        requires
            I::obeys_eq_spec(),
            has_id(self@, *node_id),
        ensures
            is_first_with_id(self@, *node_id, r as int),
            r == index_of_id(self@, *node_id),
    {
        let n = self.ordered_nodes.len();
        let mut p: usize = 0;
        while !self.ordered_nodes[p].id.eq(node_id)
            invariant
                I::obeys_eq_spec(),
                n == self@.len(),
                p < n,
                exists|q: int| p <= q < n && (#[trigger] self@[q]).spec_id().eq_spec(node_id),
                forall|q: int| 0 <= q < p ==> !(#[trigger] self@[q]).spec_id().eq_spec(node_id),
            decreases n - p,
        {
            p = p + 1;
        }
        proof {
            lemma_first_with_id_unique(self@, *node_id, p as int);
        }
        p
    }

    /// Adds an edge from the node `from_id` to the node `to_id`. A duplicate
    /// is refused (`None`). Otherwise the nodes are reordered so that normal
    /// edges lead forward, and the permutation applied is returned: position
    /// `p` now holds the node that stood at `r[p]`. An edge that would close
    /// a cycle becomes a feedback edge and leaves the order as it was.
    pub fn connect(&mut self, from_id: &I, to_id: &I) -> (r: Option<Vec<usize>>)
        requires
            old(self).wf(),
            I::obeys_eq_spec(),
            has_id(old(self)@, *from_id),
            has_id(old(self)@, *to_id),
        ensures
            final(self).wf(),
            connect_result(
                old(self)@,
                final(self)@,
                index_of_id(old(self)@, *from_id),
                index_of_id(old(self)@, *to_id) as usize,
                match r {
                    Some(v) => Some(v@),
                    None => None,
                },
            ),
    {
        let from_index = self.find_node(from_id);
        let to_index = self.find_node(to_id);
        if contains(self.ordered_nodes[from_index].edges.as_slice(), &to_index) {
            return None;
        }
        let ghost old_nodes = self.ordered_nodes@;
        let ghost f = from_index as int;
        let n = self.ordered_nodes.len();
        self.ordered_nodes[from_index].edges.push(Edge::Normal(to_index));
        let ghost pushed = self@;
        proof {
            assert(edge_lists(self@) =~= with_edge(old_nodes, f, Edge::Normal(to_index)));
            lemma_with_edge_well_formed(old_nodes, f, Edge::Normal(to_index));
            assert forall|i: int| 0 <= i < n implies #[trigger] pushed[i].spec_id() == old_nodes[i].spec_id()
                && pushed[i].spec_data() == old_nodes[i].spec_data() by {}
        }
        match self.topological_sort() {
            Some(order) => {
                let mut indices = order.clone();
                proof {
                    assert(indices@ =~= order@);
                }
                self.reorder(&mut indices);
                proof {
                    lemma_valid_normal_adjacency(with_edge(old_nodes, f, Edge::Normal(to_index)));
                    lemma_topological_order_acyclic(
                        normal_adjacency(with_edge(old_nodes, f, Edge::Normal(to_index))),
                        order@,
                    );
                    assert(is_reordering(old_nodes, with_edge(old_nodes, f, Edge::Normal(to_index)), self@, order@));
                    lemma_reordered_well_formed(
                        with_edge(old_nodes, f, Edge::Normal(to_index)),
                        self@,
                        order@,
                    );
                    let added = with_edge(old_nodes, f, Edge::Normal(to_index));
                    lemma_with_edge_keeps_cycles(old_nodes, f, Edge::Normal(to_index));
                    assert forall|u: int, k: int|
                        0 <= u < added.len() && 0 <= k < added[u].len() && (#[trigger] added[u][k]) is Feedback
                            implies !is_acyclic(normal_adjacency(as_normal(added, u, k))) by {
                        if u == f {
                            assert(k < edge_lists(old_nodes)[f].len());
                        }
                    }
                    lemma_reordered_keeps_cycles(added, self@, order@);
                }
                Some(order)
            }
            None => {
                let last = self.ordered_nodes[from_index].edges.len() - 1;
                self.ordered_nodes[from_index].edges[last].set_as_feedback();
                proof {
                    assert(self@[f].spec_edges() =~= old_nodes[f].spec_edges().push(Edge::Feedback(to_index)));
                    assert forall|i: int| 0 <= i < n && i != f implies #[trigger] self@[i] == old_nodes[i] by {}
                    assert forall|i: int| 0 <= i < n implies #[trigger] self@[i].spec_id() == old_nodes[i].spec_id()
                        && self@[i].spec_data() == old_nodes[i].spec_data() by {}
                }
                let mut kept: Vec<usize> = Vec::new();
                let mut i: usize = 0;
                while i < n
                    invariant
                        0 <= i <= n,
                        kept@ == identity(i as nat),
                    decreases n - i,
                {
                    kept.push(i);
                    proof {
                        assert(kept@ =~= identity((i + 1) as nat));
                    }
                    i = i + 1;
                }
                proof {
                    if to_index > from_index {
                        lemma_forward_edge_keeps_acyclic(old_nodes, f, to_index);
                    }
                    let lists = with_edge(old_nodes, f, Edge::Feedback(to_index));
                    assert(edge_lists(self@) =~= lists);
                    lemma_with_edge_well_formed(old_nodes, f, Edge::Feedback(to_index));
                    lemma_with_edge_keeps_cycles(old_nodes, f, Edge::Feedback(to_index));
                    let last_index = edge_lists(old_nodes)[f].len() as int;
                    assert(as_normal(lists, f, last_index)[f] =~= with_edge(old_nodes, f, Edge::Normal(to_index))[f]);
                    assert(as_normal(lists, f, last_index) =~= with_edge(old_nodes, f, Edge::Normal(to_index)));
                    assert forall|u: int, k: int|
                        0 <= u < lists.len() && 0 <= k < lists[u].len() && (#[trigger] lists[u][k]) is Feedback
                            implies !is_acyclic(normal_adjacency(as_normal(lists, u, k))) by {
                        if u == f && k == last_index {
                        } else if u == f {
                            assert(k < last_index);
                        }
                    }
                    assert forall|p: int| 0 <= p < n implies is_relabeling(lists[p], self@[p].spec_edges(), kept@) by {
                        assert(lists[p] == self@[p].spec_edges());
                    }
                    assert forall|x: int| 0 <= x < kept@.len() implies #[trigger] kept@[x] < n by {}
                    assert(kept@.no_duplicates());
                }
                Some(kept)
            }
        }
    }
}

/// Adding an edge to a fresh target that names a node keeps the targets valid
/// and distinct; a feedback edge keeps the whole invariant.
proof fn lemma_with_edge_well_formed<I, D>(nodes: Seq<AudioGraphNode<I, D>>, f: int, edge: Edge)
    requires
        well_formed_edges(edge_lists(nodes)),
        0 <= f < nodes.len(),
        edge.target() < nodes.len(),
        !has_edge_to(edge_lists(nodes)[f], edge.target()),
    ensures
        valid_targets(with_edge(nodes, f, edge)),
        distinct_targets(with_edge(nodes, f, edge)),
        edge is Feedback ==> well_formed_edges(with_edge(nodes, f, edge)),
{
    let old_lists = edge_lists(nodes);
    let lists = with_edge(nodes, f, edge);
    assert forall|u: int, k: int| 0 <= u < lists.len() && 0 <= k < lists[u].len() implies {
        &&& (#[trigger] lists[u][k]).target() < lists.len()
        &&& (lists[u][k] is Normal && (u != f || k < old_lists[f].len()) ==> u < lists[u][k].target())
        &&& forall|k2: int|
            0 <= k2 < lists[u].len() && k2 != k ==> (#[trigger] lists[u][k2]).target()
                != lists[u][k].target()
    } by {
        if u == f {
            assert forall|k2: int| 0 <= k2 < lists[u].len() && k2 != k implies (#[trigger] lists[u][k2]).target()
                != lists[u][k].target() by {
                if k == old_lists[f].len() {
                    assert(old_lists[f][k2] == lists[u][k2]);
                } else if k2 == old_lists[f].len() {
                    assert(old_lists[f][k] == lists[u][k]);
                } else {
                    assert(old_lists[f][k] == lists[u][k]);
                    assert(old_lists[f][k2] == lists[u][k2]);
                }
            }
            if k < old_lists[f].len() {
                assert(old_lists[f][k] == lists[u][k]);
            }
        }
    }
}

/// Reordering a graph whose targets are valid and distinct by a topological
/// order of its normal edges yields a well-formed graph.
proof fn lemma_reordered_well_formed<I, D>(
    lists: Seq<Seq<Edge>>,
    new: Seq<AudioGraphNode<I, D>>,
    perm: Seq<usize>,
)
    requires
        valid_targets(lists),
        distinct_targets(lists),
        is_topological_order(normal_adjacency(lists), perm),
        exists|old: Seq<AudioGraphNode<I, D>>| is_reordering(old, lists, new, perm),
    ensures
        well_formed_edges(edge_lists(new)),
{
    let old = choose|old: Seq<AudioGraphNode<I, D>>| is_reordering(old, lists, new, perm);
    let adj = normal_adjacency(lists);
    let nl = edge_lists(new);
    assert forall|p: int, k: int| 0 <= p < nl.len() && 0 <= k < nl[p].len() implies {
        &&& (#[trigger] nl[p][k]).target() < nl.len()
        &&& (nl[p][k] is Normal ==> p < nl[p][k].target())
        &&& forall|k2: int|
            0 <= k2 < nl[p].len() && k2 != k ==> (#[trigger] nl[p][k2]).target() != nl[p][k].target()
    } by {
        let u = perm[p] as int;
        let o = lists[u];
        assert(is_relabeling(o, new[p].spec_edges(), perm));
        let e = nl[p][k];
        let q = e.target() as int;
        assert(e == new[p].spec_edges()[k]);
        if e is Normal {
            lemma_normal_targets(o);
            assert(o[k] is Normal);
            assert(normal_targets(o).contains(o[k].target()));
            let x = choose|x: int| 0 <= x < normal_targets(o).len() && normal_targets(o)[x] == o[k].target();
            assert(adj[perm[p] as int][x] == perm[q]);
        }
        assert forall|k2: int| 0 <= k2 < nl[p].len() && k2 != k implies (#[trigger] nl[p][k2]).target()
            != nl[p][k].target() by {
            assert(nl[p][k2] == new[p].spec_edges()[k2]);
        }
    }
}

/// A graph with a topological order has no cycle: the position in the order
/// is a ranking.
pub proof fn lemma_topological_order_acyclic(adj: Seq<Seq<usize>>, order: Seq<usize>)
    requires
        is_topological_order(adj, order),
        valid_adjacency(adj),
        adj.len() <= usize::MAX,
    ensures
        is_acyclic(adj),
{
    let n = adj.len() as usize;
    lemma_permutation_covers(order, n);
    let rank = Seq::new(adj.len(), |v: int| (choose|a: int| 0 <= a < order.len() && order[a] == v as usize) as nat);
    assert forall|v: int| 0 <= v < adj.len() implies 0 <= #[trigger] rank[v] < order.len() && order[rank[v] as int] == v as usize by {
        assert(order.contains(v as usize));
    }
    assert forall|u: int, e: int| 0 <= u < adj.len() && 0 <= e < adj[u].len() implies rank[u] < rank[(#[trigger] adj[u][e]) as int] by {
        let w = adj[u][e] as int;
        assert(order[rank[u] as int] == u as usize);
        assert(order.contains(adj[u][e]));
        let b = choose|b: int| 0 <= b < order.len() && order[b] == adj[u][e];
        assert(adj[order[rank[u] as int] as int][e] == order[b]);
        assert(w < adj.len());
        assert(order[rank[w] as int] == order[b]);
    }
    assert(is_ranking(adj, rank));
}

/// The normal edges of a well-formed graph never form a cycle, so sorting
/// them (see `topological_sort`) always succeeds and lists every node; since
/// `connect` keeps the graph well formed, this holds after every `connect`.
pub proof fn lemma_well_formed_graph_sorts<I, D>(g: AudioGraph<I, D>)
    requires
        g.wf(),
    ensures
        is_acyclic(normal_adjacency(edge_lists(g@))),
{
    let lists = edge_lists(g@);
    let adj = normal_adjacency(lists);
    let rank = Seq::new(adj.len(), |u: int| u as nat);
    assert forall|u: int, e: int| 0 <= u < adj.len() && 0 <= e < adj[u].len() implies rank[u]
        < rank[(#[trigger] adj[u][e]) as int] by {
        lemma_normal_targets(lists[u]);
        let k = choose|k: int| 0 <= k < lists[u].len() && #[trigger] lists[u][k] == Edge::Normal(normal_targets(lists[u])[e]);
        assert(lists[u][k].target() == adj[u][e]);
    }
    assert(is_ranking(adj, rank));
}

/// Adding a forward normal edge to a well-formed graph leaves its normal
/// edges acyclic: the node order itself ranks them.
proof fn lemma_forward_edge_keeps_acyclic<I, D>(nodes: Seq<AudioGraphNode<I, D>>, f: int, t: usize)
    requires
        well_formed_edges(edge_lists(nodes)),
        0 <= f < t < nodes.len(),
    ensures
        is_acyclic(normal_adjacency(with_edge(nodes, f, Edge::Normal(t)))),
{
    let old_lists = edge_lists(nodes);
    let lists = with_edge(nodes, f, Edge::Normal(t));
    let adj = normal_adjacency(lists);
    let rank = Seq::new(adj.len(), |u: int| u as nat);
    assert forall|u: int, e: int| 0 <= u < adj.len() && 0 <= e < adj[u].len() implies rank[u]
        < rank[(#[trigger] adj[u][e]) as int] by {
        lemma_normal_targets(lists[u]);
        let k = choose|k: int| 0 <= k < lists[u].len() && #[trigger] lists[u][k] == Edge::Normal(normal_targets(lists[u])[e]);
        if u != f || k < old_lists[f].len() {
            assert(lists[u][k] == old_lists[u][k]);
        }
    }
    assert(is_ranking(adj, rank));
}

/// `rank` grows along every normal edge of `lists`.
pub open spec fn ranks_normal_edges(lists: Seq<Seq<Edge>>, rank: Seq<nat>) -> bool {
    &&& rank.len() == lists.len()
    &&& forall|u: int, k: int|
        0 <= u < lists.len() && 0 <= k < lists[u].len() && (#[trigger] lists[u][k]) is Normal
            ==> rank[u] < rank[lists[u][k].target() as int]
}

/// A ranking of the normal graph is exactly a ranking of the normal edges.
proof fn lemma_ranking_by_edges(lists: Seq<Seq<Edge>>, rank: Seq<nat>)
    requires
        valid_targets(lists),
        rank.len() == lists.len(),
    ensures
        is_ranking(normal_adjacency(lists), rank) <==> ranks_normal_edges(lists, rank),
{
    let adj = normal_adjacency(lists);
    if is_ranking(adj, rank) {
        assert forall|u: int, k: int|
            0 <= u < lists.len() && 0 <= k < lists[u].len() && (#[trigger] lists[u][k]) is Normal
                implies rank[u] < rank[lists[u][k].target() as int] by {
            lemma_normal_targets(lists[u]);
            assert(normal_targets(lists[u]).contains(lists[u][k].target()));
            let e = choose|e: int| 0 <= e < normal_targets(lists[u]).len() && normal_targets(lists[u])[e] == lists[u][k].target();
            assert(adj[u][e] == lists[u][k].target());
        }
    }
    if ranks_normal_edges(lists, rank) {
        assert forall|u: int, e: int| 0 <= u < adj.len() && 0 <= e < adj[u].len() implies rank[u]
            < rank[(#[trigger] adj[u][e]) as int] by {
            lemma_normal_targets(lists[u]);
            let k = choose|k: int| 0 <= k < lists[u].len() && #[trigger] lists[u][k] == Edge::Normal(normal_targets(lists[u])[e]);
            assert(lists[u][k] is Normal);
        }
    }
}

/// `lists` with edge `k` of node `u` made a normal edge.
pub open spec fn as_normal(lists: Seq<Seq<Edge>>, u: int, k: int) -> Seq<Seq<Edge>> {
    lists.update(u, lists[u].update(k, Edge::Normal(lists[u][k].target())))
}

/// Every feedback edge closes a cycle: taken as a normal edge, the normal
/// edges would have no topological order.
pub open spec fn feedback_closes_cycle(lists: Seq<Seq<Edge>>) -> bool {
    forall|u: int, k: int|
        0 <= u < lists.len() && 0 <= k < lists[u].len() && (#[trigger] lists[u][k]) is Feedback
            ==> !is_acyclic(normal_adjacency(as_normal(lists, u, k)))
}

/// If every normal edge of `a` is also a normal edge of `b`, a cycle of `a`
/// is one of `b`.
proof fn lemma_cycle_in_superset(a: Seq<Seq<Edge>>, b: Seq<Seq<Edge>>)
    requires
        valid_targets(a),
        valid_targets(b),
        a.len() == b.len(),
        forall|u: int, k: int|
            0 <= u < a.len() && 0 <= k < a[u].len() && (#[trigger] a[u][k]) is Normal ==> exists|k2: int|
                0 <= k2 < b[u].len() && #[trigger] b[u][k2] == a[u][k],
        !is_acyclic(normal_adjacency(a)),
    ensures
        !is_acyclic(normal_adjacency(b)),
{
    if is_acyclic(normal_adjacency(b)) {
        let rank = choose|rank: Seq<nat>| is_ranking(normal_adjacency(b), rank);
        lemma_ranking_by_edges(b, rank);
        assert forall|u: int, k: int|
            0 <= u < a.len() && 0 <= k < a[u].len() && (#[trigger] a[u][k]) is Normal implies rank[u]
                < rank[a[u][k].target() as int] by {
            let k2 = choose|k2: int| 0 <= k2 < b[u].len() && #[trigger] b[u][k2] == a[u][k];
        }
        lemma_ranking_by_edges(a, rank);
    }
}

/// Relabeling the nodes of a graph by a permutation keeps its cycles.
proof fn lemma_cycle_relabeled(a: Seq<Seq<Edge>>, b: Seq<Seq<Edge>>, perm: Seq<usize>)
    requires
        valid_targets(a),
        valid_targets(b),
        a.len() == b.len(),
        a.len() <= usize::MAX,
        is_permutation(perm, a.len()),
        forall|p: int| 0 <= p < b.len() ==> is_relabeling(a[perm[p] as int], #[trigger] b[p], perm),
        !is_acyclic(normal_adjacency(a)),
    ensures
        !is_acyclic(normal_adjacency(b)),
{
    if is_acyclic(normal_adjacency(b)) {
        let n = a.len() as usize;
        let rank = choose|rank: Seq<nat>| is_ranking(normal_adjacency(b), rank);
        lemma_ranking_by_edges(b, rank);
        lemma_permutation_covers(perm, n);
        let pos = Seq::new(a.len(), |x: int| choose|q: int| 0 <= q < perm.len() && perm[q] == x as usize);
        assert forall|x: int| 0 <= x < a.len() implies 0 <= #[trigger] pos[x] < perm.len() && perm[pos[x]] == x by {
            assert(perm.contains(x as usize));
        }
        let rank2 = Seq::new(a.len(), |x: int| rank[pos[x]]);
        assert forall|u: int, k: int|
            0 <= u < a.len() && 0 <= k < a[u].len() && (#[trigger] a[u][k]) is Normal implies rank2[u]
                < rank2[a[u][k].target() as int] by {
            let p = pos[u];
            assert(perm[p] == u);
            assert(is_relabeling(a[perm[p] as int], b[p], perm));
            let e = b[p][k];
            let q = e.target() as int;
            assert(e == a[u][k].with_target(e.target()));
            assert(perm[q] == a[u][k].target());
            let w = a[u][k].target() as int;
            assert(perm[pos[w]] == perm[q]);
            assert(pos[w] == q);
        }
        lemma_ranking_by_edges(a, rank2);
    }
}

/// Moving every node one place back keeps the cycles.
proof fn lemma_cycle_shifted(a: Seq<Seq<Edge>>, b: Seq<Seq<Edge>>)
    requires
        valid_targets(a),
        valid_targets(b),
        b.len() == a.len() + 1,
        b.len() <= usize::MAX,
        forall|x: int|
            0 <= x < a.len() ==> (#[trigger] b[x + 1]).len() == a[x].len() && forall|k: int|
                0 <= k < a[x].len() ==> #[trigger] b[x + 1][k] == a[x][k].shifted(),
        !is_acyclic(normal_adjacency(a)),
    ensures
        !is_acyclic(normal_adjacency(b)),
{
    if is_acyclic(normal_adjacency(b)) {
        let rank = choose|rank: Seq<nat>| is_ranking(normal_adjacency(b), rank);
        lemma_ranking_by_edges(b, rank);
        let rank2 = Seq::new(a.len(), |x: int| rank[x + 1]);
        assert forall|u: int, k: int|
            0 <= u < a.len() && 0 <= k < a[u].len() && (#[trigger] a[u][k]) is Normal implies rank2[u]
                < rank2[a[u][k].target() as int] by {
            assert(b[u + 1][k] == a[u][k].shifted());
            let t = a[u][k].target() as int;
            assert(b[u + 1][k].target() == t + 1);
            assert(b[u + 1][k] is Normal);
            assert(rank[u + 1] < rank[t + 1]);
        }
        lemma_ranking_by_edges(a, rank2);
    }
}

/// The feedback edges that a graph had keep closing cycles once an edge is
/// added.
proof fn lemma_with_edge_keeps_cycles<I, D>(nodes: Seq<AudioGraphNode<I, D>>, f: int, edge: Edge)
    requires
        well_formed_edges(edge_lists(nodes)),
        feedback_closes_cycle(edge_lists(nodes)),
        0 <= f < nodes.len(),
        edge.target() < nodes.len(),
    ensures
        forall|u: int, k: int|
            0 <= u < nodes.len() && 0 <= k < with_edge(nodes, f, edge)[u].len() && (u != f || k
                < edge_lists(nodes)[f].len()) && (#[trigger] with_edge(nodes, f, edge)[u][k]) is Feedback
                ==> !is_acyclic(normal_adjacency(as_normal(with_edge(nodes, f, edge), u, k))),
{
    let old_lists = edge_lists(nodes);
    let lists = with_edge(nodes, f, edge);
    assert forall|u: int, k: int|
        0 <= u < nodes.len() && 0 <= k < lists[u].len() && (u != f || k < old_lists[f].len())
            && (#[trigger] lists[u][k]) is Feedback implies !is_acyclic(
        normal_adjacency(as_normal(lists, u, k)),
    ) by {
        assert(lists[u][k] == old_lists[u][k]);
        let a = as_normal(old_lists, u, k);
        let b = as_normal(lists, u, k);
        assert forall|x: int, j: int|
            0 <= x < a.len() && 0 <= j < a[x].len() && (#[trigger] a[x][j]) is Normal implies exists|j2: int|
                0 <= j2 < b[x].len() && #[trigger] b[x][j2] == a[x][j] by {
            assert(b[x][j] == a[x][j]);
        }
        lemma_cycle_in_superset(a, b);
    }
}

/// Reordering keeps every feedback edge closing a cycle.
proof fn lemma_reordered_keeps_cycles<I, D>(
    lists: Seq<Seq<Edge>>,
    new: Seq<AudioGraphNode<I, D>>,
    perm: Seq<usize>,
)
    requires
        valid_targets(lists),
        feedback_closes_cycle(lists),
        lists.len() <= usize::MAX,
        is_permutation(perm, lists.len()),
        exists|old: Seq<AudioGraphNode<I, D>>| is_reordering(old, lists, new, perm),
    ensures
        feedback_closes_cycle(edge_lists(new)),
{
    let old = choose|old: Seq<AudioGraphNode<I, D>>| is_reordering(old, lists, new, perm);
    let nl = edge_lists(new);
    assert forall|p: int, k: int|
        0 <= p < nl.len() && 0 <= k < nl[p].len() && (#[trigger] nl[p][k]) is Feedback implies !is_acyclic(
        normal_adjacency(as_normal(nl, p, k)),
    ) by {
        let u = perm[p] as int;
        assert(is_relabeling(lists[u], new[p].spec_edges(), perm));
        assert(nl[p][k] == new[p].spec_edges()[k]);
        assert(lists[u][k] is Feedback);
        let a = as_normal(lists, u, k);
        let b = as_normal(nl, p, k);
        assert forall|x: int| 0 <= x < b.len() implies is_relabeling(a[perm[x] as int], #[trigger] b[x], perm) by {
            assert(is_relabeling(lists[perm[x] as int], new[x].spec_edges(), perm));
            if x != p {
                assert(perm[x] != perm[p]);
            }
        }
        assert forall|u2: int, k2: int| 0 <= u2 < b.len() && 0 <= k2 < b[u2].len() implies (#[trigger] b[u2][k2]).target() < b.len() by {
            assert(is_relabeling(lists[perm[u2] as int], new[u2].spec_edges(), perm));
        }
        lemma_cycle_relabeled(a, b, perm);
    }
}

/// In a well-formed graph every feedback edge leads from a node to itself or
/// to an earlier node, so in the processing order what it carries is read
/// one block late.
pub proof fn lemma_feedback_edges_lead_back<I, D>(g: AudioGraph<I, D>)
    requires
        g.wf(),
    ensures
        forall|u: int, k: int|
            0 <= u < g@.len() && 0 <= k < g@[u].spec_edges().len() && (#[trigger] g@[u].spec_edges()[k]) is Feedback
                ==> g@[u].spec_edges()[k].target() <= u,
{
    let lists = edge_lists(g@);
    assert forall|u: int, k: int|
        0 <= u < g@.len() && 0 <= k < g@[u].spec_edges().len() && (#[trigger] g@[u].spec_edges()[k]) is Feedback
            implies g@[u].spec_edges()[k].target() <= u by {
        assert(lists[u][k] == g@[u].spec_edges()[k]);
        if lists[u][k].target() > u {
            let a = as_normal(lists, u, k);
            let rank = Seq::new(a.len(), |x: int| x as nat);
            assert forall|x: int, j: int|
                0 <= x < a.len() && 0 <= j < a[x].len() && (#[trigger] a[x][j]) is Normal implies rank[x]
                    < rank[a[x][j].target() as int] by {
                if x != u || j != k {
                    assert(a[x][j] == lists[x][j]);
                }
            }
            assert forall|x: int, j: int| 0 <= x < a.len() && 0 <= j < a[x].len() implies (#[trigger] a[x][j]).target() < a.len() by {
                assert(a[x][j].target() == lists[x][j].target());
            }
            lemma_ranking_by_edges(a, rank);
        }
    }
}

/// No list holds two edges to the same target.
pub open spec fn distinct_targets(lists: Seq<Seq<Edge>>) -> bool {
    forall|u: int, k: int, k2: int|
        #![trigger lists[u][k], lists[u][k2]]
        0 <= u < lists.len() && 0 <= k < lists[u].len() && 0 <= k2 < lists[u].len() && k != k2
            ==> lists[u][k].target() != lists[u][k2].target()
}

/// Every edge target names a node.
pub open spec fn valid_targets(lists: Seq<Seq<Edge>>) -> bool {
    forall|u: int, k: int|
        0 <= u < lists.len() && 0 <= k < lists[u].len() ==> (#[trigger] lists[u][k]).target() < lists.len()
}

proof fn lemma_valid_normal_adjacency(lists: Seq<Seq<Edge>>)
    requires
        valid_targets(lists),
    ensures
        valid_adjacency(normal_adjacency(lists)),
{
    let adj = normal_adjacency(lists);
    assert forall|u: int, e: int| 0 <= u < adj.len() && 0 <= e < adj[u].len() implies (#[trigger] adj[u][e]) < adj.len() by {
        lemma_normal_targets(lists[u]);
        let k = choose|k: int| 0 <= k < lists[u].len() && #[trigger] lists[u][k] == Edge::Normal(normal_targets(lists[u])[e]);
        assert(lists[u][k].target() == adj[u][e]);
    }
}

/// Position of `t` in the permutation `perm`.
pub(crate) fn index_in(perm: &Vec<usize>, t: usize) -> (r: usize)
    requires
        perm@.contains(t),
    ensures
        r < perm@.len(),
        perm@[r as int] == t,
{
    let n = perm.len();
    let mut p: usize = 0;
    while perm[p] != t
        invariant
            n == perm@.len(),
            p < n,
            exists|q: int| p <= q < n && perm@[q] == t,
        decreases n - p,
    {
        p = p + 1;
    }
    p
}

} // verus!
