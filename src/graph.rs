use vstd::prelude::*;

use crate::error::VettoreError;
use crate::topk::{is_best_k, precedes, ranks_before, select_best};

verus! {

/// Most links a node keeps on a layer above the ground layer.
pub const M: usize = 16;

/// Most links a node keeps on the ground layer.
pub const M0: usize = 32;

/// Beam width while a node is being linked in.
pub const EF_CONSTRUCTION: usize = 100;

/// Beam width while answering a query.
pub const EF_SEARCH: usize = 64;

/// Highest layer a node can reach.
pub const MAX_LEVEL: usize = 12;

/// How many links a node keeps on `layer`.
pub open spec fn link_limit(layer: nat) -> nat {
    if layer == 0 {
        M0 as nat
    } else {
        M as nat
    }
}

/// The abstract content of one node: its top layer and, for each layer from 0
/// to the top one, the ids it links to.
pub struct NodeView {
    pub layer: nat,
    pub links: Seq<Seq<usize>>,
}

/// The abstract state of the graph: the node of each id (`None` where there is
/// none) and the entry point.
pub struct GraphView {
    pub nodes: Seq<Option<NodeView>>,
    pub entry: Option<usize>,
}

impl GraphView {
    pub open spec fn is_live(self, n: int) -> bool {
        0 <= n < self.nodes.len() && self.nodes[n] is Some
    }

    pub open spec fn node(self, n: int) -> NodeView {
        self.nodes[n].unwrap()
    }

    /// Every node has one list per layer; every link goes to another live node
    /// that reaches the link's layer, at most once, and within the layer's limit;
    /// the entry point exists exactly when a node does, and no node reaches a
    /// higher layer than it.
    pub open spec fn consistent(self) -> bool {
        &&& forall|n: int| #[trigger]
            self.is_live(n) ==> self.node(n).links.len() == self.node(n).layer + 1
                && self.node(n).layer <= MAX_LEVEL
        &&& forall|n: int, l: int, i: int|
            self.is_live(n) && 0 <= l < self.node(n).links.len() && 0 <= i
                < self.node(n).links[l].len() ==> {
                let t = #[trigger] self.node(n).links[l][i];
                &&& self.is_live(t as int)
                &&& t != n
                &&& self.node(t as int).layer >= l
            }
        &&& forall|n: int, l: int|
            self.is_live(n) && 0 <= l < self.node(n).links.len() ==> {
                &&& (#[trigger] self.node(n).links[l]).len() <= link_limit(l as nat)
                &&& self.node(n).links[l].no_duplicates()
            }
        &&& self.entry is Some <==> exists|n: int| self.is_live(n)
        &&& self.entry is Some ==> self.is_live(self.entry.unwrap() as int)
        &&& self.entry is Some ==> forall|n: int| #[trigger]
            self.is_live(n) ==> self.node(n).layer <= self.node(self.entry.unwrap() as int).layer
    }
}

impl GraphView {
    /// The graph with a new node `id` that reaches `level` and has no links yet;
    /// it becomes the entry point when it is the first node or reaches higher
    /// than the entry point.
    pub open spec fn with_node(self, id: int, level: nat) -> GraphView {
        let node = NodeView { layer: level, links: Seq::new(level + 1, |l: int| Seq::<usize>::empty()) };
        GraphView {
            nodes: Seq::new(
                if id < self.nodes.len() {
                    self.nodes.len()
                } else {
                    (id + 1) as nat
                },
                |n: int|
                    if n == id {
                        Some(node)
                    } else if n < self.nodes.len() {
                        self.nodes[n]
                    } else {
                        None
                    },
            ),
            entry: if self.entry is None || level > self.node(self.entry.unwrap() as int).layer {
                Some(id as usize)
            } else {
                self.entry
            },
        }
    }

    /// Node `id` may link to `t` on `layer`.
    pub open spec fn link_ok(self, id: int, layer: nat, t: usize) -> bool {
        &&& self.is_live(t as int)
        &&& t != id
        &&& self.node(t as int).layer >= layer
    }

    /// The candidates of `ranked` that node `id` may link to on `layer`, in
    /// their order, each id kept at its first occurrence only.
    pub open spec fn usable(self, id: int, layer: nat, ranked: Seq<(usize, u64)>) -> Seq<(usize, u64)>
        decreases ranked.len(),
    {
        if ranked.len() == 0 {
            Seq::empty()
        } else {
            let rest = self.usable(id, layer, ranked.drop_last());
            let x = ranked.last();
            if self.link_ok(id, layer, x.0) && !has_id(rest, x.0) {
                rest.push(x)
            } else {
                rest
            }
        }
    }

    /// The graph with node `id`'s list on `layer` replaced by `list`.
    pub open spec fn with_links(self, id: int, layer: int, list: Seq<usize>) -> GraphView {
        GraphView {
            nodes: self.nodes.update(
                id,
                Some(
                    NodeView {
                        layer: self.node(id).layer,
                        links: self.node(id).links.update(layer, list),
                    },
                ),
            ),
            entry: self.entry,
        }
    }
}

/// `s` with every occurrence of `t` taken out.
pub open spec fn without_id(s: Seq<usize>, t: usize) -> Seq<usize>
    decreases s.len(),
{
    if s.len() == 0 {
        s
    } else {
        let rest = without_id(s.drop_last(), t);
        if s.last() == t {
            rest
        } else {
            rest.push(s.last())
        }
    }
}

/// A node with every link to `t` taken out.
pub open spec fn node_without(v: NodeView, t: usize) -> NodeView {
    NodeView { layer: v.layer, links: Seq::new(v.links.len(), |l: int| without_id(v.links[l], t)) }
}

impl GraphView {
    /// The nodes once node `id` is gone and every link to it is taken out.
    pub open spec fn nodes_without(self, id: int) -> Seq<Option<NodeView>> {
        Seq::new(
            self.nodes.len(),
            |n: int|
                if n == id {
                    None
                } else {
                    match self.nodes[n] {
                        Some(v) => Some(node_without(v, id as usize)),
                        None => None,
                    }
                },
        )
    }
}

proof fn lemma_without_id(s: Seq<usize>, t: usize)
    ensures
        forall|x: usize| #[trigger] without_id(s, t).contains(x) <==> (s.contains(x) && x != t),
        without_id(s, t).len() <= s.len(),
        s.no_duplicates() ==> without_id(s, t).no_duplicates(),
    decreases s.len(),
{
    if s.len() > 0 {
        let init = s.drop_last();
        lemma_without_id(init, t);
        let rest = without_id(init, t);
        assert forall|x: usize| #[trigger] without_id(s, t).contains(x) <==> (s.contains(x) && x != t) by {
            if s.contains(x) && x != t {
                let i = choose|i: int| 0 <= i < s.len() && s[i] == x;
                if i < s.len() - 1 {
                    assert(init[i] == x);
                    assert(rest.contains(x));
                    if s.last() != t {
                        let j = choose|j: int| 0 <= j < rest.len() && rest[j] == x;
                        assert(without_id(s, t)[j] == x);
                    }
                } else {
                    assert(without_id(s, t)[rest.len() as int] == x);
                }
            }
            if without_id(s, t).contains(x) {
                let j = choose|j: int| 0 <= j < without_id(s, t).len() && without_id(s, t)[j] == x;
                if j < rest.len() {
                    assert(rest[j] == x);
                    assert(rest.contains(x));
                    let i = choose|i: int| 0 <= i < init.len() && init[i] == x;
                    assert(s[i] == x);
                } else {
                    assert(s[s.len() - 1] == x);
                }
            }
        }
        if s.no_duplicates() {
            assert(init.no_duplicates());
            if s.last() != t {
                assert(!init.contains(s.last()));
                assert(!rest.contains(s.last()));
            }
        }
    }
}

/// Some candidate of `s` has id `t`.
pub open spec fn has_id(s: Seq<(usize, u64)>, t: usize) -> bool {
    exists|i: int| 0 <= i < s.len() && #[trigger] s[i].0 == t
}

/// The ids of a list of candidates.
pub open spec fn ids_of(s: Seq<(usize, u64)>) -> Seq<usize> {
    Seq::new(s.len(), |i: int| s[i].0)
}

proof fn lemma_usable_props(g: GraphView, id: int, layer: nat, ranked: Seq<(usize, u64)>)
    ensures
        forall|i: int|
            0 <= i < g.usable(id, layer, ranked).len() ==> g.link_ok(
                id,
                layer,
                (#[trigger] g.usable(id, layer, ranked)[i]).0,
            ),
        forall|i: int, j: int|
            0 <= i < j < g.usable(id, layer, ranked).len() ==> (#[trigger] g.usable(
                id,
                layer,
                ranked,
            )[i]).0 != (#[trigger] g.usable(id, layer, ranked)[j]).0,
    decreases ranked.len(),
{
    if ranked.len() > 0 {
        lemma_usable_props(g, id, layer, ranked.drop_last());
        let rest = g.usable(id, layer, ranked.drop_last());
        let u = g.usable(id, layer, ranked);
        assert forall|i: int, j: int| 0 <= i < j < u.len() implies (#[trigger] u[i]).0 != (
        #[trigger] u[j]).0 by {
            if j == rest.len() {
                assert(u[i] == rest[i]);
                assert(!has_id(rest, u[j].0));
            } else {
                assert(u[i] == rest[i] && u[j] == rest[j]);
            }
        }
        assert forall|i: int| 0 <= i < u.len() implies g.link_ok(id, layer, (#[trigger] u[i]).0) by {
            if i < rest.len() {
                assert(u[i] == rest[i]);
            }
        }
    }
}

/// `b` has the same nodes as `a`, each reaching the same layer, and the same
/// entry point; only links may differ.
pub open spec fn same_nodes(a: GraphView, b: GraphView) -> bool {
    &&& a.nodes.len() == b.nodes.len()
    &&& forall|n: int| #[trigger] a.is_live(n) == b.is_live(n)
    &&& forall|n: int| a.is_live(n) ==> #[trigger] a.node(n).layer == b.node(n).layer
    &&& a.entry == b.entry
}

/// The number of `false` entries of `v`.
pub open spec fn unvisited(v: Seq<bool>) -> nat
    decreases v.len(),
{
    if v.len() == 0 {
        0
    } else {
        unvisited(v.drop_last()) + if v.last() {
            0nat
        } else {
            1nat
        }
    }
}

proof fn lemma_mark_visited(v: Seq<bool>, i: int)
    requires
        0 <= i < v.len(),
        !v[i],
    ensures
        unvisited(v.update(i, true)) + 1 == unvisited(v),
    decreases v.len(),
{
    let w = v.update(i, true);
    if i < v.len() - 1 {
        assert(w.drop_last() =~= v.drop_last().update(i, true));
        lemma_mark_visited(v.drop_last(), i);
    } else {
        assert(w.drop_last() =~= v.drop_last());
    }
}

/// `r` lists distinct live nodes, nearest first (lower rank first, ties to the
/// lower id), each with the rank that `dist` gave it.
pub open spec fn ranked_nodes<F: Fn(usize) -> u64>(g: GraphView, dist: F, r: Seq<(usize, u64)>) -> bool {
    &&& forall|i: int, j: int| 0 <= i < j < r.len() ==> ranks_before(#[trigger] r[i], #[trigger] r[j])
    &&& forall|i: int, j: int|
        0 <= i < r.len() && 0 <= j < r.len() && i != j ==> (#[trigger] r[i]).0 != (#[trigger] r[j]).0
    &&& forall|i: int|
        0 <= i < r.len() ==> g.is_live((#[trigger] r[i]).0 as int) && dist.ensures((r[i].0,), r[i].1)
}

/// Inserts `x` into a list ordered by `ranks_before`, keeping the order.
fn insert_ranked(list: &mut Vec<(usize, u64)>, x: (usize, u64))
    requires
        forall|i: int, j: int|
            0 <= i < j < old(list)@.len() ==> ranks_before(#[trigger] old(list)@[i], #[trigger] old(list)@[j]),
        forall|i: int| 0 <= i < old(list)@.len() ==> (#[trigger] old(list)@[i]).0 != x.0,
    ensures
        forall|i: int, j: int|
            0 <= i < j < final(list)@.len() ==> ranks_before(#[trigger] final(list)@[i], #[trigger] final(list)@[j]),
        final(list)@.len() == old(list)@.len() + 1,
        forall|y: (usize, u64)| #[trigger] final(list)@.contains(y) <==> (old(list)@.contains(y) || y == x),
        old(list)@.len() > 0 ==> final(list)@[old(list)@.len() - 1].1 <= old(list)@.last().1,
{
    let mut p: usize = 0;
    while p < list.len() && !precedes(x, list[p])
        invariant
            p <= list@.len(),
            forall|i: int| 0 <= i < p ==> ranks_before(#[trigger] list@[i], x),
            forall|i: int, j: int| 0 <= i < j < list@.len() ==> ranks_before(#[trigger] list@[i], #[trigger] list@[j]),
            forall|i: int| 0 <= i < list@.len() ==> (#[trigger] list@[i]).0 != x.0,
        decreases list@.len() - p,
    {
        p = p + 1;
    }
    let ghost before = list@;
    list.insert(p, x);
    proof {
        assert(list@ == before.insert(p as int, x));
        before.insert_ensures(p as int, x);
        assert forall|i: int, j: int| 0 <= i < j < list@.len() implies ranks_before(
            #[trigger] list@[i],
            #[trigger] list@[j],
        ) by {
            if p < before.len() {
                assert(ranks_before(x, before[p as int]));
            }
            if i < p && j > p {
                assert(ranks_before(before[i], x));
            }
        }
        assert forall|y: (usize, u64)| #[trigger] list@.contains(y) <==> (before.contains(y) || y == x) by {
            if list@.contains(y) {
                let k = choose|k: int| 0 <= k < list@.len() && list@[k] == y;
                if k < p {
                    assert(before[k] == y);
                } else if k > p {
                    assert(before[k - 1] == y);
                }
            }
            if before.contains(y) {
                let k = choose|k: int| 0 <= k < before.len() && before[k] == y;
                if k < p {
                    assert(list@[k] == y);
                } else {
                    assert(list@[k + 1] == y);
                }
            }
            if y == x {
                assert(list@[p as int] == x);
            }
        }
        if before.len() > 0 && p < before.len() {
            assert(list@[before.len() as int] == before.last());
            assert(ranks_before(list@[before.len() - 1], list@[before.len() as int]));
        }
    }
}

/// `list` is the nearest `link_limit(layer)` (by `ids_of` of `is_best_k`) of
/// some candidates, each ranked by `rank`, that node `id` may link to in `g`.
pub open spec fn chosen_links<F: Fn(usize) -> u64>(g: GraphView, rank: F, id: int, layer: int, list: Seq<usize>) -> bool {
    exists|cands: Seq<(usize, u64)>, best: Seq<(usize, u64)>|
        #![trigger is_best_k(g.usable(id, layer as nat, cands), link_limit(layer as nat), best)]
        (forall|i: int| 0 <= i < cands.len() ==> rank.ensures(((#[trigger] cands[i]).0,), cands[i].1))
            && is_best_k(g.usable(id, layer as nat, cands), link_limit(layer as nat), best) && list == ids_of(best)
}

proof fn lemma_usable_same_nodes(a: GraphView, b: GraphView, id: int, layer: nat, ranked: Seq<(usize, u64)>)
    requires
        same_nodes(a, b),
    ensures
        a.usable(id, layer, ranked) == b.usable(id, layer, ranked),
    decreases ranked.len(),
{
    if ranked.len() > 0 {
        lemma_usable_same_nodes(a, b, id, layer, ranked.drop_last());
        let t = ranked.last().0 as int;
        assert(a.is_live(t) == b.is_live(t));
        if a.is_live(t) {
            assert(a.node(t).layer == b.node(t).layer);
        }
        assert(a.link_ok(id, layer, ranked.last().0) == b.link_ok(id, layer, ranked.last().0));
    }
}

/// `list` is the nearest `link_limit(layer)` of some candidates, among them
/// `id`, each ranked by `pair(nb, _)`, that node `nb` may link to in `g`.
pub open spec fn repruned_links<G: Fn(usize, usize) -> u64>(
    g: GraphView,
    pair: G,
    nb: usize,
    id: usize,
    layer: int,
    list: Seq<usize>,
) -> bool {
    exists|cands: Seq<(usize, u64)>, best: Seq<(usize, u64)>|
        #![trigger is_best_k(g.usable(nb as int, layer as nat, cands), link_limit(layer as nat), best)]
        (forall|i: int| 0 <= i < cands.len() ==> pair.ensures((nb, (#[trigger] cands[i]).0), cands[i].1))
            && has_id(cands, id) && is_best_k(g.usable(nb as int, layer as nat, cands), link_limit(layer as nat), best)
            && list == ids_of(best)
}

/// The first `upto` neighbours of `id` on `layer` in `cur` each had their list
/// there re-pruned with `id` among the candidates (judged against `g`).
pub open spec fn neighbours_repruned<G: Fn(usize, usize) -> u64>(
    g: GraphView,
    cur: GraphView,
    pair: G,
    id: usize,
    layer: int,
    upto: int,
) -> bool {
    forall|j: int|
        0 <= j < upto ==> repruned_links(
            g,
            pair,
            #[trigger] cur.node(id as int).links[layer][j],
            id,
            layer,
            cur.node(cur.node(id as int).links[layer][j] as int).links[layer],
        )
}

/// `dist` ranks node `n` no nearer than `bound`.
pub open spec fn ranked_at_least<F: Fn(usize) -> u64>(dist: F, n: usize, bound: u64) -> bool {
    exists|rn: u64| dist.ensures((n,), rn) && rn >= bound
}

/// Every link of node `x` on `layer` goes to a node in `seen`: the search has
/// ranked all of `x`'s neighbours there.
pub open spec fn links_seen(g: GraphView, x: usize, layer: int, seen: Map<usize, u64>) -> bool {
    layer < g.node(x as int).links.len() ==> forall|j: int|
        0 <= j < g.node(x as int).links[layer].len() ==> seen.contains_key(
            #[trigger] g.node(x as int).links[layer][j],
        )
}

/// What a beam search from `entry` on `layer` with width `ef` leaves: `seen`
/// holds each node it ranked, with the rank `dist` gave it, the entry point
/// among them; every kept node was expanded (all its neighbours on `layer`
/// were ranked); and a ranked node that was not kept ranks no nearer than the
/// last kept one, which only happens once `ef` nodes are kept.
pub open spec fn beam_outcome<F: Fn(usize) -> u64>(
    g: GraphView,
    dist: F,
    entry: usize,
    layer: int,
    ef: nat,
    r: Seq<(usize, u64)>,
    seen: Map<usize, u64>,
) -> bool {
    &&& forall|x: usize| #[trigger]
        seen.contains_key(x) ==> g.is_live(x as int) && dist.ensures((x,), seen[x])
    &&& g.is_live(entry as int) ==> seen.contains_key(entry)
    &&& forall|i: int|
        0 <= i < r.len() ==> seen.contains_key((#[trigger] r[i]).0) && seen[r[i].0] == r[i].1
            && links_seen(g, r[i].0, layer, seen)
    &&& forall|x: usize| #[trigger]
        seen.contains_key(x) ==> has_id(r, x) || (r.len() == ef && seen[x] >= r.last().1)
}

proof fn lemma_links_seen_grows(g: GraphView, x: usize, layer: int, seen: Map<usize, u64>, more: Map<usize, u64>)
    requires
        links_seen(g, x, layer, seen),
        forall|y: usize| #[trigger] seen.contains_key(y) ==> more.contains_key(y),
    ensures
        links_seen(g, x, layer, more),
{
    if layer < g.node(x as int).links.len() {
        assert forall|j: int| 0 <= j < g.node(x as int).links[layer].len() implies more.contains_key(
            #[trigger] g.node(x as int).links[layer][j],
        ) by {
            assert(seen.contains_key(g.node(x as int).links[layer][j]));
        }
    }
}

proof fn lemma_usable_nonempty(g: GraphView, id: int, layer: nat, ranked: Seq<(usize, u64)>)
    requires
        ranked.len() > 0,
        g.link_ok(id, layer, ranked.last().0),
    ensures
        g.usable(id, layer, ranked).len() > 0,
{
    let rest = g.usable(id, layer, ranked.drop_last());
    if has_id(rest, ranked.last().0) {
        assert(rest.len() > 0);
    }
}

/// One node: its top layer and its links per layer.
pub struct GraphNode {
    layer: usize,
    links: Vec<Vec<usize>>,
}

impl View for GraphNode {
    type V = NodeView;

    closed spec fn view(&self) -> NodeView {
        NodeView {
            layer: self.layer as nat,
            links: Seq::new(self.links@.len(), |l: int| self.links@[l]@),
        }
    }
}

/// The layered proximity graph of an HNSW index, nodes addressed by id.
pub struct HnswIndex {
    nodes: Vec<Option<GraphNode>>,
    entry: Option<usize>,
}

impl View for HnswIndex {
    type V = GraphView;

    closed spec fn view(&self) -> GraphView {
        GraphView {
            nodes: Seq::new(
                self.nodes@.len(),
                |n: int|
                    match self.nodes@[n] {
                        Some(g) => Some(g@),
                        None => None,
                    },
            ),
            entry: self.entry,
        }
    }
}

impl HnswIndex {
    /// The graph's invariant.
    pub open spec fn wf(&self) -> bool {
        self@.consistent()
    }

    /// An empty graph.
    pub fn new() -> (r: HnswIndex)
        ensures
            r.wf(),
            r@.nodes.len() == 0,
            r@.entry is None,
    {
        HnswIndex { nodes: Vec::new(), entry: None }
    }

    /// Whether a node with this id exists.
    pub fn contains(&self, id: usize) -> (r: bool)
        ensures
            r == self@.is_live(id as int),
    {
        id < self.nodes.len() && self.nodes[id].is_some()
    }

    /// The entry point, if the graph has a node.
    pub fn entry(&self) -> (r: Option<usize>)
        ensures
            r == self@.entry,
    {
        self.entry
    }

    /// The top layer of a node, if it exists.
    pub fn layer_of(&self, id: usize) -> (r: Option<usize>)
        ensures
            self@.is_live(id as int) == r is Some,
            r is Some ==> r.unwrap() == self@.node(id as int).layer,
    {
        if id < self.nodes.len() {
            match &self.nodes[id] {
                Some(node) => Some(node.layer),
                None => None,
            }
        } else {
            None
        }
    }

    /// The ids a node links to on `layer`; empty where the node does not exist
    /// or does not reach that layer.
    pub fn neighbours(&self, id: usize, layer: usize) -> (r: Vec<usize>)
        ensures
            self@.is_live(id as int) && layer < self@.node(id as int).links.len() ==> r@
                == self@.node(id as int).links[layer as int],
            !(self@.is_live(id as int) && layer < self@.node(id as int).links.len()) ==> r@.len()
                == 0,
    {
        if id < self.nodes.len() {
            match &self.nodes[id] {
                Some(node) => {
                    if layer < node.links.len() {
                        return node.links[layer].clone();
                    }
                },
                None => {},
            }
        }
        Vec::new()
    }

    /// Adds node `id` reaching `level`, with no links yet; it becomes the entry
    /// point when it is the first node or reaches higher than the entry point.
    pub fn add(&mut self, id: usize, level: usize) -> (r: Result<(), VettoreError>)
        requires
            old(self).wf(),
            id < usize::MAX,
            level <= MAX_LEVEL,
        ensures
            final(self).wf(),
            old(self)@.is_live(id as int) ==> r == Err::<(), VettoreError>(VettoreError::DuplicateId)
                && final(self)@ == old(self)@,
            !old(self)@.is_live(id as int) ==> r == Ok::<(), VettoreError>(()) && final(self)@
                == old(self)@.with_node(id as int, level as nat),
    {
        if self.contains(id) {
            return Err(VettoreError::DuplicateId);
        }
        let ghost before = self@;
        let ghost raw = self.nodes@;
        while self.nodes.len() <= id
            invariant
                id < usize::MAX,
                self.entry == before.entry,
                self.nodes@.len() >= raw.len(),
                raw.len() <= id + 1 ==> self.nodes@.len() <= id + 1,
                raw.len() > id + 1 ==> self.nodes@.len() == raw.len(),
                forall|n: int| 0 <= n < raw.len() ==> #[trigger] self.nodes@[n] == raw[n],
                forall|n: int| raw.len() <= n < self.nodes@.len() ==> #[trigger] self.nodes@[n] is None,
            decreases id + 1 - self.nodes@.len(),
        {
            self.nodes.push(None);
        }
        let mut links: Vec<Vec<usize>> = Vec::new();
        let mut l: usize = 0;
        while l <= level
            invariant
                level <= MAX_LEVEL,
                l <= level + 1,
                links@.len() == l,
                forall|k: int| 0 <= k < l ==> (#[trigger] links@[k])@.len() == 0,
            decreases level + 1 - l,
        {
            links.push(Vec::new());
            l = l + 1;
        }
        let promote = match self.entry {
            None => true,
            Some(e) => match &self.nodes[e] {
                Some(node) => level > node.layer,
                None => true,
            },
        };
        let ghost mid = self@;
        let node = GraphNode { layer: level, links };
        assert forall|k: int| 0 <= k <= level implies #[trigger] node@.links[k] =~= Seq::<usize>::empty() by {
            assert(node@.links[k] == links@[k]@);
        }
        assert(node@.links =~= Seq::new((level + 1) as nat, |k: int| Seq::<usize>::empty()));
        self.nodes[id] = Some(node);
        if promote {
            self.entry = Some(id);
        }
        proof {
            let after = before.with_node(id as int, level as nat);
            assert forall|n: int| 0 <= n < after.nodes.len() implies #[trigger] self@.nodes[n]
                == after.nodes[n] by {
                if n != id {
                    assert(self@.nodes[n] == mid.nodes[n]);
                    if n < raw.len() {
                        assert(mid.nodes[n] == before.nodes[n]);
                    }
                }
            }
            assert(self@.nodes =~= after.nodes);
            assert(self@ == after);
            assert forall|n: int| #[trigger] after.is_live(n) implies after.node(n).links.len()
                == after.node(n).layer + 1 by {
                if n != id {
                    assert(before.is_live(n));
                }
            }
            assert forall|n: int, k: int, i: int|
                after.is_live(n) && 0 <= k < after.node(n).links.len() && 0 <= i
                    < after.node(n).links[k].len() implies {
                let t = #[trigger] after.node(n).links[k][i];
                &&& after.is_live(t as int)
                &&& t != n
                &&& after.node(t as int).layer >= k
            } by {
                assert(n != id);
                assert(before.is_live(n));
                let t = before.node(n).links[k][i];
                assert(before.is_live(t as int));
                assert(t != id);
            }
            assert forall|n: int, k: int|
                after.is_live(n) && 0 <= k < after.node(n).links.len() implies {
                &&& (#[trigger] after.node(n).links[k]).len() <= link_limit(k as nat)
                &&& after.node(n).links[k].no_duplicates()
            } by {
                if n != id {
                    assert(before.is_live(n));
                }
            }
            assert(after.is_live(id as int));
            if before.entry is Some {
                let e = before.entry.unwrap() as int;
                assert(before.is_live(e));
                assert(after.node(e) == before.node(e));
            }
            assert forall|n: int| #[trigger] after.is_live(n) implies after.node(n).layer <= after.node(
                after.entry.unwrap() as int,
            ).layer by {
                if n != id {
                    assert(before.is_live(n));
                }
            }
        }
        Ok(())
    }

    /// Replaces node `id`'s list on `layer` by the nearest `link_limit(layer)` of
    /// the ranked candidates (lower rank nearer, ties to the lower id) that it
    /// may link to; of repeated ids only the first occurrence counts.
    pub fn set_links(&mut self, id: usize, layer: usize, ranked: &[(usize, u64)])
        requires
            old(self).wf(),
            old(self)@.is_live(id as int),
            layer <= old(self)@.node(id as int).layer,
        ensures
            final(self).wf(),
            exists|best: Seq<(usize, u64)>|
                is_best_k(
                    old(self)@.usable(id as int, layer as nat, ranked@),
                    link_limit(layer as nat),
                    best,
                ) && final(self)@ == old(self)@.with_links(id as int, layer as int, ids_of(best)),
    {
        let ghost g = self@;
        let mut usable: Vec<(usize, u64)> = Vec::new();
        let mut i: usize = 0;
        while i < ranked.len()
            invariant
                self@ == g,
                i <= ranked@.len(),
                usable@ == g.usable(id as int, layer as nat, ranked@.subrange(0, i as int)),
            decreases ranked@.len() - i,
        {
            let x = ranked[i];
            let ok = match self.layer_of(x.0) {
                Some(t_layer) => x.0 != id && t_layer >= layer,
                None => false,
            };
            let mut seen = false;
            let mut j: usize = 0;
            while j < usable.len()
                invariant
                    j <= usable@.len(),
                    seen == exists|m: int| 0 <= m < j && #[trigger] usable@[m].0 == x.0,
                decreases usable@.len() - j,
            {
                if usable[j].0 == x.0 {
                    seen = true;
                }
                j = j + 1;
            }
            proof {
                assert(ranked@.subrange(0, i + 1).drop_last() =~= ranked@.subrange(0, i as int));
            }
            if ok && !seen {
                usable.push(x);
            }
            i = i + 1;
        }
        proof {
            assert(ranked@.subrange(0, ranked@.len() as int) =~= ranked@);
            lemma_usable_props(g, id as int, layer as nat, ranked@);
        }
        let limit = if layer == 0 { M0 } else { M };
        let best = select_best(usable.as_slice(), limit);
        let mut list: Vec<usize> = Vec::new();
        let mut k: usize = 0;
        while k < best.len()
            invariant
                k <= best@.len(),
                list@ == ids_of(best@.subrange(0, k as int)),
            decreases best@.len() - k,
        {
            list.push(best[k].0);
            proof {
                assert(list@ =~= ids_of(best@.subrange(0, k + 1)));
            }
            k = k + 1;
        }
        proof {
            assert(best@.subrange(0, best@.len() as int) =~= best@);
            let u = g.usable(id as int, layer as nat, ranked@);
            assert forall|a: int, b: int| 0 <= a < list@.len() && 0 <= b < list@.len() && a != b implies list@[a] != list@[b] by {
                assert(u.contains(best@[a]) && u.contains(best@[b]));
                let ia = choose|ia: int| 0 <= ia < u.len() && u[ia] == best@[a];
                let ib = choose|ib: int| 0 <= ib < u.len() && u[ib] == best@[b];
                if a < b {
                    assert(is_best_k(u, link_limit(layer as nat), best@));
                    assert(crate::topk::ranks_before(best@[a], best@[b]));
                } else {
                    assert(crate::topk::ranks_before(best@[b], best@[a]));
                }
                if ia != ib {
                    if ia < ib {
                        assert(u[ia].0 != u[ib].0);
                    } else {
                        assert(u[ib].0 != u[ia].0);
                    }
                }
            }
        }
        self.replace_links(id, layer, list);
        proof {
            let after = g.with_links(id as int, layer as int, ids_of(best@));
            assert(self@ == after);
            let u = g.usable(id as int, layer as nat, ranked@);
            assert(limit as nat == link_limit(layer as nat));
            assert(is_best_k(u, link_limit(layer as nat), best@));
            assert forall|n: int| #[trigger] after.is_live(n) implies g.is_live(n) && after.node(n).layer
                == g.node(n).layer && after.node(n).links.len() == g.node(n).links.len() by {
            }
            assert forall|n: int| #[trigger] g.is_live(n) implies after.is_live(n) by {
            }
            if g.entry is Some {
                assert(after.is_live(g.entry.unwrap() as int));
            }
            assert forall|n: int, l: int, i: int|
                after.is_live(n) && 0 <= l < after.node(n).links.len() && 0 <= i
                    < after.node(n).links[l].len() implies {
                let t = #[trigger] after.node(n).links[l][i];
                &&& after.is_live(t as int)
                &&& t != n
                &&& after.node(t as int).layer >= l
            } by {
                let t = after.node(n).links[l][i];
                if n == id && l == layer {
                    assert(u.contains(best@[i]));
                    let m = choose|m: int| 0 <= m < u.len() && u[m] == best@[i];
                    assert(g.link_ok(id as int, layer as nat, u[m].0));
                } else {
                    assert(g.node(n).links[l][i] == t);
                }
                assert(after.node(t as int).layer == g.node(t as int).layer);
            }
            assert forall|n: int, l: int|
                after.is_live(n) && 0 <= l < after.node(n).links.len() implies {
                &&& (#[trigger] after.node(n).links[l]).len() <= link_limit(l as nat)
                &&& after.node(n).links[l].no_duplicates()
            } by {
                if !(n == id && l == layer) {
                    assert(after.node(n).links[l] == g.node(n).links[l]);
                }
            }
            assert forall|n: int| #[trigger] after.is_live(n) implies after.node(n).layer <= after.node(
                after.entry.unwrap() as int,
            ).layer by {
                assert(g.is_live(n));
            }
        }
    }

    fn replace_links(&mut self, id: usize, layer: usize, list: Vec<usize>)
        requires
            old(self)@.is_live(id as int),
            layer < old(self)@.node(id as int).links.len(),
        ensures
            final(self)@ == old(self)@.with_links(id as int, layer as int, list@),
    {
        let ghost before = self@;
        let mut node = self.nodes[id].take().unwrap();
        proof {
            assert(node@ == before.node(id as int));
        }
        let ghost node_before = node@;
        node.links[layer] = list;
        proof {
            assert(node@.links =~= node_before.links.update(layer as int, list@));
        }
        self.nodes[id] = Some(node);
        proof {
            assert(self@.nodes =~= before.with_links(id as int, layer as int, list@).nodes);
        }
    }

    /// The node that reaches the highest layer (the first such id), if any.
    fn top_node(&self) -> (r: Option<usize>)
        ensures
            r is Some <==> exists|n: int| self@.is_live(n),
            r is Some ==> self@.is_live(r.unwrap() as int) && forall|n: int| #[trigger]
                self@.is_live(n) ==> self@.node(n).layer <= self@.node(r.unwrap() as int).layer,
    {
        let mut best: Option<usize> = None;
        let mut best_layer: usize = 0;
        let mut n: usize = 0;
        while n < self.nodes.len()
            invariant
                n <= self@.nodes.len(),
                best is None ==> forall|m: int| 0 <= m < n ==> !#[trigger] self@.is_live(m),
                best is Some ==> self@.is_live(best.unwrap() as int) && best_layer == self@.node(
                    best.unwrap() as int,
                ).layer && forall|m: int|
                    0 <= m < n && #[trigger] self@.is_live(m) ==> self@.node(m).layer <= best_layer,
            decreases self@.nodes.len() - n,
        {
            match &self.nodes[n] {
                Some(node) => {
                    if best.is_none() || node.layer > best_layer {
                        best = Some(n);
                        best_layer = node.layer;
                    }
                },
                None => {},
            }
            n = n + 1;
        }
        proof {
            if best is None {
                assert forall|m: int| !#[trigger] self@.is_live(m) by {
                    if 0 <= m < self@.nodes.len() {
                    }
                }
            }
        }
        best
    }

    fn strip_node(node: &mut GraphNode, t: usize)
        ensures
            final(node)@ == node_without(old(node)@, t),
    {
        let ghost before = node@;
        let mut l: usize = 0;
        while l < node.links.len()
            invariant
                node@.layer == before.layer,
                node@.links.len() == before.links.len(),
                l <= node@.links.len(),
                forall|k: int| 0 <= k < l ==> #[trigger] node@.links[k] == without_id(before.links[k], t),
                forall|k: int| l <= k < node@.links.len() ==> #[trigger] node@.links[k] == before.links[k],
            decreases node@.links.len() - l,
        {
            let mut kept: Vec<usize> = Vec::new();
            let mut i: usize = 0;
            while i < node.links[l].len()
                invariant
                    l < node@.links.len(),
                    i <= node@.links[l as int].len(),
                    kept@ == without_id(node@.links[l as int].subrange(0, i as int), t),
                decreases node@.links[l as int].len() - i,
            {
                let x = node.links[l][i];
                proof {
                    assert(node@.links[l as int].subrange(0, i + 1).drop_last() =~= node@.links[
                        l as int].subrange(0, i as int));
                }
                if x != t {
                    kept.push(x);
                }
                i = i + 1;
            }
            proof {
                assert(node@.links[l as int].subrange(0, node@.links[l as int].len() as int)
                    =~= node@.links[l as int]);
            }
            let ghost prev = node@;
            node.links[l] = kept;
            proof {
                assert forall|k: int| 0 <= k < node@.links.len() && k != l implies #[trigger] node@.links[k]
                    == prev.links[k] by {
                }
            }
            l = l + 1;
        }
        proof {
            assert(node@.links =~= node_without(before, t).links);
        }
    }

    /// Removes node `id` and every link to it; when it was the entry point, the
    /// node that reaches the highest remaining layer takes its place.
    pub fn remove(&mut self, id: usize) -> (r: Result<(), VettoreError>)
        requires
            old(self).wf(),
        ensures
            final(self).wf(),
            !old(self)@.is_live(id as int) ==> r == Err::<(), VettoreError>(VettoreError::IdNotFound)
                && final(self)@ == old(self)@,
            old(self)@.is_live(id as int) ==> r == Ok::<(), VettoreError>(()) && final(self)@.nodes
                == old(self)@.nodes_without(id as int) && (old(self)@.entry != Some(id)
                ==> final(self)@.entry == old(self)@.entry),
    {
        if !self.contains(id) {
            return Err(VettoreError::IdNotFound);
        }
        let ghost before = self@;
        let ghost target = before.nodes_without(id as int);
        self.nodes[id] = None;
        let mut n: usize = 0;
        while n < self.nodes.len()
            invariant
                target == before.nodes_without(id as int),
                self.entry == before.entry,
                self@.nodes.len() == before.nodes.len(),
                n <= self@.nodes.len(),
                forall|m: int| 0 <= m < n ==> #[trigger] self@.nodes[m] == target[m],
                forall|m: int| n <= m < self@.nodes.len() && m != id ==> #[trigger] self@.nodes[m] == before.nodes[m],
                id < self@.nodes.len(),
                self@.nodes[id as int] is None,
                target[id as int] is None,
            decreases self@.nodes.len() - n,
        {
            let ghost prev = self@;
            if self.nodes[n].is_some() {
                proof {
                    assert(n != id);
                    assert(prev.nodes[n as int] == before.nodes[n as int]);
                }
                let mut node = self.nodes[n].take().unwrap();
                assert(node@ == before.node(n as int));
                Self::strip_node(&mut node, id);
                self.nodes[n] = Some(node);
                assert(self@.nodes[n as int] == target[n as int]);
            } else {
                assert(self@.nodes[n as int] is None);
                assert(n < before.nodes.len());
                if n != id {
                    assert(before.nodes[n as int] is None);
                }
                assert(target[n as int] is None);
                assert(self@.nodes[n as int] == target[n as int]);
            }
            proof {
                assert forall|m: int| 0 <= m < self@.nodes.len() && m != n implies #[trigger] self@.nodes[m]
                    == prev.nodes[m] by {
                }
            }
            n = n + 1;
        }
        proof {
            assert(self@.nodes =~= target);
        }
        let ghost stripped = self@;
        let was_entry = match self.entry {
            Some(e) => e == id,
            None => false,
        };
        if was_entry {
            self.entry = self.top_node();
        }
        proof {
            let a = self@;
            assert forall|m: int| #[trigger] a.is_live(m) implies before.is_live(m) && m != id && a.node(m)
                == node_without(before.node(m), id as usize) by {
            }
            assert forall|m: int| #[trigger] a.is_live(m) implies a.node(m).links.len() == a.node(m).layer
                + 1 by {
                assert(before.is_live(m));
            }
            assert forall|m: int, l: int, i: int|
                a.is_live(m) && 0 <= l < a.node(m).links.len() && 0 <= i < a.node(m).links[l].len() implies {
                let t = #[trigger] a.node(m).links[l][i];
                &&& a.is_live(t as int)
                &&& t != m
                &&& a.node(t as int).layer >= l
            } by {
                let t = a.node(m).links[l][i];
                assert(before.is_live(m));
                lemma_without_id(before.node(m).links[l], id as usize);
                assert(a.node(m).links[l] == without_id(before.node(m).links[l], id as usize));
                assert(a.node(m).links[l].contains(t));
                assert(before.node(m).links[l].contains(t));
                let j = choose|j: int| 0 <= j < before.node(m).links[l].len() && before.node(m).links[l][j] == t;
                assert(before.is_live(t as int));
                assert(t != id);
                assert(a.node(t as int) == node_without(before.node(t as int), id as usize));
            }
            assert forall|m: int, l: int|
                a.is_live(m) && 0 <= l < a.node(m).links.len() implies {
                &&& (#[trigger] a.node(m).links[l]).len() <= link_limit(l as nat)
                &&& a.node(m).links[l].no_duplicates()
            } by {
                assert(before.is_live(m));
                lemma_without_id(before.node(m).links[l], id as usize);
            }
            if !was_entry && before.entry is Some {
                let e = before.entry.unwrap() as int;
                assert(a.is_live(e));
                assert forall|m: int| #[trigger] a.is_live(m) implies a.node(m).layer <= a.node(e).layer by {
                    assert(before.is_live(m));
                }
            }
            if !was_entry && before.entry is None {
                assert(!before.is_live(id as int));
            }
            assert(a.nodes == stripped.nodes);
            if was_entry {
                assert forall|m: int| #[trigger] a.is_live(m) implies a.node(m).layer <= a.node(
                    a.entry.unwrap() as int,
                ).layer by {
                    assert(stripped.is_live(m));
                }
                if exists|m: int| a.is_live(m) {
                    let m = choose|m: int| a.is_live(m);
                    assert(stripped.is_live(m));
                }
                if a.entry is Some {
                    let m = choose|m: int| stripped.is_live(m);
                    assert(a.is_live(m));
                }
            }
        }
        Ok(())
    }

    proof fn lemma_link_target_live(&self, n: usize, layer: usize, nbs: Seq<usize>, j: int)
        requires
            self.wf(),
            self@.is_live(n as int),
            layer < self@.node(n as int).links.len(),
            nbs == self@.node(n as int).links[layer as int],
            0 <= j < nbs.len(),
        ensures
            self@.is_live(nbs[j] as int),
            nbs[j] < self@.nodes.len(),
            self@.node(nbs[j] as int).layer >= layer,
    {
        let t = self@.node(n as int).links[layer as int][j];
        assert(self@.is_live(t as int));
    }

    /// Beam search on `layer` from `entry` with beam width `ef`, where `dist`
    /// ranks a node by its distance to the query: the nearest nodes found,
    /// nearest first. Each node is ranked at most once; the search stops when
    /// the nearest open candidate is farther than the farthest kept node.
    pub fn search_layer<F: Fn(usize) -> u64>(&self, entry: usize, layer: usize, ef: usize, dist: &F) -> (r: Vec<(usize, u64)>)
        requires
            self.wf(),
            ef >= 1,
            forall|n: usize| dist.requires((n,)),
        ensures
            ranked_nodes(self@, *dist, r@),
            r@.len() <= ef,
            self@.is_live(entry as int) <==> r@.len() > 0,
            forall|i: int|
                0 <= i < r@.len() ==> (#[trigger] r@[i]).0 == entry || self@.node(r@[i].0 as int).layer
                    >= layer,
            self@.is_live(entry as int) ==> exists|seen: Map<usize, u64>|
                beam_outcome(self@, *dist, entry, layer as int, ef as nat, r@, seen),
    {
        if !self.contains(entry) {
            return Vec::new();
        }
        let mut visited: Vec<bool> = Vec::new();
        while visited.len() < self.nodes.len()
            invariant
                visited@.len() <= self@.nodes.len(),
                forall|x: int| 0 <= x < visited@.len() ==> !#[trigger] visited@[x],
            decreases self@.nodes.len() - visited@.len(),
        {
            visited.push(false);
        }
        visited[entry] = true;
        let d0 = dist(entry);
        let ghost mut seen: Map<usize, u64> = Map::empty().insert(entry, d0);
        let mut results: Vec<(usize, u64)> = Vec::new();
        results.push((entry, d0));
        let mut cand: Vec<(usize, u64)> = Vec::new();
        cand.push((entry, d0));
        let mut done = false;
        proof {
            assert forall|x: usize| seen.contains_key(x) == (x < visited@.len() && visited@[x as int]) by {}
            assert(cand@[0].0 == entry);
            assert(has_id(cand@, entry));
        }
        while !done && cand.len() > 0
            invariant
                self.wf(),
                ef >= 1,
                forall|n: usize| dist.requires((n,)),
                self@.is_live(entry as int),
                visited@.len() == self@.nodes.len(),
                1 <= results@.len() <= ef,
                ranked_nodes(self@, *dist, results@),
                forall|x: usize|
                    #![trigger seen.contains_key(x)]
                    #![trigger visited@[x as int]]
                    seen.contains_key(x) == (x < visited@.len() && visited@[x as int]),
                forall|x: usize| #[trigger]
                    seen.contains_key(x) ==> self@.is_live(x as int) && dist.ensures((x,), seen[x]),
                seen.contains_key(entry),
                forall|i: int|
                    0 <= i < results@.len() ==> seen.contains_key((#[trigger] results@[i]).0)
                        && seen[results@[i].0] == results@[i].1,
                forall|i: int|
                    0 <= i < cand@.len() ==> self@.is_live((#[trigger] cand@[i]).0 as int)
                        && seen.contains_key(cand@[i].0) && seen[cand@[i].0] == cand@[i].1,
                forall|i: int|
                    0 <= i < results@.len() ==> links_seen(self@, (#[trigger] results@[i]).0, layer as int, seen)
                        || has_id(cand@, results@[i].0),
                forall|x: usize| #[trigger]
                    seen.contains_key(x) ==> has_id(results@, x) || (results@.len() == ef
                        && seen[x] >= results@.last().1),
                done ==> forall|i: int| 0 <= i < cand@.len() ==> (#[trigger] cand@[i]).1 > results@.last().1,
                forall|i: int|
                    0 <= i < results@.len() ==> (#[trigger] results@[i]).0 == entry || self@.node(
                        results@[i].0 as int,
                    ).layer >= layer,
            decreases 2 * unvisited(visited@) + cand@.len(),
        {
            let mut m: usize = 0;
            let mut k: usize = 1;
            while k < cand.len()
                invariant
                    m < cand@.len(),
                    m < k,
                    k <= cand@.len(),
                    forall|i: int| 0 <= i < k ==> !ranks_before(#[trigger] cand@[i], cand@[m as int]),
                decreases cand@.len() - k,
            {
                if precedes(cand[k], cand[m]) {
                    m = k;
                }
                k = k + 1;
            }
            let ghost cand_before = cand@;
            let c = cand.remove(m);
            let ghost bound = 2 * unvisited(visited@) + cand@.len();
            proof {
                assert(cand@ == cand_before.remove(m as int));
                assert forall|i: int|
                    0 <= i < results@.len() implies links_seen(self@, (#[trigger] results@[i]).0, layer as int, seen)
                        || has_id(cand@, results@[i].0) || results@[i].0 == c.0 by {
                    if !links_seen(self@, results@[i].0, layer as int, seen) {
                        let q = choose|q: int| 0 <= q < cand_before.len() && #[trigger] cand_before[q].0 == results@[i].0;
                        if q < m {
                            assert(cand@[q] == cand_before[q]);
                        } else if q > m {
                            assert(cand@[q - 1] == cand_before[q]);
                        }
                    }
                }
                assert forall|i: int| 0 <= i < cand@.len() implies self@.is_live((#[trigger] cand@[i]).0 as int)
                    && seen.contains_key(cand@[i].0) && seen[cand@[i].0] == cand@[i].1 && !ranks_before(cand@[i], c) by {
                    if i < m {
                        assert(cand@[i] == cand_before[i]);
                    } else {
                        assert(cand@[i] == cand_before[i + 1]);
                    }
                }
            }
            let worst = results[results.len() - 1].1;
            if c.1 > worst {
                done = true;
                proof {
                    assert forall|i: int| 0 <= i < results@.len() implies links_seen(self@, (#[trigger] results@[i]).0, layer as int, seen)
                        || has_id(cand@, results@[i].0) by {
                        if results@[i].0 == c.0 {
                            if i < results@.len() - 1 {
                                assert(ranks_before(results@[i], results@.last()));
                            }
                            assert(false);
                        }
                    }
                }
            } else {
                let nbs = self.neighbours(c.0, layer);
                let mut j: usize = 0;
                while j < nbs.len()
                    invariant
                        self.wf(),
                        ef >= 1,
                        !done,
                        forall|n: usize| dist.requires((n,)),
                        self@.is_live(entry as int),
                        self@.is_live(c.0 as int),
                        layer < self@.node(c.0 as int).links.len() ==> nbs@ == self@.node(c.0 as int).links[layer as int],
                        !(layer < self@.node(c.0 as int).links.len()) ==> nbs@.len() == 0,
                        j <= nbs@.len(),
                        forall|j2: int| 0 <= j2 < j ==> seen.contains_key(#[trigger] nbs@[j2]),
                        visited@.len() == self@.nodes.len(),
                        1 <= results@.len() <= ef,
                        ranked_nodes(self@, *dist, results@),
                        forall|x: usize|
                            #![trigger seen.contains_key(x)]
                            #![trigger visited@[x as int]]
                            seen.contains_key(x) == (x < visited@.len() && visited@[x as int]),
                        forall|x: usize| #[trigger]
                            seen.contains_key(x) ==> self@.is_live(x as int) && dist.ensures((x,), seen[x]),
                        seen.contains_key(entry),
                        forall|i: int|
                            0 <= i < results@.len() ==> seen.contains_key((#[trigger] results@[i]).0)
                                && seen[results@[i].0] == results@[i].1,
                        forall|i: int|
                            0 <= i < cand@.len() ==> self@.is_live((#[trigger] cand@[i]).0 as int)
                                && seen.contains_key(cand@[i].0) && seen[cand@[i].0] == cand@[i].1,
                        forall|i: int|
                            0 <= i < results@.len() ==> links_seen(self@, (#[trigger] results@[i]).0, layer as int, seen)
                                || has_id(cand@, results@[i].0) || results@[i].0 == c.0,
                        forall|x: usize| #[trigger]
                            seen.contains_key(x) ==> has_id(results@, x) || (results@.len() == ef
                                && seen[x] >= results@.last().1),
                        forall|i: int|
                            0 <= i < results@.len() ==> (#[trigger] results@[i]).0 == entry || self@.node(
                                results@[i].0 as int,
                            ).layer >= layer,
                        2 * unvisited(visited@) + cand@.len() <= bound,
                    decreases nbs@.len() - j,
                {
                    let nb = nbs[j];
                    proof {
                        self.lemma_link_target_live(c.0, layer, nbs@, j as int);
                    }
                    if !visited[nb] {
                        proof {
                            lemma_mark_visited(visited@, nb as int);
                        }
                        let ghost seen_before = seen;
                        visited[nb] = true;
                        let d = dist(nb);
                        proof {
                            seen = seen.insert(nb, d);
                            assert forall|i: int| 0 <= i < results@.len() implies (#[trigger] results@[i]).0 != nb by {
                                assert(seen_before.contains_key(results@[i].0));
                            }
                            assert forall|i: int| 0 <= i < results@.len() implies links_seen(self@, (#[trigger] results@[i]).0, layer as int, seen)
                                || has_id(cand@, results@[i].0) || results@[i].0 == c.0 by {
                                if links_seen(self@, results@[i].0, layer as int, seen_before) {
                                    lemma_links_seen_grows(self@, results@[i].0, layer as int, seen_before, seen);
                                }
                            }
                        }
                        let worst_now = results[results.len() - 1].1;
                        if results.len() < ef || d < worst_now {
                            let ghost prev = results@;
                            let ghost prev_cand = cand@;
                            cand.push((nb, d));
                            insert_ranked(&mut results, (nb, d));
                            proof {
                                assert(has_id(cand@, nb)) by {
                                    assert(cand@[prev_cand.len() as int].0 == nb);
                                }
                                assert forall|i: int, j2: int|
                                    0 <= i < results@.len() && 0 <= j2 < results@.len() && i != j2 implies (
                                    #[trigger] results@[i]).0 != (#[trigger] results@[j2]).0 by {
                                    assert(results@.contains(results@[i]) && results@.contains(results@[j2]));
                                    if results@[i] != (nb, d) && results@[j2] != (nb, d) {
                                        let a = choose|a: int| 0 <= a < prev.len() && prev[a] == results@[i];
                                        let b = choose|b: int| 0 <= b < prev.len() && prev[b] == results@[j2];
                                        if a == b {
                                            if i < j2 {
                                                assert(ranks_before(results@[i], results@[j2]));
                                            } else {
                                                assert(ranks_before(results@[j2], results@[i]));
                                            }
                                        }
                                    } else if results@[i] == (nb, d) && results@[j2] == (nb, d) {
                                        if i < j2 {
                                            assert(ranks_before(results@[i], results@[j2]));
                                        } else {
                                            assert(ranks_before(results@[j2], results@[i]));
                                        }
                                    } else if results@[i] == (nb, d) {
                                        let b = choose|b: int| 0 <= b < prev.len() && prev[b] == results@[j2];
                                    } else {
                                        let a = choose|a: int| 0 <= a < prev.len() && prev[a] == results@[i];
                                    }
                                }
                                assert forall|i: int| 0 <= i < results@.len() implies {
                                    &&& self@.is_live((#[trigger] results@[i]).0 as int)
                                    &&& dist.ensures((results@[i].0,), results@[i].1)
                                    &&& seen.contains_key(results@[i].0)
                                    &&& seen[results@[i].0] == results@[i].1
                                    &&& (results@[i].0 == entry || self@.node(results@[i].0 as int).layer >= layer)
                                    &&& (links_seen(self@, results@[i].0, layer as int, seen) || has_id(cand@, results@[i].0)
                                        || results@[i].0 == c.0)
                                } by {
                                    assert(results@.contains(results@[i]));
                                    if results@[i] != (nb, d) {
                                        let a = choose|a: int| 0 <= a < prev.len() && prev[a] == results@[i];
                                        assert(prev[a].0 != nb);
                                        if !links_seen(self@, results@[i].0, layer as int, seen) && results@[i].0 != c.0 {
                                            let q = choose|q: int| 0 <= q < prev_cand.len() && #[trigger] prev_cand[q].0 == results@[i].0;
                                            assert(cand@[q] == prev_cand[q]);
                                        }
                                    }
                                }
                                assert forall|i: int| 0 <= i < cand@.len() implies self@.is_live((#[trigger] cand@[i]).0 as int)
                                    && seen.contains_key(cand@[i].0) && seen[cand@[i].0] == cand@[i].1 by {
                                    if i < prev_cand.len() {
                                        assert(cand@[i] == prev_cand[i]);
                                        assert(seen_before.contains_key(prev_cand[i].0));
                                    }
                                }
                                // Every ranked node is kept, or was ranked when the list was full.
                                assert forall|x: usize| #[trigger] seen.contains_key(x) implies has_id(results@, x)
                                    || (prev.len() == ef && seen[x] >= prev.last().1) by {
                                    if x == nb {
                                        assert(results@.contains((nb, d)));
                                        let a = choose|a: int| 0 <= a < results@.len() && results@[a] == (nb, d);
                                        assert(results@[a].0 == x);
                                    } else {
                                        assert(seen_before.contains_key(x));
                                        assert(seen[x] == seen_before[x]);
                                        if has_id(prev, x) {
                                            let a = choose|a: int| 0 <= a < prev.len() && #[trigger] prev[a].0 == x;
                                            assert(results@.contains(prev[a]));
                                            let b = choose|b: int| 0 <= b < results@.len() && results@[b] == prev[a];
                                            assert(results@[b].0 == x);
                                        }
                                    }
                                }
                            }
                            if results.len() > ef {
                                let ghost full = results@;
                                results.pop();
                                proof {
                                    assert(prev.len() == ef);
                                    assert forall|i: int| 0 <= i < results@.len() implies results@[i] == full[i] by {}
                                    let e = full.last();
                                    assert(results@.last() == full[full.len() - 2]);
                                    assert(ranks_before(full[full.len() - 2], e));
                                    assert(full[prev.len() - 1].1 <= prev.last().1);
                                    assert forall|x: usize| #[trigger] seen.contains_key(x) implies has_id(results@, x)
                                        || (results@.len() == ef && seen[x] >= results@.last().1) by {
                                        if has_id(full, x) {
                                            let a = choose|a: int| 0 <= a < full.len() && #[trigger] full[a].0 == x;
                                            if a < full.len() - 1 {
                                                assert(results@[a] == full[a]);
                                                assert(results@[a].0 == x);
                                            } else {
                                                assert(seen[full[a].0] == full[a].1);
                                            }
                                        } else {
                                            assert(seen[x] >= prev.last().1);
                                        }
                                    }
                                    assert forall|i: int| 0 <= i < results@.len() implies links_seen(self@, (#[trigger] results@[i]).0, layer as int, seen)
                                        || has_id(cand@, results@[i].0) || results@[i].0 == c.0 by {
                                        assert(results@[i] == full[i]);
                                    }
                                    assert forall|i: int| 0 <= i < results@.len() implies seen.contains_key((#[trigger] results@[i]).0)
                                        && seen[results@[i].0] == results@[i].1 by {
                                        assert(results@[i] == full[i]);
                                    }
                                }
                            } else {
                                proof {
                                    assert forall|x: usize| #[trigger] seen.contains_key(x) implies has_id(results@, x)
                                        || (results@.len() == ef && seen[x] >= results@.last().1) by {
                                        if !has_id(results@, x) {
                                            assert(prev.len() == ef);
                                            assert(false);
                                        }
                                    }
                                }
                            }
                        } else {
                            proof {
                                assert forall|i: int| 0 <= i < cand@.len() implies self@.is_live((#[trigger] cand@[i]).0 as int)
                                    && seen.contains_key(cand@[i].0) && seen[cand@[i].0] == cand@[i].1 by {
                                    assert(seen_before.contains_key(cand@[i].0));
                                }
                                assert forall|x: usize| #[trigger] seen.contains_key(x) implies has_id(results@, x)
                                    || (results@.len() == ef && seen[x] >= results@.last().1) by {
                                    if x != nb {
                                        assert(seen_before.contains_key(x));
                                        assert(seen[x] == seen_before[x]);
                                    } else {
                                        assert(seen[x] == d);
                                    }
                                }
                            }
                        }
                    }
                    j = j + 1;
                }
                proof {
                    assert forall|i: int| 0 <= i < results@.len() implies links_seen(self@, (#[trigger] results@[i]).0, layer as int, seen)
                        || has_id(cand@, results@[i].0) by {
                        if results@[i].0 == c.0 && layer < self@.node(c.0 as int).links.len() {
                            assert forall|j2: int| 0 <= j2 < self@.node(c.0 as int).links[layer as int].len() implies seen.contains_key(
                                #[trigger] self@.node(c.0 as int).links[layer as int][j2],
                            ) by {
                                assert(seen.contains_key(nbs@[j2]));
                            }
                        }
                    }
                }
            }
        }
        proof {
            assert forall|i: int| 0 <= i < results@.len() implies seen.contains_key((#[trigger] results@[i]).0)
                && seen[results@[i].0] == results@[i].1 && links_seen(self@, results@[i].0, layer as int, seen) by {
                if !links_seen(self@, results@[i].0, layer as int, seen) {
                    let q = choose|q: int| 0 <= q < cand@.len() && #[trigger] cand@[q].0 == results@[i].0;
                    if i < results@.len() - 1 {
                        assert(ranks_before(results@[i], results@.last()));
                    }
                    assert(cand@[q].1 > results@.last().1);
                }
            }
            assert(beam_outcome(self@, *dist, entry, layer as int, ef as nat, results@, seen));
        }
        results
    }

    /// Greedy descent on `layer` from `start`, where `dist` ranks a node by its
    /// distance to the query: moves to any strictly nearer neighbour until none
    /// is left, and returns the node reached with its rank. No neighbour of that
    /// node on `layer` ranks strictly nearer, and it ranks no farther than `start`.
    pub fn descend<F: Fn(usize) -> u64>(&self, start: usize, layer: usize, dist: &F) -> (r: (usize, u64))
        requires
            self.wf(),
            self@.is_live(start as int),
            forall|n: usize| dist.requires((n,)),
        ensures
            self@.is_live(r.0 as int),
            dist.ensures((r.0,), r.1),
            exists|r0: u64| dist.ensures((start,), r0) && r.1 <= r0,
            layer < self@.node(r.0 as int).links.len() ==> forall|j: int|
                0 <= j < self@.node(r.0 as int).links[layer as int].len() ==> ranked_at_least(
                    *dist,
                    #[trigger] self@.node(r.0 as int).links[layer as int][j],
                    r.1,
                ),
    {
        let mut ep = start;
        let mut ep_dist = dist(start);
        let ghost first = ep_dist;
        let mut moved = true;
        let mut nbs: Vec<usize> = Vec::new();
        while moved
            invariant
                self.wf(),
                forall|n: usize| dist.requires((n,)),
                self@.is_live(ep as int),
                dist.ensures((ep,), ep_dist),
                dist.ensures((start,), first),
                ep_dist <= first,
                !moved ==> (layer < self@.node(ep as int).links.len() ==> nbs@ == self@.node(ep as int).links[layer as int]),
                !moved ==> (!(layer < self@.node(ep as int).links.len()) ==> nbs@.len() == 0),
                !moved ==> forall|j2: int| 0 <= j2 < nbs@.len() ==> ranked_at_least(*dist, #[trigger] nbs@[j2], ep_dist),
            decreases ep_dist + if moved { 1int } else { 0int },
        {
            moved = false;
            let ghost start_dist = ep_dist;
            nbs = self.neighbours(ep, layer);
            let ghost owner = ep;
            let mut j: usize = 0;
            while j < nbs.len()
                invariant
                    self.wf(),
                    forall|n: usize| dist.requires((n,)),
                    self@.is_live(owner as int),
                    self@.is_live(ep as int),
                    dist.ensures((ep,), ep_dist),
                    dist.ensures((start,), first),
                    start_dist <= first,
                    layer < self@.node(owner as int).links.len() ==> nbs@ == self@.node(owner as int).links[layer as int],
                    !(layer < self@.node(owner as int).links.len()) ==> nbs@.len() == 0,
                    j <= nbs@.len(),
                    ep_dist <= start_dist,
                    moved ==> ep_dist < start_dist,
                    !moved ==> ep == owner,
                    !moved ==> forall|j2: int| 0 <= j2 < j ==> ranked_at_least(*dist, #[trigger] nbs@[j2], ep_dist),
                decreases nbs@.len() - j,
            {
                let nb = nbs[j];
                proof {
                    self.lemma_link_target_live(owner, layer, nbs@, j as int);
                }
                let d = dist(nb);
                if d < ep_dist {
                    ep = nb;
                    ep_dist = d;
                    moved = true;
                } else {
                    proof {
                        assert(dist.ensures((nbs@[j as int],), d) && d >= ep_dist);
                        assert(ranked_at_least(*dist, nbs@[j as int], ep_dist));
                    }
                }
                j = j + 1;
            }
        }
        proof {
            if layer < self@.node(ep as int).links.len() {
                assert forall|j: int| 0 <= j < self@.node(ep as int).links[layer as int].len() implies ranked_at_least(
                    *dist,
                    #[trigger] self@.node(ep as int).links[layer as int][j],
                    ep_dist,
                ) by {
                    assert(nbs@[j] == self@.node(ep as int).links[layer as int][j]);
                }
            }
        }
        (ep, ep_dist)
    }

    /// Approximate nearest neighbours, where `dist` ranks a node by its
    /// distance to the query: from the entry point, a greedy descent (see
    /// `descend`) on each layer from the entry's top layer down to 1, each
    /// starting where the one above ended; then a beam search of width `ef`
    /// on the ground layer from there; the first `k` found, nearest first.
    pub fn search<F: Fn(usize) -> u64>(&self, k: usize, ef: usize, dist: &F) -> (r: Vec<(usize, u64)>)
        requires
            self.wf(),
            ef >= 1,
            forall|n: usize| dist.requires((n,)),
        ensures
            ranked_nodes(self@, *dist, r@),
            r@.len() <= k,
            r@.len() <= ef,
            self@.entry is None ==> r@.len() == 0,
            self@.entry is Some && k > 0 ==> r@.len() > 0,
    {
        let mut ep = match self.entry {
            Some(e) => e,
            None => {
                return Vec::new();
            },
        };
        let mut layer = match self.layer_of(ep) {
            Some(l) => l,
            None => 0,
        };
        while layer > 0
            invariant
                self.wf(),
                forall|n: usize| dist.requires((n,)),
                self@.is_live(ep as int),
            decreases layer,
        {
            let (next, _rank) = self.descend(ep, layer, dist);
            ep = next;
            layer = layer - 1;
        }
        let mut found = self.search_layer(ep, 0, ef, dist);
        let ghost all = found@;
        found.truncate(k);
        proof {
            assert forall|i: int| 0 <= i < found@.len() implies found@[i] == all[i] by {}
        }
        found
    }

    /// Replaces a list as `set_links` does, and keeps the nodes.
    fn relink(&mut self, id: usize, layer: usize, ranked: &[(usize, u64)])
        requires
            old(self).wf(),
            old(self)@.is_live(id as int),
            layer <= old(self)@.node(id as int).layer,
        ensures
            final(self).wf(),
            same_nodes(old(self)@, final(self)@),
            forall|n: int, l: int|
                old(self)@.is_live(n) && 0 <= l < old(self)@.node(n).links.len() && !(n == id && l
                    == layer) ==> #[trigger] final(self)@.node(n).links[l] == old(self)@.node(n).links[l],
            old(self)@.usable(id as int, layer as nat, ranked@).len() > 0 ==> final(self)@.node(
                id as int,
            ).links[layer as int].len() > 0,
            exists|best: Seq<(usize, u64)>|
                is_best_k(old(self)@.usable(id as int, layer as nat, ranked@), link_limit(layer as nat), best)
                    && final(self)@.node(id as int).links[layer as int] == ids_of(best),
    {
        let ghost before = self@;
        self.set_links(id, layer, ranked);
        proof {
            let best = choose|best: Seq<(usize, u64)>|
                is_best_k(before.usable(id as int, layer as nat, ranked@), link_limit(layer as nat), best)
                    && self@ == before.with_links(id as int, layer as int, ids_of(best));
            assert forall|n: int| #[trigger] before.is_live(n) == self@.is_live(n) by {}
            assert forall|n: int| before.is_live(n) implies #[trigger] before.node(n).layer == self@.node(n).layer by {}
            assert(self@.node(id as int).links[layer as int] == ids_of(best));
            let u = before.usable(id as int, layer as nat, ranked@);
            if u.len() > 0 {
                if !best.contains(u[0]) {
                    assert(best.len() == link_limit(layer as nat));
                }
                assert(best.len() > 0);
            }
        }
    }

    /// Links node `id`, which has no links yet, into the graph: greedy descent
    /// from `prev_entry` (the entry point before `id` was added) down to the
    /// highest layer the two share, then on each layer from there to the
    /// ground a beam search of width `EF_CONSTRUCTION`, whose nearest results
    /// become `id`'s list, and a back-link from each chosen neighbour, whose
    /// list is pruned to its nearest. `dist` ranks a node by its distance to
    /// `id`'s vector, `pair(a, b)` ranks `b` by its distance to `a`. Only links
    /// change. On every shared layer `id` ends with at least one link, its list
    /// is the nearest of candidates ranked by `dist` (`chosen_links`), and the
    /// list of each neighbour it chose was re-pruned, by `pair`, with `id`
    /// among the candidates (`neighbours_repruned`).
    pub fn link<F: Fn(usize) -> u64, G: Fn(usize, usize) -> u64>(
        &mut self,
        id: usize,
        prev_entry: Option<usize>,
        dist: &F,
        pair: &G,
    )
        requires
            old(self).wf(),
            old(self)@.is_live(id as int),
            forall|n: usize| dist.requires((n,)),
            forall|a: usize, b: usize| pair.requires((a, b)),
        ensures
            final(self).wf(),
            same_nodes(old(self)@, final(self)@),
            prev_entry is Some && old(self)@.is_live(prev_entry.unwrap() as int) && prev_entry.unwrap()
                != id ==> forall|l: int|
                0 <= l <= old(self)@.node(id as int).layer && l <= old(self)@.node(
                    prev_entry.unwrap() as int,
                ).layer ==> #[trigger] final(self)@.node(id as int).links[l].len() > 0,
            prev_entry is Some && old(self)@.is_live(prev_entry.unwrap() as int) && prev_entry.unwrap()
                != id ==> forall|l: int|
                0 <= l <= old(self)@.node(id as int).layer && l <= old(self)@.node(
                    prev_entry.unwrap() as int,
                ).layer ==> chosen_links(
                    old(self)@,
                    *dist,
                    id as int,
                    l,
                    #[trigger] final(self)@.node(id as int).links[l],
                ) && neighbours_repruned(
                    old(self)@,
                    final(self)@,
                    *pair,
                    id,
                    l,
                    final(self)@.node(id as int).links[l].len() as int,
                ),
    {
        let level = match self.layer_of(id) {
            Some(l) => l,
            None => 0,
        };
        let mut ep = match prev_entry {
            Some(e) => e,
            None => {
                return;
            },
        };
        if ep == id || !self.contains(ep) {
            return;
        }
        let ghost orig = self@;
        let top = match self.layer_of(ep) {
            Some(l) => l,
            None => 0,
        };
        let shared = if level < top { level } else { top };
        let mut ep_rank = dist(ep);
        let mut layer = top;
        while layer > shared
            invariant
                self.wf(),
                self@ == orig,
                self@.is_live(ep as int),
                ep != id,
                layer >= shared,
                self@.node(ep as int).layer >= layer,
                dist.ensures((ep,), ep_rank),
                forall|n: usize| dist.requires((n,)),
            decreases layer,
        {
            let found = self.search_layer(ep, layer, 1, dist);
            if found.len() > 0 && found[0].0 != id && found[0].1 < ep_rank {
                ep = found[0].0;
                ep_rank = found[0].1;
            }
            layer = layer - 1;
        }
        let mut next: usize = shared + 1;
        while next > 0
            invariant
                self.wf(),
                same_nodes(orig, self@),
                orig.is_live(id as int),
                level == orig.node(id as int).layer,
                next <= shared + 1,
                shared <= level,
                self@.is_live(ep as int),
                ep != id,
                self@.node(ep as int).layer + 1 >= next,
                forall|l: int| next <= l <= shared ==> #[trigger] self@.node(id as int).links[l].len() > 0,
                forall|l: int| next <= l <= shared ==> chosen_links(orig, *dist, id as int, l, #[trigger] self@.node(id as int).links[l]),
                forall|l: int| next <= l <= shared ==> #[trigger] neighbours_repruned(
                    orig,
                    self@,
                    *pair,
                    id,
                    l,
                    self@.node(id as int).links[l].len() as int,
                ),
                dist.ensures((ep,), ep_rank),
                forall|n: usize| dist.requires((n,)),
                forall|a: usize, b: usize| pair.requires((a, b)),
            decreases next,
        {
            next = next - 1;
            let layer = next;
            let mut cand = self.search_layer(ep, layer, EF_CONSTRUCTION, dist);
            let ghost found = cand@;
            let ghost searched = self@;
            cand.push((ep, ep_rank));
            proof {
                lemma_usable_nonempty(self@, id as int, layer as nat, cand@);
                assert(cand@[0] == found[0]);
            }
            let ghost before_relink = self@;
            self.relink(id, layer, cand.as_slice());
            proof {
                assert forall|l: int| next <= l <= shared implies #[trigger] self@.node(id as int).links[l].len()
                    > 0 by {
                    if l != layer {
                        assert(self@.node(id as int).links[l] == before_relink.node(id as int).links[l]);
                    }
                }
                lemma_usable_same_nodes(orig, before_relink, id as int, layer as nat, cand@);
                assert forall|i: int| 0 <= i < cand@.len() implies dist.ensures(((#[trigger] cand@[i]).0,), cand@[i].1) by {
                    if i < found.len() {
                        assert(cand@[i] == found[i]);
                    }
                }
                let best = choose|best: Seq<(usize, u64)>|
                    is_best_k(before_relink.usable(id as int, layer as nat, cand@), link_limit(layer as nat), best)
                        && self@.node(id as int).links[layer as int] == ids_of(best);
                assert(is_best_k(orig.usable(id as int, layer as nat, cand@), link_limit(layer as nat), best));
                assert(chosen_links(orig, *dist, id as int, layer as int, self@.node(id as int).links[layer as int]));
                assert forall|l: int| next <= l <= shared implies chosen_links(orig, *dist, id as int, l, #[trigger] self@.node(id as int).links[l]) by {
                    if l != layer {
                        assert(self@.node(id as int).links[l] == before_relink.node(id as int).links[l]);
                    }
                }
                assert forall|l: int| layer < l <= shared implies #[trigger] neighbours_repruned(
                    orig,
                    self@,
                    *pair,
                    id,
                    l,
                    self@.node(id as int).links[l].len() as int,
                ) by {
                    let ids = before_relink.node(id as int).links[l];
                    assert(self@.node(id as int).links[l] == ids);
                    assert(neighbours_repruned(orig, before_relink, *pair, id, l, ids.len() as int));
                    assert forall|j: int| 0 <= j < ids.len() implies repruned_links(
                        orig,
                        *pair,
                        #[trigger] self@.node(id as int).links[l][j],
                        id,
                        l,
                        self@.node(self@.node(id as int).links[l][j] as int).links[l],
                    ) by {
                        let x = ids[j];
                        assert(before_relink.node(id as int).links[l][j] == x);
                        assert(before_relink.is_live(x as int) && before_relink.node(x as int).layer >= l);
                        assert(self@.node(x as int).links[l] == before_relink.node(x as int).links[l]);
                    }
                }
            }
            let chosen = self.neighbours(id, layer);
            let ghost owner_links = self@.node(id as int).links[layer as int];
            proof {
                assert forall|i: int| 0 <= i < chosen@.len() implies #[trigger] chosen@[i] != id by {
                    assert(chosen@[i] == self@.node(id as int).links[layer as int][i]);
                }
            }
            let mut j: usize = 0;
            while j < chosen.len()
                invariant
                    self.wf(),
                    same_nodes(orig, self@),
                    orig.is_live(id as int),
                    level == orig.node(id as int).layer,
                    layer <= shared,
                    shared <= level,
                    self@.is_live(ep as int),
                    forall|i: int| 0 <= i < chosen@.len() ==> #[trigger] chosen@[i] != id,
                    forall|l: int| layer <= l <= shared ==> #[trigger] self@.node(id as int).links[l].len() > 0,
                    forall|l: int| layer <= l <= shared ==> chosen_links(orig, *dist, id as int, l, #[trigger] self@.node(id as int).links[l]),
                    forall|l: int| layer < l <= shared ==> #[trigger] neighbours_repruned(
                        orig,
                        self@,
                        *pair,
                        id,
                        l,
                        self@.node(id as int).links[l].len() as int,
                    ),
                    chosen@ == self@.node(id as int).links[layer as int],
                    layer < self@.node(id as int).links.len(),
                    j <= chosen@.len(),
                    neighbours_repruned(orig, self@, *pair, id, layer as int, j as int),
                    forall|a: usize, b: usize| pair.requires((a, b)),
                decreases chosen@.len() - j,
            {
                let nb = chosen[j];
                let reaches = match self.layer_of(nb) {
                    Some(l) => layer <= l,
                    None => false,
                };
                if reaches {
                    let members = self.neighbours(nb, layer);
                    let mut ranked: Vec<(usize, u64)> = Vec::new();
                    let mut seen_id = false;
                    let mut i: usize = 0;
                    while i < members.len()
                        invariant
                            forall|a: usize, b: usize| pair.requires((a, b)),
                            i <= members@.len(),
                            forall|q: int| 0 <= q < ranked@.len() ==> pair.ensures((nb, (#[trigger] ranked@[q]).0), ranked@[q].1),
                            seen_id ==> has_id(ranked@, id),
                        decreases members@.len() - i,
                    {
                        let m = members[i];
                        if m == id {
                            seen_id = true;
                        }
                        let ghost before_push = ranked@;
                        let rm = pair(nb, m);
                        ranked.push((m, rm));
                        proof {
                            assert forall|q: int| 0 <= q < ranked@.len() implies pair.ensures((nb, (#[trigger] ranked@[q]).0), ranked@[q].1) by {
                                if q < before_push.len() {
                                    assert(ranked@[q] == before_push[q]);
                                }
                            }
                            if seen_id {
                                if m == id {
                                    assert(ranked@[before_push.len() as int].0 == id);
                                } else {
                                    let q = choose|q: int| 0 <= q < before_push.len() && #[trigger] before_push[q].0 == id;
                                    assert(ranked@[q] == before_push[q]);
                                }
                            }
                        }
                        i = i + 1;
                    }
                    if !seen_id {
                        let ghost before_push = ranked@;
                        let rid = pair(nb, id);
                        ranked.push((id, rid));
                        proof {
                            assert forall|q: int| 0 <= q < ranked@.len() implies pair.ensures((nb, (#[trigger] ranked@[q]).0), ranked@[q].1) by {
                                if q < before_push.len() {
                                    assert(ranked@[q] == before_push[q]);
                                }
                            }
                            assert(ranked@[before_push.len() as int].0 == id);
                        }
                    }
                    let ghost mid = self@;
                    self.relink(nb, layer, ranked.as_slice());
                    proof {
                        assert(mid.is_live(ep as int) == self@.is_live(ep as int));
                        assert(orig.is_live(id as int) == mid.is_live(id as int));
                        assert forall|l: int| layer <= l <= shared implies #[trigger] self@.node(
                            id as int,
                        ).links[l].len() > 0 by {
                            assert(self@.node(id as int).links[l] == mid.node(id as int).links[l]);
                        }
                        assert forall|l: int| layer <= l <= shared implies chosen_links(orig, *dist, id as int, l, #[trigger] self@.node(id as int).links[l]) by {
                            assert(self@.node(id as int).links[l] == mid.node(id as int).links[l]);
                        }
                        assert(self@.node(id as int).links[layer as int] == chosen@);
                        assert forall|l: int| layer < l <= shared implies #[trigger] neighbours_repruned(
                            orig,
                            self@,
                            *pair,
                            id,
                            l,
                            self@.node(id as int).links[l].len() as int,
                        ) by {
                            let ids = mid.node(id as int).links[l];
                            assert(self@.node(id as int).links[l] == ids);
                            assert(neighbours_repruned(orig, mid, *pair, id, l, ids.len() as int));
                            assert forall|j2: int| 0 <= j2 < ids.len() implies repruned_links(
                                orig,
                                *pair,
                                #[trigger] self@.node(id as int).links[l][j2],
                                id,
                                l,
                                self@.node(self@.node(id as int).links[l][j2] as int).links[l],
                            ) by {
                                let x = ids[j2];
                                assert(mid.node(id as int).links[l][j2] == x);
                                assert(mid.is_live(x as int) && mid.node(x as int).layer >= l);
                                assert(self@.node(x as int).links[l] == mid.node(x as int).links[l]);
                            }
                        }
                        lemma_usable_same_nodes(orig, mid, nb as int, layer as nat, ranked@);
                        let best = choose|best: Seq<(usize, u64)>|
                            is_best_k(mid.usable(nb as int, layer as nat, ranked@), link_limit(layer as nat), best)
                                && self@.node(nb as int).links[layer as int] == ids_of(best);
                        assert(is_best_k(orig.usable(nb as int, layer as nat, ranked@), link_limit(layer as nat), best));
                        assert(repruned_links(orig, *pair, nb, id, layer as int, self@.node(nb as int).links[layer as int]));
                        assert(chosen@.no_duplicates());
                        assert forall|j2: int| 0 <= j2 < j + 1 implies repruned_links(
                            orig,
                            *pair,
                            #[trigger] self@.node(id as int).links[layer as int][j2],
                            id,
                            layer as int,
                            self@.node(self@.node(id as int).links[layer as int][j2] as int).links[layer as int],
                        ) by {
                            if j2 < j {
                                let x = chosen@[j2];
                                assert(mid.node(id as int).links[layer as int][j2] == x);
                                assert(x != nb);
                                assert(mid.is_live(x as int) && mid.node(x as int).layer >= layer);
                                assert(self@.node(x as int).links[layer as int] == mid.node(x as int).links[layer as int]);
                            }
                        }
                    }
                } else {
                    proof {
                        self.lemma_link_target_live(id, layer, chosen@, j as int);
                        assert(false);
                    }
                }
                j = j + 1;
            }
            proof {
                assert(orig.node(ep as int).layer == self@.node(ep as int).layer);
            }
            if cand.len() > 0 && cand[0].0 != id && cand[0].1 < ep_rank {
                proof {
                    assert(searched.is_live(cand@[0].0 as int));
                    assert(orig.is_live(cand@[0].0 as int));
                    assert(orig.node(cand@[0].0 as int).layer == searched.node(cand@[0].0 as int).layer);
                    assert(dist.ensures((found[0].0,), found[0].1));
                }
                ep = cand[0].0;
                ep_rank = cand[0].1;
            }
        }
    }

    /// Adds node `id` reaching `level` and links it in, as `add` and `link` do.
    pub fn insert<F: Fn(usize) -> u64, G: Fn(usize, usize) -> u64>(
        &mut self,
        id: usize,
        level: usize,
        dist: &F,
        pair: &G,
    ) -> (r: Result<(), VettoreError>)
        requires
            old(self).wf(),
            id < usize::MAX,
            level <= MAX_LEVEL,
            forall|n: usize| dist.requires((n,)),
            forall|a: usize, b: usize| pair.requires((a, b)),
        ensures
            final(self).wf(),
            old(self)@.is_live(id as int) ==> r == Err::<(), VettoreError>(VettoreError::DuplicateId)
                && final(self)@ == old(self)@,
            !old(self)@.is_live(id as int) ==> r == Ok::<(), VettoreError>(()) && same_nodes(
                old(self)@.with_node(id as int, level as nat),
                final(self)@,
            ),
            !old(self)@.is_live(id as int) && old(self)@.entry is Some ==> forall|l: int|
                0 <= l <= level && l <= old(self)@.node(old(self)@.entry.unwrap() as int).layer
                    ==> #[trigger] final(self)@.node(id as int).links[l].len() > 0,
            !old(self)@.is_live(id as int) && old(self)@.entry is Some ==> forall|l: int|
                0 <= l <= level && l <= old(self)@.node(old(self)@.entry.unwrap() as int).layer
                    ==> chosen_links(
                    old(self)@.with_node(id as int, level as nat),
                    *dist,
                    id as int,
                    l,
                    #[trigger] final(self)@.node(id as int).links[l],
                ) && neighbours_repruned(
                    old(self)@.with_node(id as int, level as nat),
                    final(self)@,
                    *pair,
                    id,
                    l,
                    final(self)@.node(id as int).links[l].len() as int,
                ),
    {
        let prev_entry = self.entry;
        let ghost before = self@;
        match self.add(id, level) {
            Ok(()) => {},
            Err(e) => {
                return Err(e);
            },
        }
        proof {
            if before.entry is Some {
                let e = before.entry.unwrap() as int;
                assert(self@.is_live(e));
                assert(self@.node(e) == before.node(e));
            }
        }
        self.link(id, prev_entry, dist, pair);
        Ok(())
    }
}



/// In a well-formed graph the entry point exists exactly when a node does, and
/// it reaches the highest layer of all nodes; `add`, `set_links` and
/// `remove` keep the graph well-formed, so this holds after any of them,
/// including the removal of the entry point itself.
pub proof fn lemma_entry_is_top(g: HnswIndex)
    requires
        g.wf(),
    ensures
        g@.entry is Some <==> exists|n: int| g@.is_live(n),
        g@.entry is Some ==> g@.is_live(g@.entry.unwrap() as int),
        g@.entry is Some ==> forall|n: int| #[trigger]
            g@.is_live(n) ==> g@.node(n).layer <= g@.node(g@.entry.unwrap() as int).layer,
{
}

/// Adding a node the graph did not have leaves an entry point, on the highest
/// layer of all nodes.
pub proof fn lemma_add_keeps_entry_on_top(before: HnswIndex, after: HnswIndex, id: usize, level: nat)
    requires
        before.wf(),
        !before@.is_live(id as int),
        after.wf(),
        after@ == before@.with_node(id as int, level),
    ensures
        after@.entry is Some,
        after@.is_live(after@.entry.unwrap() as int),
        forall|n: int| #[trigger]
            after@.is_live(n) ==> after@.node(n).layer <= after@.node(after@.entry.unwrap() as int).layer,
{
    assert(after@.is_live(id as int));
    lemma_entry_is_top(after);
}

} // verus!
