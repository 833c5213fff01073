use vstd::prelude::*;

use crate::error::VettoreError;
use crate::graph::{chosen_links, neighbours_repruned, same_nodes, GraphView, HnswIndex, MAX_LEVEL};
use crate::ids::{NodeIds, NodeIdsView};

verus! {

/// The abstract state of a labelled index: the graph and the label/id map.
pub struct WrapperView {
    pub graph: GraphView,
    pub ids: NodeIdsView,
}

impl WrapperView {
    /// Both parts are consistent, and the graph has a node for exactly the ids
    /// that are bound to a label.
    pub open spec fn consistent(self) -> bool {
        &&& self.graph.consistent()
        &&& self.ids.consistent()
        &&& self.graph.nodes.len() <= self.ids.labels.len()
        &&& forall|n: int|
            0 <= n < self.ids.labels.len() ==> (#[trigger] self.graph.is_live(n)
                <==> self.ids.labels[n] is Some)
    }

    /// The index once `label` got a node on layers 0 to `level`, under the next id.
    pub open spec fn with_label(self, label: Seq<char>, level: nat) -> WrapperView {
        let id = self.ids.labels.len();
        WrapperView {
            graph: self.graph.with_node(id as int, level),
            ids: NodeIdsView {
                ids: self.ids.ids.insert(label, id as usize),
                labels: self.ids.labels.push(Some(label)),
            },
        }
    }

    /// `after` is this index once the node of `label` and every link to it are
    /// gone and the label is released.
    pub open spec fn without_label(self, after: WrapperView, label: Seq<char>) -> bool {
        let id = self.ids.ids[label];
        &&& after.consistent()
        &&& after.graph.nodes == self.graph.nodes_without(id as int)
        &&& after.ids == (NodeIdsView {
            ids: self.ids.ids.remove(label),
            labels: self.ids.labels.update(id as int, None),
        })
    }
}

/// An HNSW graph whose nodes are addressed by labels.
pub struct HnswIndexWrapper {
    index: HnswIndex,
    ids: NodeIds,
}

impl View for HnswIndexWrapper {
    type V = WrapperView;

    closed spec fn view(&self) -> WrapperView {
        WrapperView { graph: self.index@, ids: self.ids@ }
    }
}

impl HnswIndexWrapper {
    pub open spec fn wf(&self) -> bool {
        self@.consistent()
    }

    /// An empty index.
    pub fn new() -> (r: HnswIndexWrapper)
        ensures
            r.wf(),
            r@.graph.nodes.len() == 0,
            r@.graph.entry is None,
            r@.ids.ids.is_empty(),
            r@.ids.labels.len() == 0,
    {
        HnswIndexWrapper { index: HnswIndex::new(), ids: NodeIds::new() }
    }

    /// The graph.
    pub fn index(&self) -> (r: &HnswIndex)
        ensures
            r@ == self@.graph,
    {
        &self.index
    }

    /// The label/id map.
    pub fn ids(&self) -> (r: &NodeIds)
        ensures
            r@ == self@.ids,
    {
        &self.ids
    }

    /// Adds a node for `label` on layers 0 to `level`, under the next id, which
    /// it returns, with no links yet; a label that already has a node is refused.
    pub fn add(&mut self, label: &str, level: usize) -> (r: Result<usize, VettoreError>)
        requires
            old(self).wf(),
            level <= MAX_LEVEL,
            old(self)@.ids.labels.len() < usize::MAX,
        ensures
            final(self).wf(),
            old(self)@.ids.ids.contains_key(label@) ==> r == Err::<usize, VettoreError>(
                VettoreError::DuplicateValue,
            ) && final(self)@ == old(self)@,
            !old(self)@.ids.ids.contains_key(label@) ==> r == Ok::<usize, VettoreError>(
                old(self)@.ids.labels.len() as usize,
            ) && final(self)@ == old(self)@.with_label(label@, level as nat),
    {
        if self.ids.id_of(label).is_some() {
            return Err(VettoreError::DuplicateValue);
        }
        let ghost before = self@;
        let nid = self.ids.next_id();
        let added = self.index.add(nid, level);
        assert(added is Ok);
        let bound = self.ids.bind(label);
        assert(bound is Ok);
        proof {
            let a = self@;
            assert forall|n: int| 0 <= n < a.ids.labels.len() implies (#[trigger] a.graph.is_live(n)
                <==> a.ids.labels[n] is Some) by {
                if n < before.ids.labels.len() {
                    assert(before.graph.is_live(n) <==> before.ids.labels[n] is Some);
                    assert(a.ids.labels[n] == before.ids.labels[n]);
                    if n < before.graph.nodes.len() {
                        assert(a.graph.nodes[n] == before.graph.nodes[n]);
                    } else {
                        assert(!before.graph.is_live(n));
                        assert(!a.graph.is_live(n));
                    }
                }
            }
        }
        Ok(nid)
    }

    /// Removes the node of `label`, and every link to it, and releases the
    /// label; returns the node's id.
    pub fn remove(&mut self, label: &str) -> (r: Result<usize, VettoreError>)
        requires
            old(self).wf(),
        ensures
            final(self).wf(),
            !old(self)@.ids.ids.contains_key(label@) ==> r == Err::<usize, VettoreError>(
                VettoreError::IdNotFound,
            ) && final(self)@ == old(self)@,
            old(self)@.ids.ids.contains_key(label@) ==> r == Ok::<usize, VettoreError>(
                old(self)@.ids.ids[label@],
            ) && old(self)@.without_label(final(self)@, label@),
    {
        let id = match self.ids.id_of(label) {
            Some(id) => id,
            None => {
                return Err(VettoreError::IdNotFound);
            },
        };
        let ghost before = self@;
        assert(before.graph.is_live(id as int));
        let removed = self.index.remove(id);
        assert(removed is Ok);
        let released = self.ids.unbind(label);
        assert(released is Ok);
        proof {
            let a = self@;
            assert forall|n: int| 0 <= n < a.ids.labels.len() implies (#[trigger] a.graph.is_live(n)
                <==> a.ids.labels[n] is Some) by {
                if n != id {
                    assert(before.graph.is_live(n) <==> before.ids.labels[n] is Some);
                    assert(a.ids.labels[n] == before.ids.labels[n]);
                    if n < before.graph.nodes.len() {
                        assert(before.graph.is_live(n) == a.graph.is_live(n));
                    }
                }
            }
        }
        Ok(id)
    }

    /// Links node `id` into the graph, as `HnswIndex::link` does.
    pub fn link<F: Fn(usize) -> u64, G: Fn(usize, usize) -> u64>(
        &mut self,
        id: usize,
        prev_entry: Option<usize>,
        dist: &F,
        pair: &G,
    )
        requires
            old(self).wf(),
            old(self)@.graph.is_live(id as int),
            forall|n: usize| dist.requires((n,)),
            forall|a: usize, b: usize| pair.requires((a, b)),
        ensures
            final(self).wf(),
            final(self)@.ids == old(self)@.ids,
            same_nodes(old(self)@.graph, final(self)@.graph),
            prev_entry is Some && old(self)@.graph.is_live(prev_entry.unwrap() as int)
                && prev_entry.unwrap() != id ==> forall|l: int|
                0 <= l <= old(self)@.graph.node(id as int).layer && l <= old(self)@.graph.node(
                    prev_entry.unwrap() as int,
                ).layer ==> #[trigger] final(self)@.graph.node(id as int).links[l].len() > 0,
            prev_entry is Some && old(self)@.graph.is_live(prev_entry.unwrap() as int)
                && prev_entry.unwrap() != id ==> forall|l: int|
                0 <= l <= old(self)@.graph.node(id as int).layer && l <= old(self)@.graph.node(
                    prev_entry.unwrap() as int,
                ).layer ==> chosen_links(
                    old(self)@.graph,
                    *dist,
                    id as int,
                    l,
                    #[trigger] final(self)@.graph.node(id as int).links[l],
                ) && neighbours_repruned(
                    old(self)@.graph,
                    final(self)@.graph,
                    *pair,
                    id,
                    l,
                    final(self)@.graph.node(id as int).links[l].len() as int,
                ),
    {
        let ghost before = self@;
        self.index.link(id, prev_entry, dist, pair);
        proof {
            let a = self@;
            assert forall|n: int| 0 <= n < a.ids.labels.len() implies (#[trigger] a.graph.is_live(n)
                <==> a.ids.labels[n] is Some) by {
                assert(before.graph.is_live(n) == a.graph.is_live(n));
            }
        }
    }

    /// Adds a node for `label` reaching `level` and links it in, where `dist`
    /// ranks a node by its distance to the new vector and `pair(a, b)` ranks
    /// `b` by its distance to `a`; returns the node's id.
    pub fn insert<F: Fn(usize) -> u64, G: Fn(usize, usize) -> u64>(
        &mut self,
        label: &str,
        level: usize,
        dist: &F,
        pair: &G,
    ) -> (r: Result<usize, VettoreError>)
        requires
            old(self).wf(),
            level <= MAX_LEVEL,
            old(self)@.ids.labels.len() < usize::MAX,
            forall|n: usize| dist.requires((n,)),
            forall|a: usize, b: usize| pair.requires((a, b)),
        ensures
            final(self).wf(),
            old(self)@.ids.ids.contains_key(label@) ==> r == Err::<usize, VettoreError>(
                VettoreError::DuplicateValue,
            ) && final(self)@ == old(self)@,
            !old(self)@.ids.ids.contains_key(label@) ==> r == Ok::<usize, VettoreError>(
                old(self)@.ids.labels.len() as usize,
            ) && same_nodes(old(self)@.with_label(label@, level as nat).graph, final(self)@.graph)
                && final(self)@.ids == old(self)@.with_label(label@, level as nat).ids,
            !old(self)@.ids.ids.contains_key(label@) && old(self)@.graph.entry is Some ==> forall|l: int|
                0 <= l <= level && l <= old(self)@.graph.node(old(self)@.graph.entry.unwrap() as int).layer
                    ==> #[trigger] final(self)@.graph.node(old(self)@.ids.labels.len() as int).links[l].len()
                    > 0,
    {
        let prev_entry = self.index.entry();
        let ghost before = self@;
        let id = match self.add(label, level) {
            Ok(id) => id,
            Err(e) => {
                return Err(e);
            },
        };
        proof {
            if before.graph.entry is Some {
                let e = before.graph.entry.unwrap() as int;
                assert(before.graph.is_live(e));
                assert(self@.graph.is_live(e));
                assert(self@.graph.node(e) == before.graph.node(e));
            }
        }
        self.link(id, prev_entry, dist, pair);
        Ok(id)
    }
}

} // verus!
