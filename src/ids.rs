use vstd::hash_map::StringHashMap;
use vstd::prelude::*;

use crate::error::VettoreError;

verus! {

/// The abstract state of the label/id map: the id of each bound label, and for
/// each id handed out so far its label, or `None` once it was released.
pub struct NodeIdsView {
    pub ids: Map<Seq<char>, usize>,
    pub labels: Seq<Option<Seq<char>>>,
}

impl NodeIdsView {
    /// The two directions agree.
    pub open spec fn consistent(self) -> bool {
        &&& forall|v: Seq<char>| #[trigger]
            self.ids.contains_key(v) ==> self.ids[v] < self.labels.len() && self.labels[self.ids[v] as int]
                == Some(v)
        &&& forall|i: int|
            0 <= i < self.labels.len() && #[trigger] self.labels[i] is Some ==> self.ids.contains_key(
                self.labels[i].unwrap(),
            ) && self.ids[self.labels[i].unwrap()] == i
    }
}

/// A two-way map between labels and graph node ids; ids are handed out in
/// increasing order and never reused.
pub struct NodeIds {
    by_label: StringHashMap<usize>,
    labels: Vec<Option<String>>,
}

impl View for NodeIds {
    type V = NodeIdsView;

    closed spec fn view(&self) -> NodeIdsView {
        NodeIdsView {
            ids: self.by_label@,
            labels: Seq::new(
                self.labels@.len(),
                |i: int|
                    match self.labels@[i] {
                        Some(s) => Some(s@),
                        None => None,
                    },
            ),
        }
    }
}

impl NodeIds {
    pub open spec fn wf(&self) -> bool {
        self@.consistent()
    }

    /// An empty map.
    pub fn new() -> (r: NodeIds)
        ensures
            r.wf(),
            r@.ids.is_empty(),
            r@.labels.len() == 0,
    {
        let r = NodeIds { by_label: StringHashMap::new(), labels: Vec::new() };
        assert(r@.ids =~= Map::empty());
        r
    }

    /// The id that the next label will get.
    pub fn next_id(&self) -> (r: usize)
        ensures
            r == self@.labels.len(),
    {
        self.labels.len()
    }

    /// The id of a label, if it is bound.
    pub fn id_of(&self, label: &str) -> (r: Option<usize>)
        ensures
            self@.ids.contains_key(label@) == r is Some,
            r is Some ==> r.unwrap() == self@.ids[label@],
    {
        match self.by_label.get(label) {
            Some(id) => Some(*id),
            None => None,
        }
    }

    /// The label of an id, if it is bound.
    pub fn label_of(&self, id: usize) -> (r: Option<&String>)
        ensures
            r is Some == (id < self@.labels.len() && self@.labels[id as int] is Some),
            r is Some ==> Some(r.unwrap()@) == self@.labels[id as int],
    {
        if id < self.labels.len() {
            self.labels[id].as_ref()
        } else {
            None
        }
    }

    /// Binds a new label to the next id, which it returns.
    pub fn bind(&mut self, label: &str) -> (r: Result<usize, VettoreError>)
        requires
            old(self).wf(),
        ensures
            final(self).wf(),
            old(self)@.ids.contains_key(label@) ==> r == Err::<usize, VettoreError>(
                VettoreError::DuplicateValue,
            ) && final(self)@ == old(self)@,
            !old(self)@.ids.contains_key(label@) ==> r == Ok::<usize, VettoreError>(
                old(self)@.labels.len() as usize,
            ) && final(self)@ == (NodeIdsView {
                ids: old(self)@.ids.insert(label@, old(self)@.labels.len() as usize),
                labels: old(self)@.labels.push(Some(label@)),
            }),
    {
        if self.by_label.contains_key(label) {
            return Err(VettoreError::DuplicateValue);
        }
        let ghost before = self@;
        let id = self.labels.len();
        self.labels.push(Some(label.to_owned()));
        self.by_label.insert(label.to_owned(), id);
        proof {
            let after = NodeIdsView {
                ids: before.ids.insert(label@, id),
                labels: before.labels.push(Some(label@)),
            };
            assert(self@.labels =~= after.labels);
            assert(self@ == after);
            assert forall|i: int|
                0 <= i < after.labels.len() && #[trigger] after.labels[i] is Some implies after.ids.contains_key(
                after.labels[i].unwrap(),
            ) && after.ids[after.labels[i].unwrap()] == i by {
                if i < before.labels.len() {
                    assert(after.labels[i] == before.labels[i]);
                    assert(before.labels[i].unwrap() != label@);
                }
            }
        }
        Ok(id)
    }

    /// Releases a label and returns the id it had; its id is not handed out again.
    pub fn unbind(&mut self, label: &str) -> (r: Result<usize, VettoreError>)
        requires
            old(self).wf(),
        ensures
            final(self).wf(),
            !old(self)@.ids.contains_key(label@) ==> r == Err::<usize, VettoreError>(
                VettoreError::IdNotFound,
            ) && final(self)@ == old(self)@,
            old(self)@.ids.contains_key(label@) ==> r == Ok::<usize, VettoreError>(
                old(self)@.ids[label@],
            ) && final(self)@ == (NodeIdsView {
                ids: old(self)@.ids.remove(label@),
                labels: old(self)@.labels.update(old(self)@.ids[label@] as int, None),
            }),
    {
        let id = match self.by_label.get(label) {
            Some(id) => *id,
            None => {
                return Err(VettoreError::IdNotFound);
            },
        };
        let ghost before = self@;
        self.by_label.remove(label);
        self.labels[id] = None;
        proof {
            let after = NodeIdsView {
                ids: before.ids.remove(label@),
                labels: before.labels.update(id as int, None),
            };
            assert(self@.labels =~= after.labels);
            assert(self@.ids =~= after.ids);
            assert(self@ == after);
            assert forall|v: Seq<char>| #[trigger] after.ids.contains_key(v) implies after.ids[v]
                < after.labels.len() && after.labels[after.ids[v] as int] == Some(v) by {
                assert(before.ids.contains_key(v));
            }
        }
        Ok(id)
    }
}

} // verus!
