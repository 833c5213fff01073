use vstd::hash_map::StringHashMap;
use vstd::prelude::*;
use vstd::set_lib::{lemma_int_range, lemma_len_subset, lemma_map_size, set_int_range};

use crate::distance::{distance_from_str, lower_of, parsed_distance, Distance};
use crate::error::VettoreError;
use crate::graph::{chosen_links, neighbours_repruned, same_nodes, MAX_LEVEL};
use crate::hnsw::{HnswIndexWrapper, WrapperView};
use crate::signature::{
    encodes, hamming_between, hamming_distance, lemma_encoding_unique, lemma_signature_of_encodes,
    pack_sign_bits, signature_of, word_count,
};
use crate::topk::{is_best_k, select_best};

verus! {

/// Metadata of a record: key/value pairs.
pub type Metadata = Vec<(String, String)>;

/// What a metadata value holds, as a sequence of pairs.
pub open spec fn metadata_view(md: Option<Metadata>) -> Option<Seq<(String, String)>> {
    match md {
        Some(m) => Some(m@),
        None => None,
    }
}

/// A live record as the collection holds it: its row, label and metadata.
/// The embedding itself lives in the float matrix at `row`.
pub struct Record {
    pub value: String,
    pub row: usize,
    pub metadata: Option<Metadata>,
}

/// The abstract content of one live row.
pub struct RowView {
    pub value: Seq<char>,
    pub signature: Seq<u64>,
    pub metadata: Option<Seq<(String, String)>>,
}

/// The abstract state of a collection: its configuration, its rows (`None` for
/// a free row), the index from label to row, the free list, and the labelled
/// graph that a collection with the HNSW distance has.
pub struct CollectionView {
    pub dimension: nat,
    pub distance: Distance,
    pub keep_embeddings: bool,
    pub rows: Seq<Option<RowView>>,
    pub index: Map<Seq<char>, usize>,
    pub free: Seq<usize>,
    pub hnsw: Option<WrapperView>,
}

impl CollectionView {
    pub open spec fn is_live(self, r: int) -> bool {
        0 <= r < self.rows.len() && self.rows[r] is Some
    }

    pub open spec fn row(self, r: int) -> RowView {
        self.rows[r].unwrap()
    }

    /// The rows that hold a record.
    pub open spec fn live_rows(self) -> Set<int> {
        Set::new(|r: int| self.is_live(r))
    }

    /// The signatures of the live records.
    pub open spec fn signatures(self) -> Set<Seq<u64>> {
        self.live_rows().map(|r: int| self.row(r).signature)
    }

    /// The label index and the rows agree both ways, no two live rows share a
    /// signature, the free list holds each non-live row exactly once, and a
    /// collection has a graph exactly when its distance is HNSW, labelled with
    /// the labels of the live records.
    pub open spec fn consistent(self) -> bool {
        &&& forall|v: Seq<char>| #[trigger]
            self.index.contains_key(v) ==> self.is_live(self.index[v] as int) && self.row(
                self.index[v] as int,
            ).value == v
        &&& forall|r: int| #[trigger]
            self.is_live(r) ==> self.index.contains_key(self.row(r).value) && self.index[self.row(
                r,
            ).value] == r
        &&& forall|r1: int, r2: int|
            #![trigger self.is_live(r1), self.is_live(r2)]
            self.is_live(r1) && self.is_live(r2) && self.row(r1).signature == self.row(r2).signature
                ==> r1 == r2
        &&& self.free.no_duplicates()
        &&& forall|i: int|
            0 <= i < self.free.len() ==> #[trigger] self.free[i] < self.rows.len() && !self.is_live(
                self.free[i] as int,
            )
        &&& forall|r: usize|
            r < self.rows.len() && !#[trigger] self.is_live(r as int) ==> self.free.contains(r)
        &&& (self.distance == Distance::Hnsw) == self.hnsw is Some
        &&& self.hnsw is Some ==> self.hnsw.unwrap().consistent()
        &&& self.hnsw is Some ==> forall|v: Seq<char>| #[trigger]
            self.index.contains_key(v) <==> self.hnsw.unwrap().ids.ids.contains_key(v)
    }

    /// The same state with `h` as its HNSW part.
    pub open spec fn with_hnsw(self, h: Option<WrapperView>) -> CollectionView {
        CollectionView { hnsw: h, ..self }
    }

    /// The live row whose signature packs the sign pattern `s`, if there is one.
    pub open spec fn row_of_signs(self, s: Seq<bool>) -> Option<int> {
        if exists|r: int| self.is_live(r) && encodes(self.row(r).signature, s) {
            Some(choose|r: int| self.is_live(r) && encodes(self.row(r).signature, s))
        } else {
            None
        }
    }

    /// The row that the next insertion takes: the last free row, else a new one.
    pub open spec fn next_row(self) -> int {
        if self.free.len() > 0 {
            self.free.last() as int
        } else {
            self.rows.len() as int
        }
    }

    /// The state after a record is placed at `next_row()`.
    pub open spec fn with_record(self, rec: RowView) -> CollectionView {
        let row = self.next_row();
        CollectionView {
            dimension: self.dimension,
            distance: self.distance,
            keep_embeddings: self.keep_embeddings,
            rows: if self.free.len() > 0 {
                self.rows.update(row, Some(rec))
            } else {
                self.rows.push(Some(rec))
            },
            index: self.index.insert(rec.value, row as usize),
            free: if self.free.len() > 0 {
                self.free.drop_last()
            } else {
                self.free
            },
            hnsw: self.hnsw,
        }
    }

    /// The state after the record at row `r` is removed.
    pub open spec fn without_row(self, r: int) -> CollectionView {
        CollectionView {
            dimension: self.dimension,
            distance: self.distance,
            keep_embeddings: self.keep_embeddings,
            rows: self.rows.update(r, None),
            index: self.index.remove(self.row(r).value),
            free: self.free.push(r as usize),
            hnsw: self.hnsw,
        }
    }

    /// Why an insertion of `value` with sign pattern `signs` is refused, if it is.
    pub open spec fn insert_error(self, value: Seq<char>, signs: Seq<bool>) -> Option<VettoreError> {
        if signs.len() != self.dimension {
            Some(VettoreError::DimensionMismatch)
        } else if self.index.contains_key(value) {
            Some(VettoreError::DuplicateValue)
        } else if self.row_of_signs(signs) is Some {
            Some(VettoreError::DuplicateVector)
        } else {
            None
        }
    }
}

proof fn lemma_same_records(v: CollectionView, w: CollectionView)
    requires
        v.consistent(),
        w.rows == v.rows,
        w.index == v.index,
        w.free == v.free,
        w.distance == v.distance,
        (w.distance == Distance::Hnsw) == w.hnsw is Some,
        w.hnsw is Some ==> w.hnsw.unwrap().consistent(),
        w.hnsw is Some ==> forall|x: Seq<char>| #[trigger]
            w.index.contains_key(x) <==> w.hnsw.unwrap().ids.ids.contains_key(x),
    ensures
        w.consistent(),
{
    assert forall|r: int| #[trigger] w.is_live(r) implies w.index.contains_key(w.row(r).value)
        && w.index[w.row(r).value] == r by {
        assert(v.is_live(r));
    }
    assert forall|x: Seq<char>| #[trigger] w.index.contains_key(x) implies w.is_live(
        w.index[x] as int,
    ) && w.row(w.index[x] as int).value == x by {
        assert(v.index.contains_key(x));
    }
    assert forall|r1: int, r2: int|
        #![trigger w.is_live(r1), w.is_live(r2)]
        w.is_live(r1) && w.is_live(r2) && w.row(r1).signature == w.row(r2).signature implies r1
            == r2 by {
        assert(v.is_live(r1) && v.is_live(r2));
    }
    assert forall|i: int| 0 <= i < w.free.len() implies #[trigger] w.free[i] < w.rows.len()
        && !w.is_live(w.free[i] as int) by {
        assert(!v.is_live(v.free[i] as int));
    }
    assert forall|r: usize| r < w.rows.len() && !#[trigger] w.is_live(r as int) implies w.free.contains(
        r,
    ) by {
        assert(!v.is_live(r as int));
    }
}

/// `rec` is the record held at row `row` of `c`.
pub open spec fn record_at(c: CollectionView, rec: Record, row: int) -> bool {
    &&& rec.row == row
    &&& rec.value@ == c.row(row).value
    &&& metadata_view(rec.metadata) == c.row(row).metadata
}

/// Some pair of `md` has key `k` and value `v`.
pub open spec fn has_entry(md: Seq<(String, String)>, k: Seq<char>, v: Seq<char>) -> bool {
    exists|j: int| 0 <= j < md.len() && #[trigger] md[j].0@ == k && md[j].1@ == v
}

/// Metadata `md` is present and holds every key/value pair of `filter`.
pub open spec fn metadata_matches(md: Option<Seq<(String, String)>>, filter: Seq<(String, String)>) -> bool {
    &&& md is Some
    &&& forall|i: int|
        0 <= i < filter.len() ==> has_entry(md.unwrap(), #[trigger] filter[i].0@, filter[i].1@)
}

/// The live rows below `n`, in increasing order.
pub open spec fn live_rows_below(c: CollectionView, n: nat) -> Seq<usize>
    decreases n,
{
    if n == 0 {
        Seq::empty()
    } else if c.is_live(n - 1) {
        live_rows_below(c, (n - 1) as nat).push((n - 1) as usize)
    } else {
        live_rows_below(c, (n - 1) as nat)
    }
}

/// The live rows below `n` whose metadata matches `filter`, in increasing order.
pub open spec fn matching_rows_below(c: CollectionView, filter: Seq<(String, String)>, n: nat) -> Seq<
    usize,
>
    decreases n,
{
    if n == 0 {
        Seq::empty()
    } else if c.is_live(n - 1) && metadata_matches(c.row(n - 1).metadata, filter) {
        matching_rows_below(c, filter, (n - 1) as nat).push((n - 1) as usize)
    } else {
        matching_rows_below(c, filter, (n - 1) as nat)
    }
}

/// Each live row below `n`, in increasing order, with the Hamming distance
/// between its signature and `q`.
pub open spec fn hamming_candidates(c: CollectionView, q: Seq<u64>, n: nat) -> Seq<(usize, u64)>
    decreases n,
{
    if n == 0 {
        Seq::empty()
    } else if c.is_live(n - 1) {
        hamming_candidates(c, q, (n - 1) as nat).push(
            ((n - 1) as usize, hamming_between(q, c.row(n - 1).signature) as u64),
        )
    } else {
        hamming_candidates(c, q, (n - 1) as nat)
    }
}

/// `items` pairs each row of `rows`, in order, with a rank that `rank` gave it.
pub open spec fn ranked_rows<F: Fn(usize) -> u64>(items: Seq<(usize, u64)>, rows: Seq<usize>, rank: F) -> bool {
    &&& items.len() == rows.len()
    &&& forall|i: int|
        0 <= i < items.len() ==> (#[trigger] items[i]).0 == rows[i] && rank.ensures((rows[i],), items[i].1)
}

fn has_pair(md: &Metadata, key: &String, value: &String) -> (r: bool)
    ensures
        r == has_entry(md@, key@, value@),
{
    let mut j: usize = 0;
    while j < md.len()
        invariant
            j <= md@.len(),
            forall|m: int| 0 <= m < j ==> !(#[trigger] md@[m].0@ == key@ && md@[m].1@ == value@),
        decreases md@.len() - j,
    {
        if md[j].0 == *key && md[j].1 == *value {
            return true;
        }
        j = j + 1;
    }
    false
}

/// Whether metadata is present and holds every pair of `filter`.
pub fn matches_filter(md: &Option<Metadata>, filter: &Metadata) -> (r: bool)
    ensures
        r == metadata_matches(metadata_view(*md), filter@),
{
    if md.is_none() {
        return false;
    }
    let m = md.as_ref().unwrap();
    assert(metadata_view(*md) == Some(m@));
    let mut i: usize = 0;
    while i < filter.len()
        invariant
            metadata_view(*md) == Some(m@),
            i <= filter@.len(),
            forall|f: int| 0 <= f < i ==> has_entry(m@, #[trigger] filter@[f].0@, filter@[f].1@),
        decreases filter@.len() - i,
    {
        if !has_pair(m, &filter[i].0, &filter[i].1) {
            return false;
        }
        i = i + 1;
    }
    true
}

/// One collection: fixed configuration, the per-row tables, the label index,
/// the free list and, with the HNSW distance, the labelled graph.
pub struct Collection {
    dimension: usize,
    keep_embeddings: bool,
    distance: Distance,
    row2value: Vec<Option<String>>,
    meta: Vec<Option<Metadata>>,
    binary: Vec<Option<Vec<u64>>>,
    value2row: StringHashMap<usize>,
    free: Vec<usize>,
    hnsw: Option<HnswIndexWrapper>,
}

impl View for Collection {
    type V = CollectionView;

    closed spec fn view(&self) -> CollectionView {
        CollectionView {
            dimension: self.dimension as nat,
            distance: self.distance,
            keep_embeddings: self.keep_embeddings,
            rows: Seq::new(
                self.row2value@.len(),
                |r: int|
                    match self.row2value@[r] {
                        Some(v) => Some(
                            RowView {
                                value: v@,
                                signature: self.binary@[r].unwrap()@,
                                metadata: metadata_view(self.meta@[r]),
                            },
                        ),
                        None => None,
                    },
            ),
            index: self.value2row@,
            free: self.free@,
            hnsw: match self.hnsw {
                Some(h) => Some(h@),
                None => None,
            },
        }
    }
}

fn clone_metadata(md: &Option<Metadata>) -> (r: Option<Metadata>)
    ensures
        metadata_view(r) == metadata_view(*md),
{
    match md {
        None => None,
        Some(m) => {
            let mut out: Metadata = Vec::with_capacity(m.len());
            let mut i: usize = 0;
            while i < m.len()
                invariant
                    i <= m@.len(),
                    out@ == m@.subrange(0, i as int),
                decreases m@.len() - i,
            {
                let k = m[i].0.clone();
                let v = m[i].1.clone();
                out.push((k, v));
                proof {
                    assert(out@ =~= m@.subrange(0, i + 1));
                }
                i = i + 1;
            }
            proof {
                assert(out@ =~= m@);
            }
            Some(out)
        },
    }
}

fn same_words(a: &Vec<u64>, b: &Vec<u64>) -> (r: bool)
    ensures
        r == (a@ == b@),
{
    if a.len() != b.len() {
        return false;
    }
    let mut i: usize = 0;
    while i < a.len()
        invariant
            a@.len() == b@.len(),
            i <= a@.len(),
            forall|j: int| 0 <= j < i ==> a@[j] == b@[j],
        decreases a@.len() - i,
    {
        if a[i] != b[i] {
            return false;
        }
        i = i + 1;
    }
    assert(a@ =~= b@);
    true
}

impl Collection {
    /// The tables have one entry per row, and a row with a label has a signature.
    pub closed spec fn tables_ok(&self) -> bool {
        &&& self.row2value@.len() <= usize::MAX
        &&& self.meta@.len() == self.row2value@.len()
        &&& self.binary@.len() == self.row2value@.len()
        &&& forall|r: int|
            0 <= r < self.row2value@.len() && #[trigger] self.row2value@[r] is Some
                ==> self.binary@[r] is Some
    }

    /// The collection's invariant.
    pub open spec fn wf(&self) -> bool {
        self.tables_ok() && self@.consistent()
    }

    /// An empty collection.
    pub fn new(dimension: usize, distance: Distance, keep_embeddings: bool) -> (r: Collection)
        ensures
            r.wf(),
            r@.dimension == dimension,
            r@.distance == distance,
            r@.keep_embeddings == keep_embeddings,
            r@.rows.len() == 0,
            r@.index.is_empty(),
            r@.free.len() == 0,
            r@.hnsw is Some ==> r@.hnsw.unwrap().graph.nodes.len() == 0
                && r@.hnsw.unwrap().ids.labels.len() == 0,
    {
        let r = Collection {
            dimension,
            keep_embeddings,
            distance,
            row2value: Vec::new(),
            meta: Vec::new(),
            binary: Vec::new(),
            value2row: StringHashMap::new(),
            free: Vec::new(),
            hnsw: match distance {
                Distance::Hnsw => Some(HnswIndexWrapper::new()),
                _ => None,
            },
        };
        assert(r@.index =~= Map::empty());
        r
    }

    /// An empty collection whose distance is given by name, in any letter case;
    /// it keeps its embeddings.
    pub fn create_with_distance(dim: usize, dist: &str) -> (r: Result<Collection, VettoreError>)
        ensures
            match parsed_distance(lower_of(dist@)) {
                Ok(d) => r is Ok && r->Ok_0.wf() && r->Ok_0@.dimension == dim && r->Ok_0@.distance
                    == d && r->Ok_0@.keep_embeddings && r->Ok_0@.rows.len() == 0
                    && r->Ok_0@.index.is_empty() && r->Ok_0@.free.len() == 0,
                Err(e) => r == Err::<Collection, VettoreError>(e),
            },
    {
        match distance_from_str(dist) {
            Ok(d) => Ok(Collection::new(dim, d, true)),
            Err(e) => Err(e),
        }
    }

    /// The number of components of each vector.
    pub fn dimension(&self) -> (r: usize)
        ensures
            r == self@.dimension,
    {
        self.dimension
    }

    /// How vectors are compared.
    pub fn distance(&self) -> (r: Distance)
        ensures
            r == self@.distance,
    {
        self.distance
    }

    /// Whether the float vectors of a binary collection are kept.
    pub fn keep_embeddings(&self) -> (r: bool)
        ensures
            r == self@.keep_embeddings,
    {
        self.keep_embeddings
    }

    /// The labelled HNSW graph, which a collection has exactly when its
    /// distance is HNSW.
    pub fn hnsw(&self) -> (r: Option<&HnswIndexWrapper>)
        ensures
            r is Some == self@.hnsw is Some,
            r is Some ==> r.unwrap()@ == self@.hnsw.unwrap(),
    {
        self.hnsw.as_ref()
    }

    /// Links graph node `id` into the graph, as `HnswIndex::link` does;
    /// nothing else changes.
    pub fn hnsw_link<F: Fn(usize) -> u64, G: Fn(usize, usize) -> u64>(
        &mut self,
        id: usize,
        prev_entry: Option<usize>,
        dist: &F,
        pair: &G,
    )
        requires
            old(self).wf(),
            old(self)@.hnsw is Some,
            old(self)@.hnsw.unwrap().graph.is_live(id as int),
            forall|n: usize| dist.requires((n,)),
            forall|a: usize, b: usize| pair.requires((a, b)),
        ensures
            final(self).wf(),
            final(self)@.hnsw is Some,
            final(self)@ == old(self)@.with_hnsw(final(self)@.hnsw),
            final(self)@.hnsw.unwrap().ids == old(self)@.hnsw.unwrap().ids,
            same_nodes(old(self)@.hnsw.unwrap().graph, final(self)@.hnsw.unwrap().graph),
            prev_entry is Some && old(self)@.hnsw.unwrap().graph.is_live(prev_entry.unwrap() as int)
                && prev_entry.unwrap() != id ==> forall|l: int|
                0 <= l <= old(self)@.hnsw.unwrap().graph.node(id as int).layer
                    && l <= old(self)@.hnsw.unwrap().graph.node(prev_entry.unwrap() as int).layer
                    ==> #[trigger] final(self)@.hnsw.unwrap().graph.node(id as int).links[l].len() > 0,
            prev_entry is Some && old(self)@.hnsw.unwrap().graph.is_live(prev_entry.unwrap() as int)
                && prev_entry.unwrap() != id ==> forall|l: int|
                0 <= l <= old(self)@.hnsw.unwrap().graph.node(id as int).layer
                    && l <= old(self)@.hnsw.unwrap().graph.node(prev_entry.unwrap() as int).layer
                    ==> chosen_links(
                    old(self)@.hnsw.unwrap().graph,
                    *dist,
                    id as int,
                    l,
                    #[trigger] final(self)@.hnsw.unwrap().graph.node(id as int).links[l],
                ) && neighbours_repruned(
                    old(self)@.hnsw.unwrap().graph,
                    final(self)@.hnsw.unwrap().graph,
                    *pair,
                    id,
                    l,
                    final(self)@.hnsw.unwrap().graph.node(id as int).links[l].len() as int,
                ),
    {
        let ghost before = self@;
        if let Some(mut h) = self.hnsw.take() {
            h.link(id, prev_entry, dist, pair);
            self.hnsw = Some(h);
        }
        proof {
            assert(self@.rows =~= before.rows);
            assert(self@ == before.with_hnsw(self@.hnsw));
            let h = self@.hnsw.unwrap();
            assert forall|v: Seq<char>| #[trigger]
                self@.index.contains_key(v) <==> h.ids.ids.contains_key(v) by {
                assert(before.index.contains_key(v) <==> before.hnsw.unwrap().ids.ids.contains_key(v));
            }
            lemma_same_records(before, self@);
        }
    }

    /// Whether a query of `query_len` components may be answered, with a
    /// metadata filter or without: a filter is refused on a collection with a
    /// graph, and outside the graph the query must have the collection's
    /// dimension.
    pub fn check_search(&self, query_len: usize, with_filter: bool) -> (r: Result<(), VettoreError>)
        requires
            self.wf(),
        ensures
            with_filter && self@.hnsw is Some ==> r == Err::<(), VettoreError>(
                VettoreError::FilterUnsupportedWithHnsw,
            ),
            !(with_filter && self@.hnsw is Some) && self@.hnsw is None && query_len != self@.dimension
                ==> r == Err::<(), VettoreError>(VettoreError::QueryDimMismatch),
            !(with_filter && self@.hnsw is Some) && !(self@.hnsw is None && query_len
                != self@.dimension) ==> r == Ok::<(), VettoreError>(()),
    {
        if with_filter && self.hnsw.is_some() {
            return Err(VettoreError::FilterUnsupportedWithHnsw);
        }
        if self.hnsw.is_none() && query_len != self.dimension {
            return Err(VettoreError::QueryDimMismatch);
        }
        Ok(())
    }

    /// The number of rows, live or free.
    pub fn row_count(&self) -> (r: usize)
        requires
            self.wf(),
        ensures
            r == self@.rows.len(),
    {
        self.row2value.len()
    }

    /// The label stored at a row, if the row is live.
    pub fn value_by_row(&self, r: usize) -> (v: Option<&String>)
        requires
            self.wf(),
            r < self@.rows.len(),
        ensures
            self@.is_live(r as int) == v is Some,
            self@.is_live(r as int) ==> v.unwrap()@ == self@.row(r as int).value,
    {
        self.row2value[r].as_ref()
    }

    /// The signature stored at a row, if the row is live.
    pub fn compressed_by_row(&self, r: usize) -> (s: Option<&Vec<u64>>)
        requires
            self.wf(),
            r < self@.rows.len(),
        ensures
            self@.is_live(r as int) == s is Some,
            self@.is_live(r as int) ==> s.unwrap()@ == self@.row(r as int).signature,
    {
        if self.row2value[r].is_some() {
            self.binary[r].as_ref()
        } else {
            None
        }
    }

    fn signature_row(&self, comp: &Vec<u64>) -> (r: Option<usize>)
        requires
            self.wf(),
        ensures
            match r {
                Some(row) => self@.is_live(row as int) && self@.row(row as int).signature == comp@,
                None => forall|row: int| #[trigger]
                    self@.is_live(row) ==> self@.row(row).signature != comp@,
            },
    {
        let mut i: usize = 0;
        while i < self.row2value.len()
            invariant
                self.wf(),
                i <= self.row2value@.len(),
                forall|row: int|
                    0 <= row < i && #[trigger] self@.is_live(row) ==> self@.row(row).signature
                        != comp@,
            decreases self.row2value@.len() - i,
        {
            if self.row2value[i].is_some() {
                match &self.binary[i] {
                    Some(b) => {
                        if same_words(b, comp) {
                            return Some(i);
                        }
                    },
                    None => {},
                }
            }
            i = i + 1;
        }
        None
    }

    fn row_to_record(&self, row: usize) -> (rec: Record)
        requires
            self.wf(),
            self@.is_live(row as int),
        ensures
            record_at(self@, rec, row as int),
    {
        let value = match &self.row2value[row] {
            Some(v) => v.clone(),
            None => String::new(),
        };
        Record { value, row, metadata: clone_metadata(&self.meta[row]) }
    }

    /// The record labelled `value`, if there is one.
    pub fn get_by_value(&self, value: &str) -> (r: Option<Record>)
        requires
            self.wf(),
        ensures
            self@.index.contains_key(value@) == r is Some,
            r is Some ==> record_at(self@, r.unwrap(), self@.index[value@] as int),
    {
        match self.value2row.get(value) {
            Some(row) => Some(self.row_to_record(*row)),
            None => None,
        }
    }

    /// The record whose vector has the sign pattern `signs`, if there is one;
    /// a pattern of the wrong length finds nothing.
    pub fn get_by_vector(&self, signs: &[bool]) -> (r: Option<Record>)
        requires
            self.wf(),
        ensures
            signs@.len() != self@.dimension ==> r is None,
            signs@.len() == self@.dimension ==> match self@.row_of_signs(signs@) {
                Some(row) => r is Some && record_at(self@, r.unwrap(), row),
                None => r is None,
            },
    {
        if signs.len() != self.dimension {
            return None;
        }
        let comp = pack_sign_bits(signs);
        match self.signature_row(&comp) {
            Some(row) => {
                proof {
                    let c = choose|c: int| self@.is_live(c) && encodes(self@.row(c).signature, signs@);
                    lemma_encoding_unique(self@.row(c).signature, comp@, signs@);
                }
                Some(self.row_to_record(row))
            },
            None => {
                proof {
                    if exists|c: int| self@.is_live(c) && encodes(self@.row(c).signature, signs@) {
                        let c = choose|c: int| self@.is_live(c) && encodes(self@.row(c).signature, signs@);
                        lemma_encoding_unique(self@.row(c).signature, comp@, signs@);
                    }
                }
                None
            },
        }
    }

    fn alloc_row(&mut self) -> (row: usize)
        requires
            old(self).wf(),
        ensures
            final(self).tables_ok(),
            row == old(self)@.next_row(),
            row < final(self)@.rows.len(),
            final(self).dimension == old(self).dimension,
            final(self).distance == old(self).distance,
            final(self).keep_embeddings == old(self).keep_embeddings,
            final(self).value2row == old(self).value2row,
            final(self).hnsw == old(self).hnsw,
            final(self)@.free == if old(self)@.free.len() > 0 {
                old(self)@.free.drop_last()
            } else {
                old(self)@.free
            },
            final(self)@.rows == if old(self)@.free.len() > 0 {
                old(self)@.rows
            } else {
                old(self)@.rows.push(None)
            },
    {
        match self.free.pop() {
            Some(r) => {
                assert(self@.rows =~= old(self)@.rows);
                r
            },
            None => {
                let r = self.row2value.len();
                self.row2value.push(None);
                self.meta.push(None);
                self.binary.push(None);
                let grown = self.row2value.len();
                assert(grown == r + 1);
                assert(self@.rows =~= old(self)@.rows.push(None));
                r
            },
        }
    }

    /// Stores a record whose vector has the sign pattern `signs` (taken after
    /// normalisation where the distance asks for it) and returns its row.
    /// Refused, with nothing changed, when the pattern has the wrong length, the
    /// label is taken, or a live record has the same signature.
    pub fn insert(
        &mut self,
        value: String,
        signs: &[bool],
        md: Option<Metadata>,
        level: usize,
    ) -> (r: Result<usize, VettoreError>)
        requires
            old(self).wf(),
            level <= MAX_LEVEL,
            old(self)@.hnsw is Some ==> old(self)@.hnsw.unwrap().ids.labels.len() < usize::MAX,
        ensures
            final(self).wf(),
            match old(self)@.insert_error(value@, signs@) {
                Some(e) => r == Err::<usize, VettoreError>(e) && final(self)@ == old(self)@,
                None => r == Ok::<usize, VettoreError>(old(self)@.next_row() as usize)
                    && final(self)@ == old(self)@.with_record(
                    (RowView {
                        value: value@,
                        signature: signature_of(signs@),
                        metadata: metadata_view(md),
                    }),
                ).with_hnsw(
                    match old(self)@.hnsw {
                        Some(h) => Some(h.with_label(value@, level as nat)),
                        None => None,
                    },
                ),
            },
    {
        if signs.len() != self.dimension {
            return Err(VettoreError::DimensionMismatch);
        }
        if self.value2row.contains_key(value.as_str()) {
            return Err(VettoreError::DuplicateValue);
        }
        let comp = pack_sign_bits(signs);
        if self.signature_row(&comp).is_some() {
            proof {
                let c = choose|c: int| self@.is_live(c) && self@.row(c).signature == comp@;
                assert(self@.is_live(c) && encodes(self@.row(c).signature, signs@));
            }
            return Err(VettoreError::DuplicateVector);
        }
        proof {
            if exists|c: int| self@.is_live(c) && encodes(self@.row(c).signature, signs@) {
                let c = choose|c: int| self@.is_live(c) && encodes(self@.row(c).signature, signs@);
                lemma_encoding_unique(self@.row(c).signature, comp@, signs@);
            }
        }
        let ghost before = self@;
        let ghost rec = RowView { value: value@, signature: comp@, metadata: metadata_view(md) };
        let row = self.alloc_row();
        let ghost mid = self@;
        let ghost t_v = self.row2value@;
        let ghost t_b = self.binary@;
        let ghost t_m = self.meta@;
        self.binary[row] = Some(comp);
        self.meta[row] = md;
        self.row2value[row] = Some(value.clone());
        let ghost pre_hnsw = self.hnsw;
        if let Some(mut h) = self.hnsw.take() {
            let added = h.add(value.as_str(), level);
            assert(added is Ok);
            self.hnsw = Some(h);
        }
        self.value2row.insert(value, row);
        proof {
            let after = before.with_record(rec).with_hnsw(
                match before.hnsw {
                    Some(h) => Some(h.with_label(rec.value, level as nat)),
                    None => None,
                },
            );
            assert forall|r: int| 0 <= r < after.rows.len() implies #[trigger] self@.rows[r]
                == after.rows[r] by {
                if r != row {
                    assert(self.row2value@[r] == t_v[r]);
                    assert(self.binary@[r] == t_b[r]);
                    assert(self.meta@[r] == t_m[r]);
                    assert(self@.rows[r] == mid.rows[r]);
                    assert(self@.rows[r] == before.rows[r]);
                }
            }
            assert(self@.rows =~= after.rows);
            assert(self@.index =~= after.index);
            assert(self@ == after);
            assert forall|i: int| 0 <= i < after.free.len() implies #[trigger] after.free[i]
                < after.rows.len() && !after.is_live(after.free[i] as int) by {
                assert(before.free.contains(after.free[i]));
                if before.free.len() > 0 {
                    assert(after.free[i] == before.free[i]);
                    assert(after.free[i] != row);
                }
            }
            assert forall|r: usize|
                r < after.rows.len() && !#[trigger] after.is_live(r as int) implies after.free.contains(
                r,
            ) by {
                assert(r != row);
                assert(!before.is_live(r as int));
                assert(before.free.contains(r));
                if before.free.len() > 0 {
                    let k = choose|k: int| 0 <= k < before.free.len() && before.free[k] == r;
                    assert(before.free[before.free.len() - 1] == row);
                    assert(k != before.free.len() - 1);
                    assert(after.free[k] == r);
                }
            }
            assert forall|v: Seq<char>| #[trigger]
                after.index.contains_key(v) implies after.is_live(after.index[v] as int) && after.row(
                after.index[v] as int,
            ).value == v by {
                if v != value@ {
                    assert(before.index.contains_key(v));
                    assert(before.is_live(before.index[v] as int));
                }
            }
            assert forall|r: int| #[trigger]
                after.is_live(r) implies after.index.contains_key(after.row(r).value)
                && after.index[after.row(r).value] == r by {
                if r != row {
                    assert(before.is_live(r));
                }
            }
        }
        Ok(row)
    }

    /// Removes the record labelled `value`, and its graph node where there is a
    /// graph, and frees its row, which it returns.
    pub fn remove(&mut self, value: &str) -> (r: Result<usize, VettoreError>)
        requires
            old(self).wf(),
        ensures
            final(self).wf(),
            !old(self)@.index.contains_key(value@) ==> r == Err::<usize, VettoreError>(
                VettoreError::ValueNotFound,
            ) && final(self)@ == old(self)@,
            old(self)@.index.contains_key(value@) ==> r == Ok::<usize, VettoreError>(
                old(self)@.index[value@],
            ) && final(self)@ == old(self)@.without_row(old(self)@.index[value@] as int).with_hnsw(
                final(self)@.hnsw,
            ) && (old(self)@.hnsw is None ==> final(self)@.hnsw is None) && (old(self)@.hnsw is Some
                ==> final(self)@.hnsw is Some && old(self)@.hnsw.unwrap().without_label(
                final(self)@.hnsw.unwrap(),
                value@,
            )),
    {
        let row = match self.value2row.get(value) {
            Some(r) => *r,
            None => {
                return Err(VettoreError::ValueNotFound);
            },
        };
        let ghost before = self@;
        self.value2row.remove(value);
        self.row2value[row] = None;
        self.binary[row] = None;
        self.meta[row] = None;
        self.free.push(row);
        if let Some(mut h) = self.hnsw.take() {
            let removed = h.remove(value);
            assert(removed is Ok);
            self.hnsw = Some(h);
        }
        proof {
            let after = before.without_row(row as int).with_hnsw(self@.hnsw);
            assert(self@.rows =~= after.rows);
            assert(self@.index =~= after.index);
            assert(self@ == after);
            assert(!before.free.contains(row));
            assert forall|v: Seq<char>| #[trigger]
                after.index.contains_key(v) implies after.is_live(after.index[v] as int) && after.row(
                after.index[v] as int,
            ).value == v by {
                assert(before.index.contains_key(v));
            }
            assert forall|r: int| #[trigger]
                after.is_live(r) implies after.index.contains_key(after.row(r).value)
                && after.index[after.row(r).value] == r by {
                assert(before.is_live(r));
            }
            assert forall|i: int| 0 <= i < after.free.len() implies #[trigger] after.free[i]
                < after.rows.len() && !after.is_live(after.free[i] as int) by {
                if i < before.free.len() {
                    assert(after.free[i] == before.free[i]);
                }
            }
            assert forall|r: usize|
                r < after.rows.len() && !#[trigger] after.is_live(r as int) implies after.free.contains(
                r,
            ) by {
                if r != row {
                    assert(!before.is_live(r as int));
                    assert(before.free.contains(r));
                    let k = choose|k: int| 0 <= k < before.free.len() && before.free[k] == r;
                    assert(after.free[k] == r);
                } else {
                    assert(after.free[before.free.len() as int] == row);
                }
            }
        }
        Ok(row)
    }

    /// Every live record, in increasing row order.
    pub fn get_all(&self) -> (r: Vec<Record>)
        requires
            self.wf(),
        ensures
            r@.len() == live_rows_below(self@, self@.rows.len()).len(),
            forall|i: int|
                0 <= i < r@.len() ==> record_at(
                    self@,
                    #[trigger] r@[i],
                    live_rows_below(self@, self@.rows.len())[i] as int,
                ),
    {
        let mut out: Vec<Record> = Vec::new();
        let mut row: usize = 0;
        while row < self.row2value.len()
            invariant
                self.wf(),
                row <= self@.rows.len(),
                out@.len() == live_rows_below(self@, row as nat).len(),
                forall|i: int|
                    0 <= i < out@.len() ==> record_at(
                        self@,
                        #[trigger] out@[i],
                        live_rows_below(self@, row as nat)[i] as int,
                    ),
            decreases self@.rows.len() - row,
        {
            if self.row2value[row].is_some() {
                let rec = self.row_to_record(row);
                out.push(rec);
            }
            row = row + 1;
        }
        out
    }

    /// The live rows whose metadata matches `filter`, in increasing order.
    pub fn matching_rows(&self, filter: &Metadata) -> (r: Vec<usize>)
        requires
            self.wf(),
        ensures
            r@ == matching_rows_below(self@, filter@, self@.rows.len()),
    {
        let mut out: Vec<usize> = Vec::new();
        let mut row: usize = 0;
        while row < self.row2value.len()
            invariant
                self.wf(),
                row <= self@.rows.len(),
                out@ == matching_rows_below(self@, filter@, row as nat),
            decreases self@.rows.len() - row,
        {
            if self.row2value[row].is_some() && matches_filter(&self.meta[row], filter) {
                out.push(row);
            }
            row = row + 1;
        }
        out
    }

    /// The `k` live rows whose signatures are nearest, in Hamming distance, to
    /// that of the sign pattern `signs`, nearest first and ties to the lower
    /// row, each with its distance.
    pub fn nearest_by_hamming(&self, signs: &[bool], k: usize) -> (r: Result<
        Vec<(usize, u64)>,
        VettoreError,
    >)
        requires
            self.wf(),
            64 * word_count(self@.dimension) <= u32::MAX,
        ensures
            signs@.len() != self@.dimension ==> r == Err::<Vec<(usize, u64)>, VettoreError>(
                VettoreError::QueryDimMismatch,
            ),
            signs@.len() == self@.dimension ==> r is Ok && is_best_k(
                hamming_candidates(self@, signature_of(signs@), self@.rows.len()),
                k as nat,
                r->Ok_0@,
            ),
    {
        if signs.len() != self.dimension {
            return Err(VettoreError::QueryDimMismatch);
        }
        let q = pack_sign_bits(signs);
        let mut pairs: Vec<(usize, u64)> = Vec::new();
        let mut row: usize = 0;
        while row < self.row2value.len()
            invariant
                self.wf(),
                q@ == signature_of(signs@),
                q@.len() == word_count(self@.dimension),
                64 * word_count(self@.dimension) <= u32::MAX,
                row <= self@.rows.len(),
                pairs@ == hamming_candidates(self@, q@, row as nat),
            decreases self@.rows.len() - row,
        {
            if self.row2value[row].is_some() {
                match &self.binary[row] {
                    Some(b) => {
                        let d = hamming_distance(q.as_slice(), b.as_slice());
                        pairs.push((row, d as u64));
                    },
                    None => {},
                }
            }
            row = row + 1;
        }
        Ok(select_best(pairs.as_slice(), k))
    }

    fn rank_rows<F: Fn(usize) -> u64>(&self, rows: &Vec<usize>, rank: &F) -> (r: Vec<(usize, u64)>)
        requires
            forall|row: usize| rank.requires((row,)),
        ensures
            ranked_rows(r@, rows@, *rank),
    {
        let mut items: Vec<(usize, u64)> = Vec::new();
        let mut i: usize = 0;
        while i < rows.len()
            invariant
                forall|row: usize| rank.requires((row,)),
                i <= rows@.len(),
                ranked_rows(items@, rows@.subrange(0, i as int), *rank),
            decreases rows@.len() - i,
        {
            let row = rows[i];
            let d = rank(row);
            items.push((row, d));
            i = i + 1;
        }
        assert(rows@.subrange(0, rows@.len() as int) =~= rows@);
        items
    }

    /// The `k` live rows that `rank` ranks best (a lower rank is a nearer
    /// match), nearest first and ties to the lower row, each with its rank.
    pub fn nearest_by<F: Fn(usize) -> u64>(&self, k: usize, rank: &F) -> (r: Vec<(usize, u64)>)
        requires
            self.wf(),
            forall|row: usize| rank.requires((row,)),
        ensures
            exists|items: Seq<(usize, u64)>|
                ranked_rows(items, live_rows_below(self@, self@.rows.len()), *rank) && is_best_k(
                    items,
                    k as nat,
                    r@,
                ),
    {
        let mut rows: Vec<usize> = Vec::new();
        let mut row: usize = 0;
        while row < self.row2value.len()
            invariant
                self.wf(),
                row <= self@.rows.len(),
                rows@ == live_rows_below(self@, row as nat),
            decreases self@.rows.len() - row,
        {
            if self.row2value[row].is_some() {
                rows.push(row);
            }
            row = row + 1;
        }
        let items = self.rank_rows(&rows, rank);
        select_best(items.as_slice(), k)
    }

    /// The `k` live rows whose metadata matches `filter` that `rank` ranks
    /// best, nearest first and ties to the lower row, each with its rank.
    pub fn nearest_matching<F: Fn(usize) -> u64>(&self, filter: &Metadata, k: usize, rank: &F) -> (r: Vec<(usize, u64)>)
        requires
            self.wf(),
            forall|row: usize| rank.requires((row,)),
        ensures
            exists|items: Seq<(usize, u64)>|
                ranked_rows(items, matching_rows_below(self@, filter@, self@.rows.len()), *rank)
                    && is_best_k(items, k as nat, r@),
    {
        let rows = self.matching_rows(filter);
        let items = self.rank_rows(&rows, rank);
        select_best(items.as_slice(), k)
    }
}




/// In a well-formed collection the live rows, the label index and the set of
/// stored signatures have the same size; since `insert` and `remove` keep the
/// collection well-formed, this holds after any sequence of them.
pub proof fn lemma_index_sizes(c: Collection)
    requires
        c.wf(),
    ensures
        c@.live_rows().finite(),
        c@.index.dom().finite(),
        c@.live_rows().len() == c@.index.len(),
        c@.live_rows().len() == c@.signatures().len(),
{
    let v = c@;
    let live = v.live_rows();
    lemma_int_range(0, v.rows.len() as int);
    assert(live.subset_of(set_int_range(0, v.rows.len() as int)));
    lemma_len_subset(live, set_int_range(0, v.rows.len() as int));
    let to_value = |r: int| v.row(r).value;
    assert(live.map(to_value) =~= v.index.dom()) by {
        assert forall|x: Seq<char>| v.index.dom().contains(x) implies live.map(to_value).contains(
            x,
        ) by {
            let r = v.index[x] as int;
            assert(live.contains(r));
            assert(to_value(r) == x);
        }
    }
    assert(vstd::relations::injective_on(to_value, live)) by {
        assert forall|r1: int, r2: int|
            live.contains(r1) && live.contains(r2) && #[trigger] to_value(r1) == #[trigger] to_value(
                r2,
            ) implies r1 == r2 by {
            assert(v.is_live(r1) && v.is_live(r2));
        }
    }
    lemma_map_size(live, v.index.dom(), to_value);
    let to_sig = |r: int| v.row(r).signature;
    assert(vstd::relations::injective_on(to_sig, live)) by {
        assert forall|r1: int, r2: int|
            live.contains(r1) && live.contains(r2) && #[trigger] to_sig(r1) == #[trigger] to_sig(r2)
                implies r1 == r2 by {
            assert(v.is_live(r1) && v.is_live(r2));
        }
    }
    lemma_map_size(live, v.signatures(), to_sig);
}

/// After a successful insertion of `value` with sign pattern `signs`, looking
/// up `value` and looking up `signs` both find the new row, which holds the
/// label, the signature and the metadata that were given.
pub proof fn lemma_insert_then_get(
    before: Collection,
    after: Collection,
    value: Seq<char>,
    signs: Seq<bool>,
    md: Option<Seq<(String, String)>>,
)
    requires
        before.wf(),
        before@.insert_error(value, signs) is None,
        after@ == before@.with_record(
            (RowView { value: value, signature: signature_of(signs), metadata: md }),
        ).with_hnsw(after@.hnsw),
    ensures
        after@.index.contains_key(value),
        after@.index[value] == before@.next_row(),
        after@.row_of_signs(signs) == Some(before@.next_row()),
        after@.row(before@.next_row()).value == value,
        after@.row(before@.next_row()).metadata == md,
        after@.row(before@.next_row()).signature == signature_of(signs),
{
    let b = before@;
    let a = after@;
    let row = b.next_row();
    if b.free.len() > 0 {
        assert(b.free.contains(b.free.last()));
    }
    lemma_signature_of_encodes(signs);
    assert(a.is_live(row) && encodes(a.row(row).signature, signs));
    let c = choose|c: int| a.is_live(c) && encodes(a.row(c).signature, signs);
    if c != row {
        assert(b.is_live(c));
        assert(b.row(c) == a.row(c));
        assert(b.row_of_signs(signs) is Some);
    }
}

/// Once a label has been removed, it is no longer indexed, so removing it
/// again is refused with `ValueNotFound`.
pub proof fn lemma_remove_twice(before: Collection, after: Collection, value: Seq<char>)
    requires
        before.wf(),
        before@.index.contains_key(value),
        after@ == before@.without_row(before@.index[value] as int).with_hnsw(after@.hnsw),
    ensures
        !after@.index.contains_key(value),
{
}

/// A collection with a graph has one graph node for each live record: the
/// labels bound in the graph are exactly the labels of the live records, and
/// each of them names a node.
pub proof fn lemma_graph_matches_records(c: Collection)
    requires
        c.wf(),
        c@.hnsw is Some,
    ensures
        forall|v: Seq<char>| #[trigger]
            c@.index.contains_key(v) <==> c@.hnsw.unwrap().ids.ids.contains_key(v),
        forall|v: Seq<char>| #[trigger]
            c@.index.contains_key(v) ==> c@.hnsw.unwrap().graph.is_live(
                c@.hnsw.unwrap().ids.ids[v] as int,
            ),
{
    let h = c@.hnsw.unwrap();
    assert forall|v: Seq<char>| #[trigger] c@.index.contains_key(v) implies h.graph.is_live(
        h.ids.ids[v] as int,
    ) by {
        assert(h.ids.ids.contains_key(v));
        let id = h.ids.ids[v] as int;
        assert(h.ids.labels[id] is Some);
    }
}

/// A successful insertion adds one live row, one label and one signature.
pub proof fn lemma_insert_adds_one(
    before: Collection,
    after: Collection,
    value: Seq<char>,
    signs: Seq<bool>,
    md: Option<Seq<(String, String)>>,
)
    requires
        before.wf(),
        after.wf(),
        before@.insert_error(value, signs) is None,
        after@ == before@.with_record(
            (RowView { value: value, signature: signature_of(signs), metadata: md }),
        ).with_hnsw(after@.hnsw),
    ensures
        after@.live_rows().len() == before@.live_rows().len() + 1,
        after@.index.len() == before@.index.len() + 1,
        after@.signatures().len() == before@.signatures().len() + 1,
{
    lemma_index_sizes(before);
    lemma_index_sizes(after);
    assert(after@.index.dom() =~= before@.index.dom().insert(value));
    assert(!before@.index.dom().contains(value));
    vstd::set::axiom_set_insert_len(before@.index.dom(), value);
}

} // verus!
