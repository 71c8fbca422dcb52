use vstd::prelude::*;

use crate::index::{
    all_from, flat_of, lemma_rank_at, lemma_rank_bounds, lemma_sort_membership_all,
    lemma_sort_twin, rows_increasing, score_of, sort_cands, twin, FlatIndex,
};
use crate::types::{str_eq, Metric};

verus! {

// The catalog: named collections, each binding a flat index to a fixed
// dimensionality and a default metric, with filtered search on top.

/// One point handed in by a client.
pub struct PointWrite {
    pub id: String,
    pub vector: Vec<u32>,
    pub payload_json: String,
}

/// A named collection.
pub struct Collection {
    pub name: String,
    pub dim: usize,
    pub metric: Metric,
    pub index: FlatIndex,
}

// ---------------------------------------------------------------------------
// Abstract views, shared with replay.
// ---------------------------------------------------------------------------

/// One stored row.
pub struct RowV {
    pub id: Seq<char>,
    pub vec: Seq<u32>,
    pub payload: Seq<char>,
}

/// One collection, abstractly.
pub struct CollV {
    pub name: Seq<char>,
    pub dim: nat,
    pub metric: Metric,
    pub rows: Seq<RowV>,
}

pub open spec fn row_of(idx: FlatIndex, i: int) -> RowV {
    RowV { id: idx.ids@[i]@, vec: idx.row(i), payload: idx.payloads@[i]@ }
}

pub open spec fn coll_v(c: Collection) -> CollV {
    CollV {
        name: c.name@,
        dim: c.dim as nat,
        metric: c.metric,
        rows: Seq::new(c.index.len_spec(), |i: int| row_of(c.index, i)),
    }
}

impl Collection {
    /// A collection is sound when its index is and both agree on the
    /// dimensionality and metric.
    pub open spec fn wf(&self) -> bool {
        &&& self.dim >= 1
        &&& self.index.wf()
        &&& self.index.dim == self.dim
        &&& self.index.metric == self.metric
    }

    pub fn new(name: String, dim: usize, metric: Metric) -> (r: Collection)
        requires
            dim >= 1,
        ensures
            r.wf(),
            r.name@ == name@,
            r.dim == dim,
            r.metric == metric,
            r.index.len_spec() == 0,
    {
        let index = FlatIndex::new(dim, metric);
        Collection { name, dim, metric, index }
    }

    /// Whether a vector fits this collection.
    pub fn validate_dim(&self, vector: &Vec<u32>) -> (r: bool)
        ensures
            r == (vector@.len() == self.dim),
    {
        vector.len() == self.dim
    }

    /// Appends a validated batch; returns how many rows were added. The
    /// row count never decreases.
    pub fn upsert_batch(&mut self, ids: Vec<String>, vectors: Vec<Vec<u32>>, payloads: Vec<String>)
        -> (r: usize)
        requires
            old(self).wf(),
            ids@.len() == vectors@.len(),
            payloads@.len() == vectors@.len(),
            forall|i: int| 0 <= i < vectors@.len()
                ==> (#[trigger] vectors@[i])@.len() == old(self).dim,
        ensures
            final(self).wf(),
            r == vectors@.len(),
            final(self).name == old(self).name,
            final(self).dim == old(self).dim,
            final(self).metric == old(self).metric,
            final(self).index.len_spec() >= old(self).index.len_spec(),
            final(self).index.ids@ == old(self).index.ids@ + ids@,
            final(self).index.payloads@ == old(self).index.payloads@ + payloads@,
            final(self).index.vectors@ == old(self).index.vectors@
                + flat_of(vectors.deep_view(), vectors@.len() as int),
    {
        let count = vectors.len();
        let res = self.index.add_batch(ids, vectors, payloads);
        proof {
            assert(res is Ok);
        }
        count
    }
}

// ---------------------------------------------------------------------------
// Payload filtering.
// ---------------------------------------------------------------------------

/// The comparable text of the top-level field `key` of `payload` read as
/// a JSON object: the string itself for a string, the canonical decimal
/// form for a number, "true"/"false" for a boolean; nothing when the
/// payload is not a JSON object, the key is absent, or the value is
/// null, an array or an object.
pub uninterp spec fn json_field_text_s(payload: Seq<char>, key: Seq<char>) -> Option<Seq<char>>;

/// Relies on serde_json: `from_str` parses the payload, `Map::get` looks
/// the key up, and `Number::to_string` prints the canonical (shortest
/// round-trip) decimal form. The result depends on the arguments alone.
#[verifier::external_body]
fn json_field_text(payload: &str, key: &str) -> (r: Option<String>)
    ensures
        match r {
            Some(t) => json_field_text_s(payload@, key@) == Some(t@),
            None => json_field_text_s(payload@, key@) is None,
        },
{
    let parsed: Result<serde_json::Value, serde_json::Error> = serde_json::from_str(payload);
    let map = match parsed {
        Ok(serde_json::Value::Object(m)) => m,
        _ => return None,
    };
    match map.get(key) {
        Some(serde_json::Value::String(s)) => Some(s.clone()),
        Some(serde_json::Value::Number(n)) => Some(n.to_string()),
        Some(serde_json::Value::Bool(b)) => Some(b.to_string()),
        _ => None,
    }
}

/// Whether a payload satisfies every `(key, expected)` filter.
pub open spec fn row_passes(payload: Seq<char>, fs: Seq<(Seq<char>, Seq<char>)>) -> bool {
    forall|i: int| 0 <= i < fs.len()
        ==> json_field_text_s(payload, (#[trigger] fs[i]).0) == Some(fs[i].1)
}

/// View of a filter list.
pub open spec fn filters_v(fs: Seq<(String, String)>) -> Seq<(Seq<char>, Seq<char>)> {
    fs.map_values(|p: (String, String)| (p.0@, p.1@))
}

/// A payload matches the filters when, read as a JSON object, it holds
/// every given key with exactly the given comparable text. An empty
/// filter list matches everything.
pub fn payload_matches_filters(payload: &str, filters: &Vec<(String, String)>) -> (r: bool)
    ensures
        r == row_passes(payload@, filters_v(filters@)),
{
    let n = filters.len();
    let mut i: usize = 0;
    while i < n
        invariant
            0 <= i <= n,
            n == filters@.len(),
            forall|j: int| 0 <= j < i
                ==> json_field_text_s(payload@, (#[trigger] filters_v(filters@)[j]).0)
                    == Some(filters_v(filters@)[j].1),
        decreases n - i,
    {
        let got = json_field_text(payload, filters[i].0.as_str());
        let ok = match got {
            Some(t) => t == filters[i].1,
            None => false,
        };
        if !ok {
            assert(!(json_field_text_s(payload@, filters_v(filters@)[i as int].0)
                == Some(filters_v(filters@)[i as int].1)));
            return false;
        }
        i += 1;
    }
    true
}

// ---------------------------------------------------------------------------
// Filtered search.
// ---------------------------------------------------------------------------

/// The scored candidates among the first `n` rows whose payloads pass the
/// filters, in row order.
pub open spec fn cands_passing(
    idx: FlatIndex,
    q: Seq<u32>,
    m: Metric,
    fs: Seq<(Seq<char>, Seq<char>)>,
    n: int,
) -> Seq<(usize, u32)>
    decreases n,
{
    if n <= 0 {
        Seq::empty()
    } else {
        let p = cands_passing(idx, q, m, fs, n - 1);
        if fs.len() == 0 || row_passes(idx.payloads@[n - 1]@, fs) {
            p.push(((n - 1) as usize, score_of(m, q, idx.row(n - 1))))
        } else {
            p
        }
    }
}

proof fn lemma_cands_passing_bounds(
    idx: FlatIndex,
    q: Seq<u32>,
    m: Metric,
    fs: Seq<(Seq<char>, Seq<char>)>,
    n: int,
)
    requires
        0 <= n <= idx.len_spec(),
    ensures
        cands_passing(idx, q, m, fs, n).len() <= n,
        forall|j: int| 0 <= j < cands_passing(idx, q, m, fs, n).len()
            ==> (#[trigger] cands_passing(idx, q, m, fs, n)[j]).0 < n
                && cands_passing(idx, q, m, fs, n)[j].1
                    == score_of(m, q, idx.row(cands_passing(idx, q, m, fs, n)[j].0 as int)),
    decreases n,
{
    broadcast use vstd::std_specs::vec::axiom_spec_len;
    assert(vstd::std_specs::vec::spec_vec_len(&idx.ids) == idx.ids@.len());
    if n > 0 {
        lemma_cands_passing_bounds(idx, q, m, fs, n - 1);
        let p = cands_passing(idx, q, m, fs, n - 1);
        let c = cands_passing(idx, q, m, fs, n);
        if fs.len() == 0 || row_passes(idx.payloads@[n - 1]@, fs) {
            assert(((n - 1) as usize) as int == n - 1);
            assert(forall|j: int| 0 <= j < p.len() ==> c[j] == #[trigger] p[j]);
            assert(c[c.len() - 1].0 == (n - 1) as usize);
        }
    }
}

impl Collection {
    /// The exact result of a filtered search: passing rows scored under
    /// the effective metric, ordered by descending score with ties by
    /// ascending row index, cut to `k`, and joined with their ids and
    /// payloads.
    pub open spec fn search_spec(
        &self,
        q: Seq<u32>,
        k: int,
        mo: Option<Metric>,
        fs: Seq<(Seq<char>, Seq<char>)>,
    ) -> Seq<(Seq<char>, u32, Seq<char>)> {
        let m = self.index.eff_metric(mo);
        let sorted = sort_cands(cands_passing(self.index, q, m, fs, self.index.len_spec() as int));
        let cut = sorted.take(if k < sorted.len() { k } else { sorted.len() as int });
        cut.map_values(
            |c: (usize, u32)| (self.index.ids@[c.0 as int]@, c.1, self.index.payloads@[c.0 as int]@),
        )
    }

    /// Filtered top-k search.
    pub fn search(
        &self,
        query: &Vec<u32>,
        top_k: usize,
        metric_override: Option<Metric>,
        filters: Option<&Vec<(String, String)>>,
    ) -> (r: Vec<(String, u32, String)>)
        requires
            self.wf(),
            query@.len() == self.dim,
        ensures
            r@.map_values(|t: (String, u32, String)| (t.0@, t.1, t.2@))
                == self.search_spec(
                query@,
                top_k as int,
                metric_override,
                (match filters {
                    Some(f) => filters_v(f@),
                    None => Seq::empty(),
                }),
            ),
    {
        let m = match metric_override {
            Some(mm) => mm,
            None => self.metric,
        };
        let ghost fs = match filters {
            Some(f) => filters_v(f@),
            None => Seq::empty(),
        };
        let n = self.index.len();
        let mut cands: Vec<(usize, u32)> = Vec::new();
        let mut i: usize = 0;
        while i < n
            invariant
                0 <= i <= n,
                n == self.index.len_spec(),
                self.wf(),
                query@.len() == self.dim,
                (match filters {
                    Some(f) => fs == filters_v(f@),
                    None => fs == Seq::<(Seq<char>, Seq<char>)>::empty(),
                }),
                cands@ == cands_passing(self.index, query@, m, fs, i as int),
            decreases n - i,
        {
            let keep = match filters {
                Some(f) => {
                    if f.len() == 0 {
                        true
                    } else {
                        payload_matches_filters(self.index.payloads[i].as_str(), f)
                    }
                },
                None => true,
            };
            proof {
                if fs.len() == 0 {
                    assert(row_passes(self.index.payloads@[i as int]@, fs));
                }
            }
            if keep {
                let score = self.index.score_row(query, i, m);
                cands.push((i, score));
            }
            i += 1;
        }
        let ghost all = cands_passing(self.index, query@, m, fs, n as int);
        let sorted = crate::index::sort_cands_vec(cands);
        let k = if top_k < sorted.len() { top_k } else { sorted.len() };
        let mut sorted = sorted;
        sorted.truncate(k);
        proof {
            crate::index::lemma_sort_membership_all(all);
            lemma_cands_passing_bounds(self.index, query@, m, fs, n as int);
        }
        let mut out: Vec<(String, u32, String)> = Vec::new();
        let mut j: usize = 0;
        while j < sorted.len()
            invariant
                0 <= j <= sorted@.len(),
                self.wf(),
                sorted@ == sort_cands(all).take(
                    (if top_k < sort_cands(all).len() {
                        top_k as int
                    } else {
                        sort_cands(all).len() as int
                    }),
                ),
                forall|p: int| 0 <= p < sorted@.len()
                    ==> (#[trigger] sorted@[p]).0 < self.index.len_spec(),
                out@.len() == j,
                forall|p: int| 0 <= p < j ==> (#[trigger] out@[p]).0@
                    == self.index.ids@[sorted@[p].0 as int]@
                    && out@[p].1 == sorted@[p].1
                    && out@[p].2@ == self.index.payloads@[sorted@[p].0 as int]@,
            decreases sorted@.len() - j,
        {
            let (ri, sc) = sorted[j];
            let id = self.index.ids[ri].clone();
            let payload = self.index.payloads[ri].clone();
            out.push((id, sc, payload));
            j += 1;
        }
        proof {
            let lhs = out@.map_values(|t: (String, u32, String)| (t.0@, t.1, t.2@));
            let rhs = sorted@.map_values(
                |c: (usize, u32)| (
                    self.index.ids@[c.0 as int]@,
                    c.1,
                    self.index.payloads@[c.0 as int]@,
                ),
            );
            assert(lhs =~= rhs);
        }
        out
    }
}


// ---------------------------------------------------------------------------
// The catalog: a mapping from collection name to collection, keys unique.
// ---------------------------------------------------------------------------

/// First position holding a collection of the given name, or the length.
pub open spec fn name_pos(s: Seq<Collection>, name: Seq<char>) -> int
    decreases s.len(),
{
    if s.len() > 0 && s[0].name@ != name {
        1 + name_pos(s.drop_first(), name)
    } else {
        0
    }
}

pub proof fn lemma_name_pos(s: Seq<Collection>, name: Seq<char>)
    ensures
        0 <= name_pos(s, name) <= s.len(),
        name_pos(s, name) < s.len() ==> s[name_pos(s, name)].name@ == name,
        forall|m: int| 0 <= m < name_pos(s, name) ==> (#[trigger] s[m]).name@ != name,
    decreases s.len(),
{
    if s.len() > 0 && s[0].name@ != name {
        lemma_name_pos(s.drop_first(), name);
        let p = name_pos(s, name);
        assert forall|m: int| 0 <= m < p implies (#[trigger] s[m]).name@ != name by {
            if m > 0 {
                assert(s[m] == s.drop_first()[m - 1]);
            }
        }
        if p < s.len() {
            assert(s[p] == s.drop_first()[p - 1]);
        }
    }
}

proof fn lemma_name_pos_at(s: Seq<Collection>, name: Seq<char>, j: int)
    requires
        0 <= j <= s.len(),
        forall|m: int| 0 <= m < j ==> (#[trigger] s[m]).name@ != name,
        j < s.len() ==> s[j as int].name@ == name,
    ensures
        name_pos(s, name) == j,
    decreases s.len(),
{
    if j == 0 {
    } else {
        assert(s[0].name@ != name);
        assert(forall|m: int| 0 <= m < j - 1 ==> #[trigger] s.drop_first()[m] == s[m + 1]);
        lemma_name_pos_at(s.drop_first(), name, j - 1);
    }
}

/// The process-wide mapping from collection name to collection. Names are
/// unique; insertion order carries no meaning.
pub struct Catalog {
    pub collections: Vec<Collection>,
}

impl Catalog {
    /// Every collection is sound and no name repeats.
    pub open spec fn wf(&self) -> bool {
        &&& forall|i: int| 0 <= i < self.collections@.len()
            ==> (#[trigger] self.collections@[i]).wf()
        &&& forall|i: int, j: int| 0 <= i < j < self.collections@.len()
            ==> (#[trigger] self.collections@[i]).name@
                != (#[trigger] self.collections@[j]).name@
    }

    /// Whether a name is registered.
    pub open spec fn has_name(&self, name: Seq<char>) -> bool {
        name_pos(self.collections@, name) < self.collections@.len()
    }

    pub fn new() -> (r: Catalog)
        ensures
            r.wf(),
            r.collections@.len() == 0,
    {
        Catalog { collections: Vec::new() }
    }

    /// Position of a name, if registered.
    fn find(&self, name: &str) -> (r: Option<usize>)
        ensures
            match r {
                Some(i) => i == name_pos(self.collections@, name@)
                    && i < self.collections@.len()
                    && self.collections@[i as int].name@ == name@,
                None => !self.has_name(name@),
            },
    {
        let n = self.collections.len();
        let mut i: usize = 0;
        while i < n
            invariant
                0 <= i <= n,
                n == self.collections@.len(),
                forall|m: int| 0 <= m < i
                    ==> (#[trigger] self.collections@[m]).name@ != name@,
            decreases n - i,
        {
            if str_eq(self.collections[i].name.as_str(), name) {
                proof {
                    lemma_name_pos_at(self.collections@, name@, i as int);
                }
                return Some(i);
            }
            i += 1;
        }
        proof {
            lemma_name_pos_at(self.collections@, name@, n as int);
        }
        None
    }

    /// Registers a new collection; an existing name is left untouched and
    /// reported with `false`.
    pub fn create_collection(&mut self, name: String, dim: usize, metric: Metric) -> (created:
        bool)
        requires
            old(self).wf(),
            dim >= 1,
        ensures
            final(self).wf(),
            created == !old(self).has_name(name@),
            !created ==> *final(self) == *old(self),
            created ==> final(self).collections@.len() == old(self).collections@.len() + 1
                && final(self).collections@.drop_last() == old(self).collections@
                && final(self).collections@.last().name@ == name@
                && final(self).collections@.last().dim == dim
                && final(self).collections@.last().metric == metric
                && final(self).collections@.last().index.len_spec() == 0,
            final(self).has_name(name@),
    {
        match self.find(name.as_str()) {
            Some(_) => false,
            None => {
                proof {
                    lemma_name_pos(self.collections@, name@);
                }
                let c = Collection::new(name, dim, metric);
                let ghost oldc = self.collections@;
                self.collections.push(c);
                proof {
                    assert(self.collections@.drop_last() =~= oldc);
                    assert forall|i: int, j: int| 0 <= i < j < self.collections@.len()
                        implies (#[trigger] self.collections@[i]).name@
                            != (#[trigger] self.collections@[j]).name@ by {
                        if j == self.collections@.len() - 1 {
                            lemma_name_pos(oldc, self.collections@[j].name@);
                        }
                    }
                    lemma_name_pos_at(
                        self.collections@,
                        self.collections@.last().name@,
                        oldc.len() as int,
                    );
                }
                true
            },
        }
    }

    /// A by-name handle, handed out iff the name is registered.
    pub fn get(&self, name: &str) -> (r: Option<CollectionHandle>)
        ensures
            match r {
                Some(h) => self.has_name(name@) && h.name@ == name@,
                None => !self.has_name(name@),
            },
    {
        match self.find(name) {
            Some(_) => Some(CollectionHandle { name: name.to_owned() }),
            None => None,
        }
    }

    /// Number of collections.
    pub fn len(&self) -> (r: usize)
        ensures
            r == self.collections@.len(),
    {
        self.collections.len()
    }

    /// Total number of stored points over all collections, saturating at
    /// the machine limit.
    pub fn total_points(&self) -> (r: usize)
        ensures
            r as int == (if total_points_spec(self.collections@) > usize::MAX as int {
                usize::MAX as int
            } else {
                total_points_spec(self.collections@)
            }),
    {
        let n = self.collections.len();
        let mut acc: usize = 0;
        let mut i: usize = 0;
        while i < n
            invariant
                0 <= i <= n,
                n == self.collections@.len(),
                acc as int == (if total_points_spec(self.collections@.take(i as int))
                    > usize::MAX as int {
                    usize::MAX as int
                } else {
                    total_points_spec(self.collections@.take(i as int))
                }),
            decreases n - i,
        {
            let x = self.collections[i].index.len();
            proof {
                assert(self.collections@.take(i + 1).drop_last() =~= self.collections@.take(
                    i as int,
                ));
                lemma_total_points_nonneg(self.collections@.take(i as int));
            }
            acc = if acc > usize::MAX - x {
                usize::MAX
            } else {
                acc + x
            };
            i += 1;
        }
        proof {
            assert(self.collections@.take(n as int) =~= self.collections@);
        }
        acc
    }
}

/// Sum of the row counts of all collections.
pub open spec fn total_points_spec(s: Seq<Collection>) -> int
    decreases s.len(),
{
    if s.len() == 0 {
        0
    } else {
        total_points_spec(s.drop_last()) + s.last().index.len_spec()
    }
}

proof fn lemma_total_points_nonneg(s: Seq<Collection>)
    ensures
        total_points_spec(s) >= 0,
    decreases s.len(),
{
    if s.len() > 0 {
        lemma_total_points_nonneg(s.drop_last());
    }
}

/// A weak, by-name reference to a collection: it stays meaningful as long
/// as the catalog exists, and operations through it find the collection
/// by name each time.
pub struct CollectionHandle {
    pub name: String,
}

impl CollectionHandle {
    /// Validates every point's dimension under the named collection and,
    /// when all fit, appends them as a batch. `None` reports a missing
    /// collection or a dimension mismatch; an empty batch succeeds
    /// without touching anything. Row counts never decrease.
    pub fn upsert_points(&self, cat: &mut Catalog, points: Vec<PointWrite>) -> (r: Option<usize>)
        requires
            old(cat).wf(),
        ensures
            final(cat).wf(),
            points@.len() == 0 ==> r == Some(0usize) && *final(cat) == *old(cat),
            points@.len() > 0 ==> (match r {
                Some(n) => {
                    &&& n == points@.len()
                    &&& old(cat).has_name(self.name@)
                    &&& (forall|i: int| 0 <= i < points@.len()
                        ==> (#[trigger] points@[i]).vector@.len()
                            == old(cat).collections@[name_pos(
                            old(cat).collections@,
                            self.name@,
                        )].dim)
                    &&& upserted_rows(old(cat).collections@, final(cat).collections@,
                        name_pos(old(cat).collections@, self.name@), points@)
                },
                None => {
                    &&& *final(cat) == *old(cat)
                    &&& (!old(cat).has_name(self.name@) || (exists|i: int|
                        0 <= i < points@.len()
                            && (#[trigger] points@[i]).vector@.len()
                                != old(cat).collections@[name_pos(
                                old(cat).collections@,
                                self.name@,
                            )].dim))
                },
            }),
    {
        if points.len() == 0 {
            return Some(0);
        }
        let idx = match cat.find(self.name.as_str()) {
            Some(i) => i,
            None => {
                return None;
            },
        };
        let dim = cat.collections[idx].dim;
        let n = points.len();
        let mut i: usize = 0;
        while i < n
            invariant
                0 <= i <= n,
                n == points@.len(),
                idx < cat.collections@.len(),
                dim == cat.collections@[idx as int].dim,
                *cat == *old(cat),
                old(cat).wf(),
                idx == name_pos(old(cat).collections@, self.name@),
                forall|m: int| 0 <= m < i
                    ==> (#[trigger] points@[m]).vector@.len() == dim,
            decreases n - i,
        {
            if points[i].vector.len() != dim {
                assert(points@[i as int].vector@.len() != dim);
                return None;
            }
            i += 1;
        }
        let ghost pv = points@;
        proof {
            assert(forall|m: int| 0 <= m < n ==> (#[trigger] pv[m]).vector@.len() == dim);
        }
        let mut ids: Vec<String> = Vec::new();
        let mut vectors: Vec<Vec<u32>> = Vec::new();
        let mut payloads: Vec<String> = Vec::new();
        let mut points = points;
        let mut k: usize = 0;
        while k < n
            invariant
                0 <= k <= n,
                n == pv.len(),
                points@ == pv.skip(k as int),
                ids@.len() == k && vectors@.len() == k && payloads@.len() == k,
                forall|m: int| 0 <= m < k ==> #[trigger] ids@[m]@ == pv[m].id@,
                forall|m: int| 0 <= m < k ==> #[trigger] vectors@[m]@ == pv[m].vector@,
                forall|m: int| 0 <= m < k ==> #[trigger] payloads@[m]@ == pv[m].payload_json@,
            decreases n - k,
        {
            let p = points.remove(0);
            proof {
                assert(pv.skip(k as int)[0] == pv[k as int]);
                assert(p == pv[k as int]);
            }
            let ghost gids = ids@;
            let ghost gvecs = vectors@;
            let ghost gpays = payloads@;
            ids.push(p.id);
            vectors.push(p.vector);
            payloads.push(p.payload_json);
            proof {
                assert(points@ =~= pv.skip(k + 1));
                assert(ids@ == gids.push(pv[k as int].id));
                assert(vectors@ == gvecs.push(pv[k as int].vector));
                assert(payloads@ == gpays.push(pv[k as int].payload_json));
                assert forall|m: int| 0 <= m < k + 1 implies #[trigger] ids@[m]@ == pv[m].id@ by {
                    if m < k {
                        assert(ids@[m] == gids[m]);
                    } else {
                        assert(ids@[m] == pv[k as int].id);
                    }
                }
                assert forall|m: int| 0 <= m < k + 1
                    implies #[trigger] vectors@[m]@ == pv[m].vector@ by {
                    if m < k {
                        assert(vectors@[m] == gvecs[m]);
                    } else {
                        assert(vectors@[m] == pv[k as int].vector);
                    }
                }
                assert forall|m: int| 0 <= m < k + 1
                    implies #[trigger] payloads@[m]@ == pv[m].payload_json@ by {
                    if m < k {
                        assert(payloads@[m] == gpays[m]);
                    } else {
                        assert(payloads@[m] == pv[k as int].payload_json);
                    }
                }
            }
            k += 1;
        }
        proof {
            assert(forall|m: int| 0 <= m < n
                ==> #[trigger] vectors@[m]@.len() == dim);
        }
        let mut coll = cat.collections.remove(idx);
        let ghost oldcols = old(cat).collections@;
        let ghost oldcoll = coll;
        proof {
            assert(coll == oldcols[idx as int]);
        }
        let added = coll.upsert_batch(ids, vectors, payloads);
        proof {
            let dv = vectors.deep_view();
            let oldn = oldcoll.index.ids@.len() as int;
            let dimi = dim as int;
            assert(forall|m: int| 0 <= m < n ==> #[trigger] dv[m] == vectors@[m]@);
            assert(forall|m: int| 0 <= m < dv.len() ==> (#[trigger] dv[m]).len() == dimi);
            crate::index::lemma_flat_len(dv, n as int, dimi);
            let fv = flat_of(dv, n as int);
            assert(coll.index.vectors@ == oldcoll.index.vectors@ + fv);
            assert(coll.index.vectors@.len() == oldcoll.index.vectors@.len() + n * dimi);
            assert forall|m: int, j: int| 0 <= m < n && 0 <= j < dimi
                implies coll.index.vectors@[oldcoll.index.vectors@.len() + m * dimi + j]
                    == (#[trigger] pv[m].vector@[j]) by {
                crate::index::lemma_flat_segment(dv, n as int, dimi, m);
                assert(0 <= m * dimi + j) by (nonlinear_arith)
                    requires 0 <= m && 0 <= dimi && 0 <= j;
                assert(m * dimi + dimi <= n * dimi) by (nonlinear_arith)
                    requires m + 1 <= n && 0 <= dimi;
                assert(fv.subrange(m * dimi, m * dimi + dimi)[j] == fv[m * dimi + j]);
                assert(fv.subrange(m * dimi, m * dimi + dimi) == dv[m]);
                assert(coll.index.vectors@[oldcoll.index.vectors@.len() + m * dimi + j]
                    == fv[m * dimi + j]);
            }
            assert(forall|m: int| 0 <= m < oldn
                ==> #[trigger] coll.index.ids@[m] == oldcoll.index.ids@[m]
                    && #[trigger] coll.index.payloads@[m] == oldcoll.index.payloads@[m]);
            assert forall|m: int| 0 <= m < n
                implies (#[trigger] coll.index.ids@[oldn + m])@ == pv[m].id@
                    && (#[trigger] coll.index.payloads@[oldn + m])@ == pv[m].payload_json@ by {
                assert(coll.index.ids@[oldn + m] == ids@[m]);
                assert(coll.index.payloads@[oldn + m] == payloads@[m]);
            }
            lemma_appended_rows(oldcoll, coll, pv);
        }
        cat.collections.insert(idx, coll);
        proof {
            assert(cat.collections@ =~= oldcols.update(idx as int, cat.collections@[idx as int]));
            assert forall|a: int, b: int| 0 <= a < b < cat.collections@.len()
                implies (#[trigger] cat.collections@[a]).name@
                    != (#[trigger] cat.collections@[b]).name@ by {
                assert(oldcols[a].name@ != oldcols[b].name@);
            }
            assert(upserted_rows(oldcols, cat.collections@, idx as int, pv));
        }
        Some(added)
    }

    /// Filtered search through the handle: an empty query yields no hits,
    /// a query of the wrong dimension (or a vanished collection) is
    /// rejected, anything else searches the named collection.
    pub fn search(
        &self,
        cat: &Catalog,
        query: Vec<u32>,
        top_k: usize,
        metric_override: Option<Metric>,
        filters: Vec<(String, String)>,
    ) -> (r: Option<Vec<(String, u32, String)>>)
        requires
            cat.wf(),
        ensures
            query@.len() == 0 ==> (match r {
                Some(h) => h@.len() == 0,
                None => false,
            }),
            query@.len() > 0 ==> (match r {
                Some(h) => cat.has_name(self.name@)
                    && query@.len() == cat.collections@[name_pos(cat.collections@, self.name@)].dim
                    && h@.map_values(|t: (String, u32, String)| (t.0@, t.1, t.2@))
                        == cat.collections@[name_pos(cat.collections@, self.name@)].search_spec(
                        query@,
                        top_k as int,
                        metric_override,
                        filters_v(filters@),
                    ),
                None => !cat.has_name(self.name@)
                    || query@.len() != cat.collections@[name_pos(
                    cat.collections@,
                    self.name@,
                )].dim,
            }),
    {
        if query.len() == 0 {
            return Some(Vec::new());
        }
        let idx = match cat.find(self.name.as_str()) {
            Some(i) => i,
            None => {
                return None;
            },
        };
        let coll = &cat.collections[idx];
        if !coll.validate_dim(&query) {
            return None;
        }
        let r = if filters.len() == 0 {
            let out = coll.search(&query, top_k, metric_override, None);
            proof {
                assert(filters_v(filters@) =~= Seq::<(Seq<char>, Seq<char>)>::empty());
            }
            out
        } else {
            coll.search(&query, top_k, metric_override, Some(&filters))
        };
        Some(r)
    }
}

/// The named collection gained exactly the given points as rows, in
/// order; nothing else changed anywhere in the catalog.
pub open spec fn upserted_rows(
    oldc: Seq<Collection>,
    newc: Seq<Collection>,
    at: int,
    points: Seq<PointWrite>,
) -> bool {
    &&& newc.len() == oldc.len()
    &&& (forall|i: int| 0 <= i < oldc.len() && i != at ==> #[trigger] newc[i] == oldc[i])
    &&& 0 <= at < oldc.len()
    &&& newc[at].name == oldc[at].name
    &&& newc[at].dim == oldc[at].dim
    &&& newc[at].metric == oldc[at].metric
    &&& coll_v(newc[at]).rows =~= coll_v(oldc[at]).rows + points.map_values(
        |p: PointWrite| RowV { id: p.id@, vec: p.vector@, payload: p.payload_json@ },
    )
}


/// After a batch append whose columns carry exactly the given points, the
/// abstract rows are the old rows followed by the points.
proof fn lemma_appended_rows(oldc: Collection, newc: Collection, points: Seq<PointWrite>)
    requires
        oldc.wf(),
        newc.wf(),
        newc.dim == oldc.dim,
        newc.index.dim == oldc.index.dim,
        newc.index.ids@.len() == oldc.index.ids@.len() + points.len(),
        newc.index.payloads@.len() == oldc.index.payloads@.len() + points.len(),
        forall|m: int| 0 <= m < oldc.index.ids@.len()
            ==> #[trigger] newc.index.ids@[m] == oldc.index.ids@[m]
                && #[trigger] newc.index.payloads@[m] == oldc.index.payloads@[m],
        forall|m: int| 0 <= m < points.len()
            ==> (#[trigger] newc.index.ids@[oldc.index.ids@.len() + m])@ == points[m].id@
                && (#[trigger] newc.index.payloads@[oldc.index.ids@.len() + m])@
                    == points[m].payload_json@,
        forall|m: int| 0 <= m < points.len()
            ==> (#[trigger] points[m]).vector@.len() == oldc.dim,
        newc.index.vectors@.len() == oldc.index.vectors@.len() + points.len() * oldc.dim,
        forall|j: int| 0 <= j < oldc.index.vectors@.len()
            ==> #[trigger] newc.index.vectors@[j] == oldc.index.vectors@[j],
        forall|m: int, j: int| 0 <= m < points.len() && 0 <= j < oldc.dim
            ==> newc.index.vectors@[oldc.index.vectors@.len() + m * oldc.dim + j]
                == (#[trigger] points[m].vector@[j]),
    ensures
        coll_v(newc).rows =~= coll_v(oldc).rows + points.map_values(
            |p: PointWrite| RowV { id: p.id@, vec: p.vector@, payload: p.payload_json@ },
        ),
{
    let oldn = oldc.index.ids@.len() as int;
    let dim = oldc.dim as int;
    assert forall|i: int| 0 <= i < coll_v(newc).rows.len()
        implies coll_v(newc).rows[i] == (coll_v(oldc).rows + points.map_values(
            |p: PointWrite| RowV { id: p.id@, vec: p.vector@, payload: p.payload_json@ },
        ))[i] by {
        if i < oldn {
            crate::index::lemma_row_in_bounds(i, oldn, dim, oldc.index.vectors@.len() as int);
            assert(newc.index.row(i) =~= oldc.index.row(i));
        } else {
            let m = i - oldn;
            assert(0 <= m < points.len());
            assert(oldn * dim == oldc.index.vectors@.len());
            assert(i * dim == oldn * dim + m * dim) by (nonlinear_arith)
                requires i == oldn + m;
            assert((oldn + points.len()) * dim
                == oldn * dim + points.len() * dim) by (nonlinear_arith);
            assert(m * dim + dim <= points.len() * dim) by (nonlinear_arith)
                requires 0 <= m + 1 <= points.len() && 0 <= dim;
            assert(0 <= m * dim) by (nonlinear_arith)
                requires 0 <= m && 0 <= dim;
            assert(newc.index.row(i) =~= points[m].vector@);
        }
    }
}


/// The whole catalog, abstractly.
pub open spec fn cat_v(c: Catalog) -> Seq<CollV> {
    c.collections@.map_values(|cc: Collection| coll_v(cc))
}

/// First position of a name among abstract collections, or the length.
pub open spec fn collv_pos(s: Seq<CollV>, name: Seq<char>) -> int
    decreases s.len(),
{
    if s.len() > 0 && s[0].name != name {
        1 + collv_pos(s.drop_first(), name)
    } else {
        0
    }
}

/// The abstract and the concrete name lookup agree.
pub proof fn lemma_collv_pos(s: Seq<Collection>, name: Seq<char>)
    ensures
        collv_pos(s.map_values(|cc: Collection| coll_v(cc)), name) == name_pos(s, name),
    decreases s.len(),
{
    let mv = s.map_values(|cc: Collection| coll_v(cc));
    if s.len() > 0 {
        assert(mv[0] == coll_v(s[0]));
        if s[0].name@ != name {
            lemma_collv_pos(s.drop_first(), name);
            assert(mv.drop_first() =~= s.drop_first().map_values(|cc: Collection| coll_v(cc)));
        }
    }
}


// ---------------------------------------------------------------------------
// Filter idempotence.
// ---------------------------------------------------------------------------

/// The filtered candidates name strictly increasing rows.
proof fn lemma_cands_passing_increasing(
    idx: FlatIndex,
    q: Seq<u32>,
    m: Metric,
    fs: Seq<(Seq<char>, Seq<char>)>,
    n: int,
)
    requires
        0 <= n <= idx.len_spec(),
    ensures
        rows_increasing(cands_passing(idx, q, m, fs, n)),
    decreases n,
{
    broadcast use vstd::std_specs::vec::axiom_spec_len;
    assert(vstd::std_specs::vec::spec_vec_len(&idx.ids) == idx.ids@.len());
    if n > 0 {
        lemma_cands_passing_increasing(idx, q, m, fs, n - 1);
        lemma_cands_passing_bounds(idx, q, m, fs, n - 1);
        let p = cands_passing(idx, q, m, fs, n - 1);
        let c = cands_passing(idx, q, m, fs, n);
        if fs.len() == 0 || row_passes(idx.payloads@[n - 1]@, fs) {
            assert(forall|j: int| 0 <= j < p.len() ==> c[j] == #[trigger] p[j]);
            assert(c[c.len() - 1].0 == (n - 1) as usize);
            assert(((n - 1) as usize) as int == n - 1);
        }
    }
}

/// With no filters, every row is a candidate: the filtered candidate
/// list is the plain one.
proof fn lemma_cands_passing_empty(idx: FlatIndex, q: Seq<u32>, m: Metric, n: int)
    requires
        0 <= n <= idx.len_spec(),
    ensures
        cands_passing(idx, q, m, Seq::empty(), n) == idx.cand_seq(q, m).take(n),
    decreases n,
{
    if n == 0 {
        assert(cands_passing(idx, q, m, Seq::empty(), n) =~= idx.cand_seq(q, m).take(0));
    } else {
        lemma_cands_passing_empty(idx, q, m, n - 1);
        assert(cands_passing(idx, q, m, Seq::empty(), n)
            =~= idx.cand_seq(q, m).take(n));
    }
}

/// Filter idempotence: filtering during a search is the same as
/// searching, with no filters, a collection that holds exactly the rows
/// whose payloads pass the filters, in their original order. A row
/// satisfying the filters is returned by the one iff it is returned by
/// the other, with the same score and position.
pub proof fn lemma_filter_is_restriction(
    a: &Collection,
    b: &Collection,
    q: Seq<u32>,
    k: int,
    mo: Option<Metric>,
    fs: Seq<(Seq<char>, Seq<char>)>,
)
    requires
        a.wf(),
        b.wf(),
        k >= 0,
        b.metric == a.metric,
        ({
            let m = a.index.eff_metric(mo);
            let pc = cands_passing(a.index, q, m, fs, a.index.len_spec() as int);
            &&& b.index.len_spec() == pc.len()
            &&& (forall|j: int| 0 <= j < pc.len()
                ==> #[trigger] b.index.row(j) == a.index.row(pc[j].0 as int))
            &&& (forall|j: int| 0 <= j < pc.len()
                ==> (#[trigger] b.index.ids@[j])@ == a.index.ids@[pc[j].0 as int]@)
            &&& (forall|j: int| 0 <= j < pc.len()
                ==> (#[trigger] b.index.payloads@[j])@ == a.index.payloads@[pc[j].0 as int]@)
        }),
    ensures
        b.search_spec(q, k, mo, Seq::empty()) == a.search_spec(q, k, mo, fs),
{
    broadcast use vstd::std_specs::vec::axiom_spec_len;
    assert(vstd::std_specs::vec::spec_vec_len(&a.index.ids) == a.index.ids@.len());
    assert(vstd::std_specs::vec::spec_vec_len(&b.index.ids) == b.index.ids@.len());
    let m = a.index.eff_metric(mo);
    assert(b.index.eff_metric(mo) == m);
    let na = a.index.len_spec() as int;
    let nb = b.index.len_spec() as int;
    let pc = cands_passing(a.index, q, m, fs, na);
    lemma_cands_passing_bounds(a.index, q, m, fs, na);
    lemma_cands_passing_increasing(a.index, q, m, fs, na);

    // The restricted collection's candidates are the passing candidates,
    // relabeled with their positions.
    let cs_b = cands_passing(b.index, q, m, Seq::empty(), nb);
    lemma_cands_passing_empty(b.index, q, m, nb);
    assert(b.index.cand_seq(q, m).take(nb) =~= b.index.cand_seq(q, m));
    let mt = pc.map_values(|c: (usize, u32)| twin(pc, c));
    assert(cs_b =~= mt) by {
        assert forall|j: int| 0 <= j < pc.len() implies mt[j] == cs_b[j] by {
            lemma_rank_at(pc, j);
            lemma_rank_bounds(pc, pc[j].0);
            assert(mt[j] == twin(pc, pc[j]));
            assert(cs_b[j] == b.index.cand_seq(q, m)[j]);
            assert(score_of(m, q, b.index.row(j)) == score_of(m, q, a.index.row(pc[j].0 as int)));
            assert(pc[j].1 == score_of(m, q, a.index.row(pc[j].0 as int)));
        }
    }

    // Sorting commutes with the relabeling.
    assert(all_from(pc, pc)) by {
        assert(forall|i: int| 0 <= i < pc.len() ==> pc.contains(#[trigger] pc[i]));
    }
    lemma_sort_twin(pc, pc);
    let sa = sort_cands(pc);
    let sb = sort_cands(cs_b);
    assert(sb == sa.map_values(|c: (usize, u32)| twin(pc, c)));
    lemma_sort_membership_all(pc);
    assert(sa.len() == pc.len());
    assert(sb.len() == pc.len());
    let kk = if k < pc.len() { k } else { pc.len() as int };
    assert(0 <= kk <= sa.len());
    let cut_a = sa.take(kk);
    let cut_b = sb.take(kk);
    assert(cut_b =~= cut_a.map_values(|c: (usize, u32)| twin(pc, c))) by {
        assert forall|i: int| 0 <= i < kk
            implies #[trigger] cut_b[i] == cut_a.map_values(
            |c: (usize, u32)| twin(pc, c),
        )[i] by {
            assert(cut_b[i] == sb[i]);
            assert(cut_a[i] == sa[i]);
            assert(sb[i] == sa.map_values(|c: (usize, u32)| twin(pc, c))[i]);
        }
    }

    // Joined with ids and payloads, both sides carry the same triples.
    assert(b.search_spec(q, k, mo, Seq::empty()) =~= a.search_spec(q, k, mo, fs)) by {
        assert forall|i: int| 0 <= i < cut_a.len()
            implies b.search_spec(q, k, mo, Seq::empty())[i]
                == a.search_spec(q, k, mo, fs)[i] by {
            let d = cut_a[i];
            assert(0 <= i < kk);
            assert(d == sa[i]);
            assert(pc.contains(d));
            let j = choose|j: int| 0 <= j < pc.len() && pc[j] == d;
            lemma_rank_at(pc, j);
            lemma_rank_bounds(pc, d.0);
            let c = twin(pc, d);
            assert(c.0 as int == j);
            assert(cut_b[i] == c);
            assert(b.index.ids@[j]@ == a.index.ids@[d.0 as int]@);
            assert(b.index.payloads@[j]@ == a.index.payloads@[d.0 as int]@);
        }
    }
}

} // verus!
