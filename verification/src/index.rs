use vstd::prelude::*;
use vstd::std_specs::vec::spec_vec_len;

use crate::fbits::{
    fadd, fdiv, fmul, fneg, fsqrt, fsub, score_key, score_key_x, sf_add, sf_div, sf_is_zero,
    sf_mul, sf_neg, sf_sqrt, sf_sub,
};
use crate::types::Metric;

use rayon::iter::IndexedParallelIterator;
use rayon::iter::IntoParallelIterator;
use rayon::iter::ParallelIterator;

verus! {

/// Error raised by the index when inputs do not fit its dimensionality.
#[derive(Clone, Copy, Debug, PartialEq, Eq, Structural)]
pub enum IndexError {
    DimensionMismatch,
}

// ---------------------------------------------------------------------------
// Scoring. Vectors are sequences of binary32 bit patterns; every metric is
// reported as a similarity where larger is better.
// ---------------------------------------------------------------------------

/// Running sum of squared differences over the first `n` components,
/// accumulated left to right in binary32 arithmetic.
pub open spec fn l2_acc(q: Seq<u32>, v: Seq<u32>, n: int) -> u32
    decreases n,
{
    if n <= 0 {
        0u32
    } else {
        sf_add(
            l2_acc(q, v, n - 1),
            sf_mul(sf_sub(q[n - 1], v[n - 1]), sf_sub(q[n - 1], v[n - 1])),
        )
    }
}

/// Running dot product over the first `n` components.
pub open spec fn dot_acc(q: Seq<u32>, v: Seq<u32>, n: int) -> u32
    decreases n,
{
    if n <= 0 {
        0u32
    } else {
        sf_add(dot_acc(q, v, n - 1), sf_mul(q[n - 1], v[n - 1]))
    }
}

/// Running sum of squares over the first `n` components.
pub open spec fn sq_acc(v: Seq<u32>, n: int) -> u32
    decreases n,
{
    if n <= 0 {
        0u32
    } else {
        sf_add(sq_acc(v, n - 1), sf_mul(v[n - 1], v[n - 1]))
    }
}

/// Similarity score of `v` against query `q` under metric `m`:
/// L2 is the negated sum of squared differences, IP the raw dot product,
/// Cosine the normalized dot product with a zero score whenever either
/// operand has zero norm.
pub open spec fn score_of(m: Metric, q: Seq<u32>, v: Seq<u32>) -> u32 {
    match m {
        Metric::L2 => sf_neg(l2_acc(q, v, q.len() as int)),
        Metric::IP => dot_acc(q, v, q.len() as int),
        Metric::Cosine => {
            let d = dot_acc(q, v, q.len() as int);
            let nq = sf_sqrt(sq_acc(q, q.len() as int));
            let nv = sf_sqrt(sq_acc(v, v.len() as int));
            if sf_is_zero(nq) || sf_is_zero(nv) {
                0u32
            } else {
                sf_div(d, sf_mul(nq, nv))
            }
        },
    }
}

// ---------------------------------------------------------------------------
// Candidate ordering: by descending score, NaN scores at the bottom, ties
// broken by ascending row index.
// ---------------------------------------------------------------------------

/// Whether candidate `a` must come before candidate `b` in a result list.
pub open spec fn cand_better(a: (usize, u32), b: (usize, u32)) -> bool {
    score_key(a.1) > score_key(b.1) || (score_key(a.1) == score_key(b.1) && a.0 < b.0)
}

/// Descending order: no later element may belong before an earlier one.
pub open spec fn sorted_cands(s: Seq<(usize, u32)>) -> bool {
    forall|i: int, j: int| 0 <= i < j < s.len() ==> !cand_better(#[trigger] s[j], #[trigger] s[i])
}

fn cand_better_x(a: (usize, u32), b: (usize, u32)) -> (r: bool)
    ensures
        r == cand_better(a, b),
{
    let ka = score_key_x(a.1);
    let kb = score_key_x(b.1);
    ka > kb || (ka == kb && a.0 < b.0)
}

/// Position at which `x` belongs in the sorted list `s`.
pub open spec fn ipos(x: (usize, u32), s: Seq<(usize, u32)>) -> int
    decreases s.len(),
{
    if s.len() > 0 && cand_better(s[0], x) {
        1 + ipos(x, s.drop_first())
    } else {
        0
    }
}

proof fn lemma_ipos_range(x: (usize, u32), s: Seq<(usize, u32)>)
    ensures
        0 <= ipos(x, s) <= s.len(),
    decreases s.len(),
{
    if s.len() > 0 && cand_better(s[0], x) {
        lemma_ipos_range(x, s.drop_first());
    }
}

proof fn lemma_ipos_at(x: (usize, u32), s: Seq<(usize, u32)>, j: int)
    requires
        0 <= j <= s.len(),
        forall|m: int| 0 <= m < j ==> cand_better(#[trigger] s[m], x),
        j < s.len() ==> !cand_better(s[j as int], x),
    ensures
        ipos(x, s) == j,
    decreases s.len(),
{
    if j == 0 {
    } else {
        assert(cand_better(s[0], x));
        assert(forall|m: int|
            0 <= m < j - 1 ==> cand_better(#[trigger] s.drop_first()[m], x)) by {
            assert(forall|m: int|
                0 <= m < j - 1 ==> s.drop_first()[m] == #[trigger] s[m + 1]);
        }
        assert(j - 1 < s.drop_first().len() ==> !cand_better(s.drop_first()[j - 1], x));
        lemma_ipos_at(x, s.drop_first(), j - 1);
    }
}

/// `s` with `x` inserted at its position.
pub open spec fn insert_sorted(x: (usize, u32), s: Seq<(usize, u32)>) -> Seq<(usize, u32)> {
    s.insert(ipos(x, s), x)
}

/// Insertion sort of a candidate list, defined from the back.
pub open spec fn sort_cands(s: Seq<(usize, u32)>) -> Seq<(usize, u32)>
    decreases s.len(),
{
    if s.len() == 0 {
        Seq::empty()
    } else {
        insert_sorted(s.last(), sort_cands(s.drop_last()))
    }
}

proof fn lemma_ipos_front(x: (usize, u32), s: Seq<(usize, u32)>)
    ensures
        forall|m: int| 0 <= m < ipos(x, s) ==> cand_better(#[trigger] s[m], x),
        ipos(x, s) < s.len() ==> !cand_better(s[ipos(x, s)], x),
        0 <= ipos(x, s) <= s.len(),
    decreases s.len(),
{
    lemma_ipos_range(x, s);
    if s.len() > 0 && cand_better(s[0], x) {
        lemma_ipos_front(x, s.drop_first());
        assert(forall|m: int|
            0 <= m < ipos(x, s) - 1 ==> cand_better(#[trigger] s.drop_first()[m], x));
        assert forall|m: int| 0 <= m < ipos(x, s) implies cand_better(#[trigger] s[m], x) by {
            if m > 0 {
                assert(s[m] == s.drop_first()[m - 1]);
            }
        }
        if ipos(x, s) < s.len() {
            assert(s[ipos(x, s)] == s.drop_first()[ipos(x, s) - 1]);
        }
    }
}

proof fn lemma_insert_preserves_sorted(x: (usize, u32), s: Seq<(usize, u32)>)
    requires
        sorted_cands(s),
    ensures
        sorted_cands(insert_sorted(x, s)),
{
    let p = ipos(x, s);
    lemma_ipos_front(x, s);
    let t = s.insert(p, x);
    assert forall|i: int, j: int| 0 <= i < j < t.len() implies !cand_better(t[j], t[i]) by {
        if i < p && j == p {
            assert(t[i] == s[i]);
            assert(t[j] == x);
            assert(cand_better(s[i], x));
        } else if i == p && j > p {
            assert(t[i] == x);
            assert(t[j] == s[j - 1]);
            if p < s.len() {
                assert(!cand_better(s[p], x));
                assert(!cand_better(s[j - 1], s[p]) || j - 1 == p);
            }
        } else if i < p && j > p {
            assert(t[i] == s[i] && t[j] == s[j - 1]);
        } else if i > p && j > p {
            assert(t[i] == s[i - 1] && t[j] == s[j - 1]);
        } else {
            assert(i < p && j < p);
            assert(t[i] == s[i] && t[j] == s[j]);
        }
    }
}

proof fn lemma_sort_sorted(s: Seq<(usize, u32)>)
    ensures
        sorted_cands(sort_cands(s)),
    decreases s.len(),
{
    if s.len() == 0 {
    } else {
        lemma_sort_sorted(s.drop_last());
        lemma_insert_preserves_sorted(s.last(), sort_cands(s.drop_last()));
    }
}

proof fn lemma_insert_multiset(x: (usize, u32), s: Seq<(usize, u32)>)
    ensures
        insert_sorted(x, s).to_multiset() == s.to_multiset().insert(x),
{
    let p = ipos(x, s);
    lemma_ipos_range(x, s);
    let t = s.insert(p, x);
    assert(t =~= s.take(p).push(x) + s.skip(p));
    s.take(p).push(x).to_multiset_ensures();
    vstd::seq_lib::lemma_multiset_commutative(s.take(p).push(x), s.skip(p));
    vstd::seq_lib::lemma_multiset_commutative(s.take(p), s.skip(p));
    assert(s.take(p) + s.skip(p) =~= s);
    s.take(p).to_multiset_ensures();
    assert(s.take(p).push(x).to_multiset() == s.take(p).to_multiset().insert(x));
    assert(t.to_multiset() =~= s.to_multiset().insert(x)) by {
        assert(t.to_multiset() == s.take(p).push(x).to_multiset().add(s.skip(p).to_multiset()));
    }
}

proof fn lemma_sort_multiset(s: Seq<(usize, u32)>)
    ensures
        sort_cands(s).to_multiset() == s.to_multiset(),
    decreases s.len(),
{
    if s.len() == 0 {
        assert(sort_cands(s) =~= s);
    } else {
        lemma_sort_multiset(s.drop_last());
        lemma_insert_multiset(s.last(), sort_cands(s.drop_last()));
        s.drop_last().to_multiset_ensures();
        assert(s.drop_last().push(s.last()) =~= s);
        s.drop_last().push(s.last()).to_multiset_ensures();
    }
}

/// A sort's output has its input's length, and every element of the
/// output is an element of the input.
pub proof fn lemma_sort_membership_all(s: Seq<(usize, u32)>)
    ensures
        sort_cands(s).len() == s.len(),
        forall|i: int| 0 <= i < sort_cands(s).len() ==> s.contains(#[trigger] sort_cands(s)[i]),
{
    lemma_sort_multiset(s);
    s.to_multiset_ensures();
    sort_cands(s).to_multiset_ensures();
    assert forall|i: int| 0 <= i < sort_cands(s).len()
        implies s.contains(#[trigger] sort_cands(s)[i]) by {
        assert(sort_cands(s).to_multiset().contains(sort_cands(s)[i]));
    }
}

fn insert_sorted_x(v: &mut Vec<(usize, u32)>, x: (usize, u32))
    ensures
        final(v)@ == insert_sorted(x, old(v)@),
{
    let mut j: usize = 0;
    while j < v.len() && cand_better_x(v[j], x)
        invariant
            0 <= j <= v@.len(),
            v@ == old(v)@,
            forall|m: int| 0 <= m < j ==> cand_better(#[trigger] v@[m], x),
        decreases v@.len() - j,
    {
        j += 1;
    }
    proof {
        lemma_ipos_at(x, v@, j as int);
    }
    v.insert(j, x);
}

/// Sorts candidates by descending score, ties by ascending row index.
pub fn sort_cands_vec(v: Vec<(usize, u32)>) -> (r: Vec<(usize, u32)>)
    ensures
        r@ == sort_cands(v@),
{
    let mut out: Vec<(usize, u32)> = Vec::new();
    let mut i: usize = 0;
    while i < v.len()
        invariant
            0 <= i <= v@.len(),
            out@ == sort_cands(v@.take(i as int)),
        decreases v@.len() - i,
    {
        insert_sorted_x(&mut out, v[i]);
        proof {
            let pre = v@.take(i as int);
            let post = v@.take(i as int + 1);
            assert(post.drop_last() =~= pre);
            assert(post.last() == v@[i as int]);
        }
        i += 1;
    }
    proof {
        assert(v@.take(v@.len() as int) =~= v@);
    }
    out
}

// ---------------------------------------------------------------------------
// The flat index: a dense columnar store of vectors, ids and payloads.
// ---------------------------------------------------------------------------

/// Brute-force index for one collection. Row `i` of the vector column spans
/// offsets `[i*dim, (i+1)*dim)`. The same external id may appear in several
/// rows: appends never deduplicate.
pub struct FlatIndex {
    pub dim: usize,
    pub vectors: Vec<u32>,
    pub ids: Vec<String>,
    pub payloads: Vec<String>,
    pub metric: Metric,
}

/// Flattening of a batch of vectors, front to back.
pub open spec fn flat_of(vs: Seq<Seq<u32>>, n: int) -> Seq<u32>
    decreases n,
{
    if n <= 0 {
        Seq::empty()
    } else {
        flat_of(vs, n - 1) + vs[n - 1]
    }
}

impl FlatIndex {
    /// Structural invariant: one id and one payload per row, and the vector
    /// column holds exactly `len() * dim` numbers.
    pub open spec fn wf(&self) -> bool {
        &&& self.dim >= 1
        &&& self.ids@.len() == self.payloads@.len()
        &&& self.vectors@.len() == self.ids@.len() * self.dim
    }

    /// Number of rows.
    pub open spec fn len_spec(&self) -> nat {
        self.ids@.len()
    }

    /// The vector stored at row `i`.
    pub open spec fn row(&self, i: int) -> Seq<u32> {
        self.vectors@.subrange(i * self.dim, i * self.dim + self.dim)
    }

    /// The metric a query runs under: the override if given, else the
    /// index default.
    pub open spec fn eff_metric(&self, o: Option<Metric>) -> Metric {
        match o {
            Some(m) => m,
            None => self.metric,
        }
    }

    /// One scored candidate per row, in row order.
    pub open spec fn cand_seq(&self, q: Seq<u32>, m: Metric) -> Seq<(usize, u32)> {
        Seq::new(self.len_spec(), |i: int| (i as usize, score_of(m, q, self.row(i))))
    }

    /// The exact result of a top-k search: all rows scored, sorted by
    /// descending score with ties by ascending row index, cut to `k`.
    pub open spec fn topk_spec(&self, q: Seq<u32>, k: int, m: Metric) -> Seq<(usize, u32)> {
        let sorted = sort_cands(self.cand_seq(q, m));
        sorted.take(if k < sorted.len() { k } else { sorted.len() as int })
    }

    pub fn new(dim: usize, metric: Metric) -> (r: FlatIndex)
        requires
            dim >= 1,
        ensures
            r.wf(),
            r.dim == dim,
            r.metric == metric,
            r.len_spec() == 0,
            r.vectors@.len() == 0,
    {
        FlatIndex { dim, vectors: Vec::new(), ids: Vec::new(), payloads: Vec::new(), metric }
    }

    pub fn len(&self) -> (r: usize)
        ensures
            r == self.len_spec(),
    {
        self.ids.len()
    }

    /// Appends a batch of rows. All three columns must be handed the same
    /// number of entries and every vector must have exactly `dim`
    /// components; otherwise nothing changes and the batch is rejected.
    /// Row count never decreases.
    pub fn add_batch(&mut self, ids: Vec<String>, vecs: Vec<Vec<u32>>, payloads: Vec<String>)
        -> (r: Result<(), IndexError>)
        requires
            old(self).wf(),
        ensures
            final(self).wf(),
            final(self).dim == old(self).dim,
            final(self).metric == old(self).metric,
            final(self).len_spec() >= old(self).len_spec(),
            r is Ok <==> (ids@.len() == vecs@.len() && payloads@.len() == vecs@.len()
                && (forall|i: int| 0 <= i < vecs@.len()
                    ==> (#[trigger] vecs@[i])@.len() == old(self).dim)),
            r is Ok ==> final(self).ids@ == old(self).ids@ + ids@
                && final(self).len_spec() == old(self).len_spec() + ids@.len()
                && final(self).payloads@ == old(self).payloads@ + payloads@
                && final(self).vectors@ == old(self).vectors@
                    + flat_of(vecs.deep_view(), vecs@.len() as int),
            r is Err ==> *final(self) == *old(self) && r == Result::<(), IndexError>::Err(
                IndexError::DimensionMismatch,
            ),
    {
        if ids.len() != vecs.len() || payloads.len() != vecs.len() {
            return Err(IndexError::DimensionMismatch);
        }
        let mut ok = true;
        let mut i: usize = 0;
        while i < vecs.len()
            invariant
                0 <= i <= vecs@.len(),
                self == old(self),
                ok == (forall|j: int| 0 <= j < i
                    ==> (#[trigger] vecs@[j])@.len() == self.dim),
            decreases vecs@.len() - i,
        {
            if vecs[i].len() != self.dim {
                ok = false;
                assert(vecs@[i as int]@.len() != self.dim);
            }
            i += 1;
        }
        if !ok {
            return Err(IndexError::DimensionMismatch);
        }
        let n = vecs.len();
        let mut k: usize = 0;
        while k < n
            invariant
                0 <= k <= n,
                n == vecs@.len(),
                self.vectors@ == old(self).vectors@ + flat_of(vecs.deep_view(), k as int),
                self.dim == old(self).dim,
                self.ids == old(self).ids,
                self.payloads == old(self).payloads,
                self.metric == old(self).metric,
            decreases n - k,
        {
            let mut j: usize = 0;
            let ghost pre = self.vectors@;
            while j < vecs[k].len()
                invariant
                    0 <= j <= vecs@[k as int]@.len(),
                    0 <= k < vecs@.len(),
                    self.vectors@ == pre + vecs@[k as int]@.take(j as int),
                    self.dim == old(self).dim,
                    self.ids == old(self).ids,
                    self.payloads == old(self).payloads,
                    self.metric == old(self).metric,
                decreases vecs@[k as int]@.len() - j,
            {
                let x = vecs[k][j];
                self.vectors.push(x);
                proof {
                    assert(vecs@[k as int]@.take(j + 1).drop_last()
                        =~= vecs@[k as int]@.take(j as int));
                    assert(self.vectors@ =~= pre + vecs@[k as int]@.take(j + 1));
                }
                j += 1;
            }
            proof {
                assert(vecs@[k as int]@.take(vecs@[k as int]@.len() as int)
                    =~= vecs@[k as int]@);
                assert(vecs.deep_view()[k as int] == vecs@[k as int]@);
                assert(self.vectors@ =~= old(self).vectors@
                    + flat_of(vecs.deep_view(), k as int + 1));
            }
            k += 1;
        }
        let mut ids = ids;
        let mut payloads = payloads;
        let ghost old_ids = self.ids@;
        let ghost old_payloads = self.payloads@;
        self.ids.append(&mut ids);
        self.payloads.append(&mut payloads);
        proof {
            lemma_flat_len(vecs.deep_view(), n as int, self.dim as int);
            let a = self.ids@.len() as int;
            let b = old_ids.len() as int;
            let d = self.dim as int;
            let nn = n as int;
            assert(a == b + nn);
            assert(a * d == (b + nn) * d) by (nonlinear_arith)
                requires a == b + nn;
            assert((b + nn) * d == b * d + nn * d) by (nonlinear_arith);
        }
        Ok(())
    }
}

/// Length of a flattened batch whose vectors all have length `dim`.
pub proof fn lemma_flat_len(vs: Seq<Seq<u32>>, n: int, dim: int)
    requires
        0 <= n <= vs.len(),
        forall|i: int| 0 <= i < vs.len() ==> (#[trigger] vs[i]).len() == dim,
    ensures
        flat_of(vs, n).len() == n * dim,
    decreases n,
{
    if n > 0 {
        lemma_flat_len(vs, n - 1, dim);
        assert((n - 1) * dim + dim == n * dim) by (nonlinear_arith);
    } else {
        assert(flat_of(vs, n).len() == 0);
        assert(n * dim == 0) by (nonlinear_arith)
            requires n == 0;
    }
}


/// Offsets of a row stay inside the vector column.
pub proof fn lemma_row_in_bounds(i: int, n: int, dim: int, len: int)
    requires
        0 <= i < n,
        0 <= dim,
        len == n * dim,
    ensures
        i * dim + dim <= len,
        0 <= i * dim,
{
    assert((i + 1) * dim <= n * dim) by (nonlinear_arith)
        requires 0 <= i + 1 <= n && 0 <= dim;
    assert((i + 1) * dim == i * dim + dim) by (nonlinear_arith);
    assert(0 <= i * dim) by (nonlinear_arith)
        requires 0 <= i && 0 <= dim;
}

impl FlatIndex {
    /// Sum of squared differences between the query and row `i`.
    fn row_l2(&self, query: &Vec<u32>, i: usize) -> (r: u32)
        requires
            self.wf(),
            query@.len() == self.dim,
            i < self.len_spec(),
        ensures
            r == l2_acc(query@, self.row(i as int), self.dim as int),
    {
        proof {
            lemma_row_in_bounds(i as int, self.len_spec() as int, self.dim as int,
                self.vectors@.len() as int);
        }
        let vlen = self.vectors.len();
        assert(i as int * self.dim as int + self.dim as int <= vlen as int);
        let off = i * self.dim;
        let mut acc: u32 = 0;
        let mut j: usize = 0;
        while j < self.dim
            invariant
                0 <= j <= self.dim,
                self.wf(),
                query@.len() == self.dim,
                i < self.len_spec(),
                off == i * self.dim,
                off + self.dim <= self.vectors@.len(),
                self.vectors@.len() <= usize::MAX,
                acc == l2_acc(query@, self.row(i as int), j as int),
            decreases self.dim - j,
        {
            let d = fsub(query[j], self.vectors[off + j]);
            acc = fadd(acc, fmul(d, d));
            proof {
                assert(self.row(i as int)[j as int] == self.vectors@[off + j]);
            }
            j += 1;
        }
        acc
    }

    /// Dot product between the query and row `i`.
    fn row_dot(&self, query: &Vec<u32>, i: usize) -> (r: u32)
        requires
            self.wf(),
            query@.len() == self.dim,
            i < self.len_spec(),
        ensures
            r == dot_acc(query@, self.row(i as int), self.dim as int),
    {
        proof {
            lemma_row_in_bounds(i as int, self.len_spec() as int, self.dim as int,
                self.vectors@.len() as int);
        }
        let vlen = self.vectors.len();
        assert(i as int * self.dim as int + self.dim as int <= vlen as int);
        let off = i * self.dim;
        let mut acc: u32 = 0;
        let mut j: usize = 0;
        while j < self.dim
            invariant
                0 <= j <= self.dim,
                self.wf(),
                query@.len() == self.dim,
                i < self.len_spec(),
                off == i * self.dim,
                off + self.dim <= self.vectors@.len(),
                self.vectors@.len() <= usize::MAX,
                acc == dot_acc(query@, self.row(i as int), j as int),
            decreases self.dim - j,
        {
            acc = fadd(acc, fmul(query[j], self.vectors[off + j]));
            proof {
                assert(self.row(i as int)[j as int] == self.vectors@[off + j]);
            }
            j += 1;
        }
        acc
    }

    /// Sum of squares of row `i`.
    fn row_sq(&self, i: usize) -> (r: u32)
        requires
            self.wf(),
            i < self.len_spec(),
        ensures
            r == sq_acc(self.row(i as int), self.dim as int),
    {
        proof {
            lemma_row_in_bounds(i as int, self.len_spec() as int, self.dim as int,
                self.vectors@.len() as int);
        }
        let vlen = self.vectors.len();
        assert(i as int * self.dim as int + self.dim as int <= vlen as int);
        let off = i * self.dim;
        let mut acc: u32 = 0;
        let mut j: usize = 0;
        while j < self.dim
            invariant
                0 <= j <= self.dim,
                self.wf(),
                i < self.len_spec(),
                off == i * self.dim,
                off + self.dim <= self.vectors@.len(),
                self.vectors@.len() <= usize::MAX,
                acc == sq_acc(self.row(i as int), j as int),
            decreases self.dim - j,
        {
            acc = fadd(acc, fmul(self.vectors[off + j], self.vectors[off + j]));
            proof {
                assert(self.row(i as int)[j as int] == self.vectors@[off + j]);
            }
            j += 1;
        }
        acc
    }

    /// Score of row `i` against the query under metric `m`.
    pub fn score_row(&self, query: &Vec<u32>, i: usize, m: Metric) -> (r: u32)
        requires
            self.wf(),
            query@.len() == self.dim,
            i < self.len_spec(),
        ensures
            r == score_of(m, query@, self.row(i as int)),
    {
        proof {
            lemma_row_in_bounds(i as int, self.len_spec() as int, self.dim as int,
                self.vectors@.len() as int);
            assert(self.row(i as int).len() == self.dim);
        }
        match m {
            Metric::L2 => fneg(self.row_l2(query, i)),
            Metric::IP => self.row_dot(query, i),
            Metric::Cosine => {
                let d = self.row_dot(query, i);
                let nq = fsqrt(sq_vec(query));
                let nv = fsqrt(self.row_sq(i));
                let zq = nq % 0x80000000 == 0;
                let zv = nv % 0x80000000 == 0;
                if zq || zv {
                    0
                } else {
                    fdiv(d, fmul(nq, nv))
                }
            },
        }
    }
}

/// Sum of squares of a whole vector.
fn sq_vec(v: &Vec<u32>) -> (r: u32)
    ensures
        r == sq_acc(v@, v@.len() as int),
{
    let mut acc: u32 = 0;
    let mut j: usize = 0;
    while j < v.len()
        invariant
            0 <= j <= v@.len(),
            acc == sq_acc(v@, j as int),
        decreases v@.len() - j,
    {
        acc = fadd(acc, fmul(v[j], v[j]));
        j += 1;
    }
    acc
}

/// Relies on rayon: `collect` on a mapped indexed parallel iterator over
/// `0..n` returns the images in index order, one per index. The closure
/// only calls the verified `score_row`.
#[verifier::external_body]
fn par_scores(idx: &FlatIndex, query: &Vec<u32>, m: Metric) -> (r: Vec<u32>)
    requires
        idx.wf(),
        query@.len() == idx.dim,
    ensures
        r@.len() == idx.len_spec(),
        forall|i: int| 0 <= i < r@.len()
            ==> r@[i] == score_of(m, query@, idx.row(i)),
{
    (0..idx.ids.len()).into_par_iter().map(|i| idx.score_row(query, i, m)).collect()
}

impl FlatIndex {
    /// Scores every row against the query under the effective metric and
    /// returns the `min(top_k, len())` best candidates, sorted by
    /// descending score, NaN scores last, ties broken by ascending row
    /// index.
    pub fn search_topk(&self, query: &Vec<u32>, top_k: usize, metric_override: Option<Metric>)
        -> (r: Vec<(usize, u32)>)
        requires
            self.wf(),
            query@.len() == self.dim,
        ensures
            r@ == self.topk_spec(query@, top_k as int, self.eff_metric(metric_override)),
    {
        let m = match metric_override {
            Some(mm) => mm,
            None => self.metric,
        };
        if self.ids.len() == 0 || top_k == 0 {
            proof {
                let cs = self.cand_seq(query@, m);
                if self.len_spec() == 0 {
                    assert(cs =~= Seq::<(usize, u32)>::empty());
                    assert(sort_cands(cs) =~= Seq::<(usize, u32)>::empty());
                }
                assert(self.topk_spec(query@, top_k as int, m)
                    =~= Seq::<(usize, u32)>::empty());
            }
            return Vec::new();
        }
        let scores = par_scores(self, query, m);
        let mut cands: Vec<(usize, u32)> = Vec::new();
        let mut i: usize = 0;
        while i < scores.len()
            invariant
                0 <= i <= scores@.len(),
                scores@.len() == self.len_spec(),
                self.wf(),
                query@.len() == self.dim,
                forall|j: int| 0 <= j < scores@.len()
                    ==> scores@[j] == score_of(m, query@, self.row(j)),
                cands@ == self.cand_seq(query@, m).take(i as int),
            decreases scores@.len() - i,
        {
            cands.push((i, scores[i]));
            proof {
                assert(cands@ =~= self.cand_seq(query@, m).take(i as int + 1));
            }
            i += 1;
        }
        proof {
            assert(cands@ =~= self.cand_seq(query@, m));
        }
        let mut sorted = sort_cands_vec(cands);
        proof {
            lemma_sort_membership_all(self.cand_seq(query@, m));
        }
        let k = if top_k < sorted.len() { top_k } else { sorted.len() };
        sorted.truncate(k);
        sorted
    }
}

/// The laws a top-k result obeys: its length is the smaller of `k` and the
/// row count; it is sorted by descending score with ties by ascending row
/// index; and every entry carries the score of the row it names.
pub proof fn lemma_topk_laws(idx: FlatIndex, q: Seq<u32>, k: int, m: Metric, res: Seq<(usize, u32)>)
    requires
        idx.wf(),
        k >= 0,
        res == idx.topk_spec(q, k, m),
    ensures
        res.len() == (if k < idx.len_spec() { k } else { idx.len_spec() as int }),
        sorted_cands(res),
        forall|i: int| 0 <= i < res.len()
            ==> (#[trigger] res[i]).0 < idx.len_spec()
                && res[i].1 == score_of(m, q, idx.row(res[i].0 as int)),
{
    let cs = idx.cand_seq(q, m);
    let sorted = sort_cands(cs);
    lemma_sort_sorted(cs);
    lemma_sort_multiset(cs);
    cs.to_multiset_ensures();
    sorted.to_multiset_ensures();
    assert(sorted.len() == cs.len());
    assert(res.len() == (if k < idx.len_spec() { k } else { idx.len_spec() as int }));
    assert(sorted_cands(res)) by {
        assert(forall|i: int| 0 <= i < res.len() ==> res[i] == sorted[i]);
    }
    broadcast use vstd::std_specs::vec::axiom_spec_len;
    assert(spec_vec_len(&idx.ids) == idx.ids@.len());
    assert(idx.len_spec() <= usize::MAX);
    assert forall|i: int| 0 <= i < res.len() implies (#[trigger] res[i]).0 < idx.len_spec()
        && res[i].1 == score_of(m, q, idx.row(res[i].0 as int)) by {
        assert(res[i] == sorted[i]);
        assert(sorted.to_multiset().contains(sorted[i]));
        assert(cs.contains(sorted[i]));
        let j = choose|j: int| 0 <= j < cs.len() && cs[j] == sorted[i];
        assert(cs[j] == (j as usize, score_of(m, q, idx.row(j))));
        assert(j as usize as int == j);
        assert(res[i].0 == j as usize);
        assert(res[i].1 == score_of(m, q, idx.row(j)));
    }
}

/// Candidate lists whose row indices strictly increase.
pub open spec fn rows_increasing(u: Seq<(usize, u32)>) -> bool {
    forall|i: int, j: int| 0 <= i < j < u.len() ==> (#[trigger] u[i]).0 < (#[trigger] u[j]).0
}

/// How many candidates of `u` name a row below `r`.
pub open spec fn rank_in(u: Seq<(usize, u32)>, r: usize) -> int
    decreases u.len(),
{
    if u.len() == 0 {
        0
    } else {
        rank_in(u.drop_last(), r) + (if u.last().0 < r { 1int } else { 0int })
    }
}

/// In a strictly increasing candidate list, a candidate's rank is its
/// position.
pub proof fn lemma_rank_at(u: Seq<(usize, u32)>, j: int)
    requires
        rows_increasing(u),
        0 <= j < u.len(),
    ensures
        rank_in(u, u[j].0) == j,
    decreases u.len(),
{
    let dl = u.drop_last();
    assert(rows_increasing(dl)) by {
        assert(forall|i: int| 0 <= i < dl.len() ==> dl[i] == #[trigger] u[i]);
    }
    if j == u.len() - 1 {
        lemma_rank_all_below(dl, u.last().0);
    } else {
        lemma_rank_at(dl, j);
        assert(dl[j] == u[j]);
        assert(!(u.last().0 < u[j].0));
    }
}

proof fn lemma_rank_all_below(u: Seq<(usize, u32)>, r: usize)
    requires
        forall|i: int| 0 <= i < u.len() ==> (#[trigger] u[i]).0 < r,
    ensures
        rank_in(u, r) == u.len(),
    decreases u.len(),
{
    if u.len() > 0 {
        let dl = u.drop_last();
        assert(forall|i: int| 0 <= i < dl.len() ==> (#[trigger] dl[i]).0 < r) by {
            assert(forall|i: int| 0 <= i < dl.len() ==> dl[i] == #[trigger] u[i]);
        }
        lemma_rank_all_below(dl, r);
    }
}

/// A candidate of `u`, relabeled with its position in `u`.
pub open spec fn twin(u: Seq<(usize, u32)>, c: (usize, u32)) -> (usize, u32) {
    (rank_in(u, c.0) as usize, c.1)
}

/// Everything in `s` is a candidate of `u`.
pub open spec fn all_from(s: Seq<(usize, u32)>, u: Seq<(usize, u32)>) -> bool {
    forall|i: int| 0 <= i < s.len() ==> u.contains(#[trigger] s[i])
}

pub proof fn lemma_rank_bounds(u: Seq<(usize, u32)>, r: usize)
    ensures
        0 <= rank_in(u, r) <= u.len(),
    decreases u.len(),
{
    if u.len() > 0 {
        lemma_rank_bounds(u.drop_last(), r);
    }
}

/// Relabeling candidates of `u` with their positions preserves the
/// result order exactly: scores travel along, and the tie-break on rows
/// becomes the same tie-break on positions.
proof fn lemma_twin_iso(u: Seq<(usize, u32)>, c: (usize, u32), d: (usize, u32))
    requires
        rows_increasing(u),
        u.len() <= usize::MAX,
        u.contains(c),
        u.contains(d),
    ensures
        cand_better(twin(u, c), twin(u, d)) == cand_better(c, d),
{
    let i = choose|i: int| 0 <= i < u.len() && u[i] == c;
    let j = choose|j: int| 0 <= j < u.len() && u[j] == d;
    lemma_rank_at(u, i);
    lemma_rank_at(u, j);
    lemma_rank_bounds(u, c.0);
    lemma_rank_bounds(u, d.0);
    if i < j {
        assert(u[i].0 < u[j].0);
    } else if j < i {
        assert(u[j].0 < u[i].0);
    }
}

proof fn lemma_ipos_twin(u: Seq<(usize, u32)>, x: (usize, u32), s: Seq<(usize, u32)>)
    requires
        rows_increasing(u),
        u.len() <= usize::MAX,
        u.contains(x),
        all_from(s, u),
    ensures
        ipos(twin(u, x), s.map_values(|c: (usize, u32)| twin(u, c))) == ipos(x, s),
    decreases s.len(),
{
    let ms = s.map_values(|c: (usize, u32)| twin(u, c));
    if s.len() > 0 {
        assert(ms[0] == twin(u, s[0]));
        lemma_twin_iso(u, s[0], x);
        assert(all_from(s.drop_first(), u)) by {
            assert(forall|i: int| 0 <= i < s.drop_first().len()
                ==> #[trigger] s.drop_first()[i] == s[i + 1]);
        }
        lemma_ipos_twin(u, x, s.drop_first());
        assert(ms.drop_first() =~= s.drop_first().map_values(|c: (usize, u32)| twin(u, c)));
    }
}

proof fn lemma_insert_twin(u: Seq<(usize, u32)>, x: (usize, u32), s: Seq<(usize, u32)>)
    requires
        rows_increasing(u),
        u.len() <= usize::MAX,
        u.contains(x),
        all_from(s, u),
    ensures
        insert_sorted(twin(u, x), s.map_values(|c: (usize, u32)| twin(u, c)))
            == insert_sorted(x, s).map_values(|c: (usize, u32)| twin(u, c)),
{
    lemma_ipos_twin(u, x, s);
    lemma_ipos_range(x, s);
    let p = ipos(x, s);
    let ms = s.map_values(|c: (usize, u32)| twin(u, c));
    assert(ms.insert(p, twin(u, x))
        =~= s.insert(p, x).map_values(|c: (usize, u32)| twin(u, c)));
}

/// Sorting commutes with the position relabeling.
pub proof fn lemma_sort_twin(u: Seq<(usize, u32)>, s: Seq<(usize, u32)>)
    requires
        rows_increasing(u),
        u.len() <= usize::MAX,
        all_from(s, u),
    ensures
        sort_cands(s.map_values(|c: (usize, u32)| twin(u, c)))
            == sort_cands(s).map_values(|c: (usize, u32)| twin(u, c)),
    decreases s.len(),
{
    let ms = s.map_values(|c: (usize, u32)| twin(u, c));
    if s.len() == 0 {
        assert(ms =~= Seq::<(usize, u32)>::empty());
        assert(sort_cands(s).map_values(|c: (usize, u32)| twin(u, c))
            =~= Seq::<(usize, u32)>::empty());
    } else {
        let dl = s.drop_last();
        assert(all_from(dl, u)) by {
            assert(forall|i: int| 0 <= i < dl.len() ==> dl[i] == #[trigger] s[i]);
        }
        lemma_sort_twin(u, dl);
        assert(ms.drop_last() =~= dl.map_values(|c: (usize, u32)| twin(u, c)));
        assert(ms.last() == twin(u, s.last()));
        assert(u.contains(s.last()));
        assert(all_from(sort_cands(dl), u)) by {
            lemma_sort_membership_all(dl);
            assert forall|i: int| 0 <= i < sort_cands(dl).len()
                implies u.contains(#[trigger] sort_cands(dl)[i]) by {
                assert(dl.contains(sort_cands(dl)[i]));
                let j = choose|j: int| 0 <= j < dl.len() && dl[j] == sort_cands(dl)[i];
                assert(u.contains(dl[j]));
            }
        }
        lemma_insert_twin(u, s.last(), sort_cands(dl));
    }
}

/// Nothing left out of a top-k result beats anything in it: a row whose
/// candidate was not returned scores no better than any returned
/// candidate (NaN counting below everything, ties going to the smaller
/// row index).
pub proof fn lemma_topk_dominance(
    idx: FlatIndex,
    q: Seq<u32>,
    k: int,
    m: Metric,
    res: Seq<(usize, u32)>,
    rj: int,
)
    requires
        idx.wf(),
        k >= 0,
        res == idx.topk_spec(q, k, m),
        0 <= rj < idx.len_spec(),
        forall|i: int| 0 <= i < res.len() ==> (#[trigger] res[i]).0 != rj,
    ensures
        forall|i: int| 0 <= i < res.len()
            ==> !cand_better((rj as usize, score_of(m, q, idx.row(rj))), #[trigger] res[i]),
{
    let cs = idx.cand_seq(q, m);
    let sorted = sort_cands(cs);
    lemma_sort_sorted(cs);
    lemma_sort_multiset(cs);
    cs.to_multiset_ensures();
    sorted.to_multiset_ensures();
    broadcast use vstd::std_specs::vec::axiom_spec_len;
    assert(spec_vec_len(&idx.ids) == idx.ids@.len());
    assert(rj as usize as int == rj);
    let c = (rj as usize, score_of(m, q, idx.row(rj)));
    assert(cs[rj] == c);
    assert(cs.contains(c));
    assert(sorted.to_multiset().contains(c));
    let p = choose|p: int| 0 <= p < sorted.len() && sorted[p] == c;
    assert(p >= res.len()) by {
        if 0 <= p < res.len() {
            assert(res[p] == sorted[p]);
            assert(res[p].0 == rj);
        }
    }
    assert forall|i: int| 0 <= i < res.len()
        implies !cand_better(c, #[trigger] res[i]) by {
        assert(res[i] == sorted[i]);
        assert(!cand_better(sorted[p], sorted[i]));
    }
}

/// A metric override changes only the ordering of results, not the data:
/// querying `a` with override `m` is the same as querying an index `b`
/// that holds the same rows but was configured with metric `m`.
pub proof fn lemma_override_is_reconfiguration(
    a: FlatIndex,
    b: FlatIndex,
    q: Seq<u32>,
    k: int,
    m: Metric,
)
    requires
        b.dim == a.dim,
        b.vectors == a.vectors,
        b.ids == a.ids,
        b.payloads == a.payloads,
        b.metric == m,
    ensures
        a.topk_spec(q, k, a.eff_metric(Some(m))) == b.topk_spec(q, k, b.eff_metric(None)),
{
    assert(a.cand_seq(q, m) =~= b.cand_seq(q, m));
}

/// The `m`-th segment of a flattened batch is the `m`-th vector.
pub proof fn lemma_flat_segment(vs: Seq<Seq<u32>>, n: int, dim: int, m: int)
    requires
        0 <= m < n <= vs.len(),
        0 <= dim,
        forall|i: int| 0 <= i < vs.len() ==> (#[trigger] vs[i]).len() == dim,
    ensures
        flat_of(vs, n).subrange(m * dim, m * dim + dim) == vs[m],
    decreases n,
{
    lemma_flat_len(vs, n, dim);
    lemma_flat_len(vs, n - 1, dim);
    if m == n - 1 {
        assert(flat_of(vs, n) == flat_of(vs, n - 1) + vs[n - 1]);
        assert(flat_of(vs, n).subrange(m * dim, m * dim + dim) =~= vs[m]);
    } else {
        lemma_flat_segment(vs, n - 1, dim, m);
        assert(m * dim + dim <= (n - 1) * dim) by (nonlinear_arith)
            requires 0 <= m + 1 <= n - 1 && 0 <= dim;
        assert(flat_of(vs, n).subrange(m * dim, m * dim + dim)
            =~= flat_of(vs, n - 1).subrange(m * dim, m * dim + dim));
    }
}

} // verus!
