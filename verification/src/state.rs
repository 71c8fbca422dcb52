use vstd::prelude::*;

use crate::catalog::{
    cat_v, coll_v, collv_pos, filters_v, name_pos, Catalog, CollV, CollectionHandle, PointWrite,
    RowV,
};
use crate::types::Metric;
use crate::types::metric_of_str;
use crate::wal::{
    enc_line, enc_log, is_blank, parse_line, parse_line_s, rec_v, split_lines, wal_lines, Wal,
    WalRecord, WalRecordV,
};

verus! {

// Central database state: the catalog plus an optional write-ahead log.
// Every mutation is applied in memory first and, on success only, recorded
// in the log; on open, the log is replayed to rebuild the catalog.

/// Service-level failures.
#[derive(Clone, Copy, Debug, PartialEq, Eq, Structural)]
pub enum DbError {
    InvalidArgument,
    NotFound,
    AlreadyExists,
}

/// One query hit.
#[derive(Debug)]
pub struct ScoredPoint {
    pub id: String,
    pub score: u32,
    pub payload_json: String,
}

/// How a state is opened: whether a log is kept, and the log text read
/// back from storage (the caller's concern; a missing log is `None`).
pub struct DbStateConfig {
    pub enable_wal: bool,
    pub wal_seed: Option<Vec<char>>,
}

impl Default for DbStateConfig {
    /// Logging on, starting from an empty log.
    fn default() -> (r: DbStateConfig)
        ensures
            r.enable_wal,
            r.wal_seed is None,
    {
        DbStateConfig { enable_wal: true, wal_seed: None }
    }
}

// ---------------------------------------------------------------------------
// Replay, abstractly: what one record does to the catalog.
// ---------------------------------------------------------------------------

/// Effect of one log record: a creation registers a new collection unless
/// the name is taken or the dimensionality is zero; an upsert appends one
/// row to the named collection and is dropped when the collection is
/// missing or the vector does not fit.
pub open spec fn apply_rec_v(cv: Seq<CollV>, r: WalRecordV) -> Seq<CollV> {
    match r {
        WalRecordV::CreateV { name, dim, metric, ts_ms } => {
            if collv_pos(cv, name) < cv.len() || dim < 1 {
                cv
            } else {
                cv.push(
                    CollV {
                        name: name,
                        dim: dim as nat,
                        metric: metric_of_str(metric),
                        rows: Seq::empty(),
                    },
                )
            }
        },
        WalRecordV::UpsertV { collection, id, vector, payload_json, ts_ms } => {
            let p = collv_pos(cv, collection);
            if p < cv.len() && vector.len() == cv[p].dim {
                cv.update(
                    p,
                    CollV {
                        name: cv[p].name,
                        dim: cv[p].dim,
                        metric: cv[p].metric,
                        rows: cv[p].rows.push(
                            RowV { id: id, vec: vector, payload: payload_json },
                        ),
                    },
                )
            } else {
                cv
            }
        },
    }
}

/// Replay of the lines from `i` on, applied to `cv`: blank lines are
/// skipped, records are applied in order, and the first malformed line
/// stops replay, keeping what was applied so far.
pub open spec fn replay_apply(cv: Seq<CollV>, ls: Seq<Seq<char>>, i: int) -> Seq<CollV>
    decreases ls.len() - i,
{
    if i < 0 || i >= ls.len() {
        cv
    } else if is_blank(ls[i]) {
        replay_apply(cv, ls, i + 1)
    } else {
        match parse_line_s(ls[i]) {
            Some(r) => replay_apply(apply_rec_v(cv, r), ls, i + 1),
            None => cv,
        }
    }
}

// ---------------------------------------------------------------------------
// Trusted edges: fresh ids and the clock.
// ---------------------------------------------------------------------------

/// Relies on uuid: `Uuid::new_v4().to_string()` is the hyphenated form,
/// which is 36 characters long. Nothing else is promised of a random id.
#[verifier::external_body]
fn fresh_uuid() -> (r: String)
    ensures
        r@.len() == 36,
{
    uuid::Uuid::new_v4().to_string()
}

/// Relies on std::time::SystemTime for the wall clock: milliseconds since
/// the Unix epoch, zero when the clock reads before it. Nothing is
/// promised of the value.
#[verifier::external_body]
pub fn now_ms() -> i64 {
    std::time::SystemTime::now()
        .duration_since(std::time::UNIX_EPOCH)
        .map(|dur| dur.as_millis() as i64)
        .unwrap_or_default()
}

// ---------------------------------------------------------------------------
// The state.
// ---------------------------------------------------------------------------

/// The catalog and, when durability is on, the write-ahead log.
pub struct DbState {
    pub catalog: Catalog,
    pub wal: Option<Wal>,
}

impl DbState {
    pub open spec fn wf(&self) -> bool {
        self.catalog.wf()
    }

    /// Opens a state with the default configuration: log on, empty seed.
    pub fn new() -> (r: DbState)
        ensures
            r.wf(),
            r.wal is Some,
            r.catalog.collections@.len() == 0,
    {
        let r = Self::with_config(Default::default());
        proof {
            assert(cat_v(r.catalog).len() == r.catalog.collections@.len());
        }
        r
    }

    /// Opens a state: builds an empty catalog and, when the log is
    /// enabled, replays the seed text into it, skipping blank lines,
    /// stopping at the first corrupt line and keeping what was applied.
    pub fn with_config(config: DbStateConfig) -> (r: DbState)
        ensures
            r.wf(),
            r.wal is Some <==> config.enable_wal,
            config.enable_wal ==> (match config.wal_seed {
                Some(seed) => r.wal->0.contents@ == seed@
                    && cat_v(r.catalog) == replay_apply(
                    Seq::empty(),
                    wal_lines(seed@),
                    0,
                ),
                None => r.wal->0.contents@ == Seq::<char>::empty()
                    && cat_v(r.catalog) == Seq::<CollV>::empty(),
            }),
            !config.enable_wal ==> cat_v(r.catalog) == Seq::<CollV>::empty(),
    {
        let catalog = Catalog::new();
        let mut state = DbState { catalog, wal: None };
        proof {
            assert(cat_v(state.catalog) =~= Seq::<CollV>::empty());
        }
        if config.enable_wal {
            match config.wal_seed {
                Some(seed) => {
                    let wal = Wal::open(seed);
                    state.wal = Some(wal);
                    state.replay_wal();
                },
                None => {
                    state.wal = Some(Wal::open(Vec::new()));
                    proof {
                        assert(state.wal->0.contents@ =~= Seq::<char>::empty());
                    }
                },
            }
        }
        state
    }

    /// Replays the log into the catalog.
    fn replay_wal(&mut self)
        requires
            old(self).wf(),
            old(self).wal is Some,
            cat_v(old(self).catalog) == Seq::<CollV>::empty(),
        ensures
            final(self).wf(),
            final(self).wal == old(self).wal,
            cat_v(final(self).catalog) == replay_apply(
                Seq::empty(),
                wal_lines(old(self).wal->0.contents@),
                0,
            ),
    {
        let lines = match &self.wal {
            Some(w) => split_lines(&w.contents),
            None => Vec::new(),
        };
        let ghost ls = lines@.map_values(|l: Vec<char>| l@);
        let n = lines.len();
        let mut i: usize = 0;
        while i < n
            invariant
                0 <= i <= n,
                n == ls.len(),
                ls == lines@.map_values(|l: Vec<char>| l@),
                ls == wal_lines(old(self).wal->0.contents@),
                self.wf(),
                self.wal == old(self).wal,
                replay_apply(Seq::empty(), ls, 0) == replay_apply(cat_v(self.catalog), ls, i as int),
            decreases n - i,
        {
            let line = &lines[i];
            assert(ls[i as int] == line@);
            if crate::wal::line_is_blank(line) {
                i += 1;
                continue;
            }
            match parse_line(line) {
                Some(rec) => {
                    self.apply_record(rec);
                    i += 1;
                },
                None => {
                    proof {
                        assert(replay_apply(cat_v(self.catalog), ls, i as int)
                            == cat_v(self.catalog));
                    }
                    return;
                },
            }
        }
    }

    /// Applies one replayed record to the catalog.
    fn apply_record(&mut self, rec: WalRecord)
        requires
            old(self).wf(),
        ensures
            final(self).wf(),
            final(self).wal == old(self).wal,
            cat_v(final(self).catalog) == apply_rec_v(cat_v(old(self).catalog), rec_v(rec)),
    {
        match rec {
            WalRecord::CreateCollection { name, dim, metric, ts_ms } => {
                if dim >= 1 {
                    let ghost gmetric = metric@;
                    let m = Metric::from_str(metric.as_str());
                    let ghost oldv = cat_v(self.catalog);
                    let ghost oldcols = self.catalog.collections@;
                    let ghost gname = name@;
                    let created = self.catalog.create_collection(name, dim as usize, m);
                    proof {
                        crate::catalog::lemma_collv_pos(oldcols, gname);
                        if created {
                            let newc = self.catalog.collections@.last();
                            assert(coll_v(newc).rows =~= Seq::<RowV>::empty());
                            assert(coll_v(newc) == (CollV {
                                name: gname,
                                dim: dim as nat,
                                metric: metric_of_str(gmetric),
                                rows: Seq::empty(),
                            }));
                            assert forall|j: int| 0 <= j < oldcols.len()
                                implies cat_v(self.catalog)[j] == oldv[j] by {
                                assert(self.catalog.collections@[j] == oldcols[j]);
                            }
                            assert(cat_v(self.catalog)
                                =~= apply_rec_v(oldv, rec_v(rec)));
                        } else {
                            assert(cat_v(self.catalog) =~= oldv);
                        }
                    }
                } else {
                    proof {
                        assert(apply_rec_v(cat_v(self.catalog), rec_v(rec))
                            == cat_v(self.catalog));
                    }
                }
            },
            WalRecord::Upsert { collection, id, vector, payload_json, ts_ms } => {
                let ghost oldv = cat_v(self.catalog);
                let ghost gcoll = collection@;
                let h = match self.catalog.get(collection.as_str()) {
                    Some(h) => h,
                    None => {
                        proof {
                            crate::catalog::lemma_collv_pos(self.catalog.collections@, gcoll);
                        }
                        return;
                    },
                };
                let ghost gid = id@;
                let ghost gvec = vector@;
                let ghost gpay = payload_json@;
                let ghost oldcols = self.catalog.collections@;
                let points = vec![PointWrite { id, vector, payload_json }];
                let ghost pv = points@;
                proof {
                    assert(pv.len() == 1);
                    assert(pv[0].id@ == gid && pv[0].vector@ == gvec
                        && pv[0].payload_json@ == gpay);
                }
                let res = h.upsert_points(&mut self.catalog, points);
                proof {
                    crate::catalog::lemma_collv_pos(oldcols, gcoll);
                    crate::catalog::lemma_name_pos(oldcols, gcoll);
                    let p = name_pos(oldcols, gcoll);
                    assert(0 <= p < oldcols.len());
                    assert(oldv[p] == coll_v(oldcols[p]));
                    assert(oldv[p].dim == oldcols[p].dim);
                    match res {
                        Some(k) => {
                            assert(crate::catalog::upserted_rows(
                                oldcols,
                                self.catalog.collections@,
                                p,
                                pv,
                            ));
                            let newp = self.catalog.collections@[p];
                            assert(coll_v(newp).rows =~= oldv[p].rows.push(
                                RowV { id: gid, vec: gvec, payload: gpay },
                            )) by {
                                assert(pv.map_values(
                                    |q: PointWrite| RowV {
                                        id: q.id@,
                                        vec: q.vector@,
                                        payload: q.payload_json@,
                                    },
                                ) =~= seq![RowV { id: gid, vec: gvec, payload: gpay }]);
                            }
                            assert(gvec.len() == oldv[p].dim);
                            assert forall|j: int| 0 <= j < oldcols.len() && j != p
                                implies cat_v(self.catalog)[j] == oldv[j] by {
                                assert(self.catalog.collections@[j] == oldcols[j]);
                            }
                            assert(cat_v(self.catalog) =~= apply_rec_v(oldv, rec_v(rec)));
                        },
                        None => {
                            assert(gvec.len() != oldcols[p].dim);
                            assert(cat_v(self.catalog) =~= oldv);
                            assert(apply_rec_v(oldv, rec_v(rec)) == oldv);
                        },
                    }
                }
            },
        }
    }

    /// Records a mutation in the log, if one is kept.
    pub fn append_wal(&mut self, record: WalRecord)
        ensures
            final(self).catalog == old(self).catalog,
            old(self).wal is None ==> *final(self) == *old(self),
            old(self).wal is Some ==> final(self).wal is Some
                && final(self).wal->0.contents@ == old(self).wal->0.contents@
                + enc_line(rec_v(record)) + seq!['\n'],
    {
        match &mut self.wal {
            Some(w) => w.append(&record),
            None => {},
        }
    }
}


// ---------------------------------------------------------------------------
// Service operations: validate, mutate in memory, then log.
// ---------------------------------------------------------------------------

/// The new log is the old log plus the lines of exactly these records.
pub open spec fn wal_plus(a: Option<Wal>, b: Option<Wal>, recs: Seq<WalRecordV>) -> bool {
    match a {
        None => b is None,
        Some(w) => b is Some && b->0.contents@ == w.contents@ + enc_log(recs),
    }
}

/// Ids as they are written: a client id is kept, an empty id is replaced
/// by a freshly minted 36-character id.
pub open spec fn resolved_from(orig: Seq<PointWrite>, rp: Seq<PointWrite>) -> bool {
    &&& rp.len() == orig.len()
    &&& (forall|i: int| 0 <= i < orig.len()
        ==> (#[trigger] rp[i]).vector@ == orig[i].vector@
            && rp[i].payload_json@ == orig[i].payload_json@
            && (if orig[i].id@.len() > 0 {
                rp[i].id@ == orig[i].id@
            } else {
                rp[i].id@.len() == 36
            }))
}

/// The inputs on which an upsert is rejected: a nameless collection, an
/// unknown collection, or some vector that does not fit the collection's
/// dimensionality. On every other input the upsert is owed success.
pub open spec fn upsert_rejected(st: &DbState, collection: Seq<char>, points: Seq<PointWrite>)
    -> bool {
    ||| collection.len() == 0
    ||| !st.catalog.has_name(collection)
    ||| (exists|i: int| 0 <= i < points.len()
        && (#[trigger] points[i]).vector@.len() != st.catalog.collections@[name_pos(
            st.catalog.collections@,
            collection,
        )].dim)
}

/// The inputs on which a query is rejected: a nameless or unknown
/// collection, an empty query vector, or one of the wrong dimensionality.
/// On every other input the query is owed success.
pub open spec fn query_rejected(st: &DbState, collection: Seq<char>, vector: Seq<u32>) -> bool {
    ||| collection.len() == 0
    ||| !st.catalog.has_name(collection)
    ||| vector.len() == 0
    ||| vector.len() != st.catalog.collections@[name_pos(
        st.catalog.collections@,
        collection,
    )].dim
}

/// One log record per upserted point.
pub open spec fn upsert_recs(coll: Seq<char>, rp: Seq<PointWrite>, ts: int) -> Seq<WalRecordV> {
    rp.map_values(
        |p: PointWrite| WalRecordV::UpsertV {
            collection: coll,
            id: p.id@,
            vector: p.vector@,
            payload_json: p.payload_json@,
            ts_ms: ts,
        },
    )
}

impl DbState {
    /// Creates a collection. An empty name or a zero dimensionality is
    /// rejected before anything happens; a taken name is reported and the
    /// existing collection is untouched; otherwise the collection is
    /// registered and one creation record is logged.
    pub fn create_collection(&mut self, name: &str, dim: u32, metric_str: &str) -> (r: Result<
        (),
        DbError,
    >)
        requires
            old(self).wf(),
        ensures
            final(self).wf(),
            r is Err <==> (name@.len() == 0 || dim == 0 || old(self).catalog.has_name(name@)),
            match r {
                Ok(()) => {
                    &&& cat_v(final(self).catalog) == cat_v(old(self).catalog).push(
                        CollV {
                            name: name@,
                            dim: dim as nat,
                            metric: metric_of_str(metric_str@),
                            rows: Seq::empty(),
                        },
                    )
                    &&& (exists|ts: int|
                        #![auto]
                        -0x8000000000000000 <= ts <= 0x7FFFFFFFFFFFFFFF && wal_plus(
                            old(self).wal,
                            final(self).wal,
                            seq![
                                WalRecordV::CreateV {
                                    name: name@,
                                    dim: dim as int,
                                    metric: metric_str@,
                                    ts_ms: ts,
                                },
                            ],
                        ))
                },
                Err(e) => {
                    &&& *final(self) == *old(self)
                    &&& (e == DbError::InvalidArgument <==> (name@.len() == 0 || dim == 0))
                    &&& (e == DbError::AlreadyExists <==> (name@.len() > 0 && dim >= 1
                        && old(self).catalog.has_name(name@)))
                },
            },
    {
        if name.unicode_len() == 0 {
            return Err(DbError::InvalidArgument);
        }
        if dim == 0 {
            return Err(DbError::InvalidArgument);
        }
        let m = Metric::from_str(metric_str);
        let ghost oldv = cat_v(self.catalog);
        let ghost oldcols = self.catalog.collections@;
        let created = self.catalog.create_collection(name.to_owned(), dim as usize, m);
        if !created {
            return Err(DbError::AlreadyExists);
        }
        let ts = now_ms();
        let rec = WalRecord::CreateCollection {
            name: name.to_owned(),
            dim,
            metric: metric_str.to_owned(),
            ts_ms: ts,
        };
        let ghost rv = rec_v(rec);
        self.append_wal(rec);
        proof {
            let newc = self.catalog.collections@.last();
            assert(coll_v(newc).rows =~= Seq::<RowV>::empty());
            assert(coll_v(newc) == (CollV {
                name: name@,
                dim: dim as nat,
                metric: metric_of_str(metric_str@),
                rows: Seq::empty(),
            }));
            assert forall|j: int| 0 <= j < oldcols.len()
                implies cat_v(self.catalog)[j] == oldv[j] by {
                assert(self.catalog.collections@[j] == oldcols[j]);
            }
            assert(cat_v(self.catalog) =~= oldv.push(
                CollV {
                    name: name@,
                    dim: dim as nat,
                    metric: metric_of_str(metric_str@),
                    rows: Seq::empty(),
                },
            ));
            assert(enc_log(seq![rv]) =~= enc_line(rv) + seq!['\n']) by {
                assert(seq![rv].drop_first() =~= Seq::<WalRecordV>::empty());
                assert(enc_log(seq![rv]) =~= enc_line(rv) + seq!['\n']
                    + enc_log(Seq::empty()));
            }
            match old(self).wal {
                Some(w) => {
                    assert(self.wal->0.contents@ =~= w.contents@ + enc_log(seq![rv]));
                },
                None => {},
            }
            assert(wal_plus(old(self).wal, self.wal, seq![rv]));
        }
        Ok(())
    }

    /// Upserts a batch of points into a collection. The whole batch is
    /// validated first and applied atomically; on success one log record
    /// per point is appended. Empty ids are replaced by fresh ones. Row
    /// counts never decrease.
    pub fn upsert(&mut self, collection: &str, points: Vec<PointWrite>) -> (r: Result<u32, DbError>)
        requires
            old(self).wf(),
            points@.len() <= 0xFFFFFFFF,
        ensures
            final(self).wf(),
            r is Err <==> upsert_rejected(old(self), collection@, points@),
            match r {
                Ok(n) => {
                    &&& collection@.len() > 0
                    &&& old(self).catalog.has_name(collection@)
                    &&& n == points@.len()
                    &&& (points@.len() == 0 ==> *final(self) == *old(self))
                    &&& (points@.len() > 0 ==> (exists|rp: Seq<PointWrite>, ts: int|
                        #![auto]
                        resolved_from(points@, rp)
                            && -0x8000000000000000 <= ts <= 0x7FFFFFFFFFFFFFFF
                            && crate::catalog::upserted_rows(
                            old(self).catalog.collections@,
                            final(self).catalog.collections@,
                            name_pos(old(self).catalog.collections@, collection@),
                            rp,
                        ) && wal_plus(old(self).wal, final(self).wal, upsert_recs(
                            collection@,
                            rp,
                            ts,
                        ))))
                },
                Err(e) => {
                    &&& *final(self) == *old(self)
                    &&& (e == DbError::NotFound <==> (collection@.len() > 0 && !old(
                        self,
                    ).catalog.has_name(collection@)))
                    &&& (e == DbError::InvalidArgument <==> (collection@.len() == 0 || (old(
                        self,
                    ).catalog.has_name(collection@) && (exists|i: int|
                        0 <= i < points@.len()
                            && (#[trigger] points@[i]).vector@.len() != old(
                            self,
                        ).catalog.collections@[name_pos(
                            old(self).catalog.collections@,
                            collection@,
                        )].dim))))
                },
            },
    {
        if collection.unicode_len() == 0 {
            return Err(DbError::InvalidArgument);
        }
        let h = match self.catalog.get(collection) {
            Some(h) => h,
            None => {
                return Err(DbError::NotFound);
            },
        };
        if points.len() == 0 {
            proof {
                assert(!upsert_rejected(old(self), collection@, points@));
            }
            return Ok(0);
        }
        let ghost pv = points@;
        let n = points.len();
        let ts = now_ms();
        let mut points = points;
        let mut prepared: Vec<PointWrite> = Vec::new();
        let mut recs: Vec<WalRecord> = Vec::new();
        let mut k: usize = 0;
        while k < n
            invariant
                0 <= k <= n,
                n == pv.len(),
                points@ == pv.skip(k as int),
                prepared@.len() == k,
                recs@.len() == k,
                resolved_from(pv.take(k as int), prepared@),
                forall|m: int| 0 <= m < k
                    ==> rec_v(#[trigger] recs@[m]) == (WalRecordV::UpsertV {
                        collection: collection@,
                        id: prepared@[m].id@,
                        vector: prepared@[m].vector@,
                        payload_json: prepared@[m].payload_json@,
                        ts_ms: ts as int,
                    }),
            decreases n - k,
        {
            let p = points.remove(0);
            proof {
                assert(pv.skip(k as int)[0] == pv[k as int]);
                assert(p == pv[k as int]);
                assert(points@ =~= pv.skip(k + 1));
            }
            let id = if p.id.unicode_len() == 0 {
                fresh_uuid()
            } else {
                p.id
            };
            let rec = WalRecord::Upsert {
                collection: collection.to_owned(),
                id: id.clone(),
                vector: clone_vec_u32(&p.vector),
                payload_json: p.payload_json.clone(),
                ts_ms: ts,
            };
            recs.push(rec);
            prepared.push(PointWrite { id, vector: p.vector, payload_json: p.payload_json });
            proof {
                assert(prepared@.last().vector@ == pv[k as int].vector@);
                assert(prepared@.last().payload_json@ == pv[k as int].payload_json@);
                assert(resolved_from(pv.take(k + 1), prepared@)) by {
                    assert(forall|m: int| 0 <= m < k
                        ==> #[trigger] prepared@[m] == prepared@.drop_last()[m]);
                    assert(pv.take(k + 1).drop_last() =~= pv.take(k as int));
                    assert(forall|m: int| 0 <= m < k + 1
                        ==> #[trigger] pv.take(k + 1)[m] == pv[m]);
                }
            }
            k += 1;
        }
        let ghost rp = prepared@;
        proof {
            assert(pv.take(n as int) =~= pv);
        }
        let added = match h.upsert_points(&mut self.catalog, prepared) {
            Some(a) => a,
            None => {
                proof {
                    let at = name_pos(old(self).catalog.collections@, collection@);
                    assert(exists|i: int|
                        0 <= i < rp.len() && (#[trigger] rp[i]).vector@.len()
                            != old(self).catalog.collections@[at].dim);
                    let i = choose|i: int|
                        0 <= i < rp.len() && (#[trigger] rp[i]).vector@.len()
                            != old(self).catalog.collections@[at].dim;
                    assert(pv[i].vector@.len() == rp[i].vector@.len());
                    assert((#[trigger] pv[i]).vector@.len()
                        != old(self).catalog.collections@[at].dim);
                    assert(upsert_rejected(old(self), collection@, pv));
                }
                return Err(DbError::InvalidArgument);
            },
        };
        let mut wk: usize = 0;
        let ghost rvs = upsert_recs(collection@, rp, ts as int);
        let ghost wal_mid = self.wal;
        let ghost cat_mid = self.catalog;
        proof {
            assert(rvs.len() == n);
            assert(forall|m: int| 0 <= m < n ==> rec_v(#[trigger] recs@[m]) == rvs[m]);
            assert(rvs.skip(0) =~= rvs);
        }
        let mut recs = recs;
        while wk < n
            invariant
                0 <= wk <= n,
                n == rvs.len(),
                recs@.len() == n - wk,
                forall|m: int| 0 <= m < n - wk
                    ==> rec_v(#[trigger] recs@[m]) == rvs[wk + m],
                self.catalog == cat_mid,
                catalog_frozen(self, wal_mid, rvs, wk as int),
            decreases n - wk,
        {
            let ghost recs_pre = recs@;
            let rec = recs.remove(0);
            proof {
                assert(rec_v(rec) == rvs[wk as int]);
                assert(recs@ =~= recs_pre.drop_first());
            }
            let ghost pre_wal = self.wal;
            self.append_wal(rec);
            proof {
                lemma_wal_step(wal_mid, rvs, wk as int);
                match wal_mid {
                    Some(w) => {
                        assert(self.wal->0.contents@ + enc_log(rvs.skip(wk + 1))
                            =~= pre_wal->0.contents@ + enc_log(rvs.skip(wk as int)));
                    },
                    None => {},
                }
                assert forall|m: int| 0 <= m < n - wk - 1
                    implies rec_v(#[trigger] recs@[m]) == rvs[wk + 1 + m] by {
                    assert(recs@[m] == recs_pre[m + 1]);
                }
            }
            wk += 1;
        }
        proof {
            assert(rvs.skip(n as int) =~= Seq::<WalRecordV>::empty());
            match wal_mid {
                Some(w) => {
                    assert(self.wal->0.contents@ =~= w.contents@ + enc_log(rvs));
                },
                None => {},
            }
            assert(wal_plus(wal_mid, self.wal, rvs));
            assert(resolved_from(pv, rp));
            let at = name_pos(old(self).catalog.collections@, collection@);
            assert forall|i: int| 0 <= i < pv.len()
                implies (#[trigger] pv[i]).vector@.len()
                    == old(self).catalog.collections@[at].dim by {
                assert(rp[i].vector@ == pv[i].vector@);
            }
            assert(!upsert_rejected(old(self), collection@, pv));
        }
        Ok(added as u32)
    }
}

/// During the logging loop: the catalog is already final and the log has
/// gained the first `wk` record lines.
pub open spec fn catalog_frozen(
    st: &DbState,
    wal_mid: Option<Wal>,
    rvs: Seq<WalRecordV>,
    wk: int,
) -> bool {
    match wal_mid {
        None => st.wal is None,
        Some(w) => st.wal is Some && st.wal->0.contents@ + enc_log(rvs.skip(wk)) == w.contents@
            + enc_log(rvs),
    }
}

/// One step of the logging loop extends the text by one line.
proof fn lemma_wal_step(wal_mid: Option<Wal>, rvs: Seq<WalRecordV>, wk: int)
    requires
        0 <= wk < rvs.len(),
    ensures
        enc_log(rvs.skip(wk)) == enc_line(rvs[wk]) + seq!['\n'] + enc_log(rvs.skip(wk + 1)),
{
    assert(rvs.skip(wk).len() > 0);
    assert(rvs.skip(wk)[0] == rvs[wk]);
    assert(rvs.skip(wk).drop_first() =~= rvs.skip(wk + 1));
}

/// Element-for-element copy of a vector of bit patterns.
fn clone_vec_u32(v: &Vec<u32>) -> (r: Vec<u32>)
    ensures
        r@ == v@,
{
    let mut out: Vec<u32> = Vec::new();
    let mut i: usize = 0;
    while i < v.len()
        invariant
            0 <= i <= v@.len(),
            out@ == v@.take(i as int),
        decreases v@.len() - i,
    {
        out.push(v[i]);
        proof {
            assert(v@.take(i + 1) =~= v@.take(i as int).push(v@[i as int]));
        }
        i += 1;
    }
    proof {
        assert(v@.take(v@.len() as int) =~= v@);
    }
    out
}


impl DbState {
    /// Runs a filtered top-k query against a collection. The search never
    /// touches the log. `with_payloads=false` blanks the payloads in the
    /// response but changes neither ranking nor filtering.
    pub fn query(
        &self,
        collection: &str,
        vector: Vec<u32>,
        top_k: u32,
        metric_override: &str,
        with_payloads: bool,
        filters: Vec<(String, String)>,
    ) -> (r: Result<Vec<ScoredPoint>, DbError>)
        requires
            self.wf(),
        ensures
            r is Err <==> query_rejected(self, collection@, vector@),
            match r {
                Ok(hits) => {
                    &&& collection@.len() > 0
                    &&& self.catalog.has_name(collection@)
                    &&& vector@.len() > 0
                    &&& vector@.len() == self.catalog.collections@[name_pos(
                        self.catalog.collections@,
                        collection@,
                    )].dim
                    &&& ({
                        let sr = self.catalog.collections@[name_pos(
                            self.catalog.collections@,
                            collection@,
                        )].search_spec(
                            vector@,
                            top_k as int,
                            (if metric_override@.len() == 0 {
                                None
                            } else {
                                Some(metric_of_str(metric_override@))
                            }),
                            filters_v(filters@),
                        );
                        hits@.len() == sr.len() && (forall|i: int|
                            0 <= i < sr.len()
                                ==> (#[trigger] hits@[i]).id@ == sr[i].0
                                    && hits@[i].score == sr[i].1
                                    && hits@[i].payload_json@ == (if with_payloads {
                                    sr[i].2
                                } else {
                                    Seq::<char>::empty()
                                }))
                    })
                },
                Err(e) => {
                    &&& (e == DbError::NotFound <==> (collection@.len() > 0
                        && !self.catalog.has_name(collection@)))
                    &&& (e == DbError::InvalidArgument <==> (collection@.len() == 0
                        || (self.catalog.has_name(collection@) && (vector@.len() == 0
                        || vector@.len() != self.catalog.collections@[name_pos(
                        self.catalog.collections@,
                        collection@,
                    )].dim))))
                },
            },
    {
        if collection.unicode_len() == 0 {
            return Err(DbError::InvalidArgument);
        }
        let h = match self.catalog.get(collection) {
            Some(h) => h,
            None => {
                return Err(DbError::NotFound);
            },
        };
        if vector.len() == 0 {
            return Err(DbError::InvalidArgument);
        }
        let metric_ov = if metric_override.unicode_len() == 0 {
            None
        } else {
            Some(Metric::from_str(metric_override))
        };
        let hits = match h.search(&self.catalog, vector, top_k as usize, metric_ov, filters) {
            Some(hh) => hh,
            None => {
                return Err(DbError::InvalidArgument);
            },
        };
        let ghost sr = hits@.map_values(|t: (String, u32, String)| (t.0@, t.1, t.2@));
        let mut out: Vec<ScoredPoint> = Vec::new();
        let mut hits = hits;
        let n = hits.len();
        let mut i: usize = 0;
        while i < n
            invariant
                0 <= i <= n,
                sr.len() == n,
                hits@.map_values(|t: (String, u32, String)| (t.0@, t.1, t.2@))
                    == sr.skip(i as int),
                n == hits@.len() + i,
                out@.len() == i,
                forall|m: int| 0 <= m < i
                    ==> (#[trigger] out@[m]).id@ == sr[m].0
                        && out@[m].score == sr[m].1
                        && out@[m].payload_json@ == (if with_payloads {
                        sr[m].2
                    } else {
                        Seq::<char>::empty()
                    }),
            decreases n - i,
        {
            let ghost hpre = hits@;
            let (id, score, payload) = hits.remove(0);
            proof {
                assert(hpre.map_values(|t: (String, u32, String)| (t.0@, t.1, t.2@))[0]
                    == (hpre[0].0@, hpre[0].1, hpre[0].2@));
                assert(sr.skip(i as int)[0] == sr[i as int]);
                assert(hpre[0].0@ == sr[i as int].0);
                assert(hpre[0].1 == sr[i as int].1);
                assert(hpre[0].2@ == sr[i as int].2);
                assert forall|m: int| 0 <= m < hits@.len()
                    implies #[trigger] sr.skip(i + 1)[m] == hits@.map_values(
                    |t: (String, u32, String)| (t.0@, t.1, t.2@),
                )[m] by {
                    assert(hits@[m] == hpre[m + 1]);
                    assert(hpre.map_values(
                        |t: (String, u32, String)| (t.0@, t.1, t.2@),
                    )[m + 1] == (hpre[m + 1].0@, hpre[m + 1].1, hpre[m + 1].2@));
                    assert(sr.skip(i as int)[m + 1] == sr[i + 1 + m]);
                    assert(sr.skip(i + 1)[m] == sr[i + 1 + m]);
                }
                assert(hits@.map_values(|t: (String, u32, String)| (t.0@, t.1, t.2@))
                    =~= sr.skip(i + 1));
            }
            let payload_out = if with_payloads {
                payload
            } else {
                String::new()
            };
            out.push(ScoredPoint { id, score, payload_json: payload_out });
            i += 1;
        }
        Ok(out)
    }
}


// ---------------------------------------------------------------------------
// The round trip of state and log.
// ---------------------------------------------------------------------------

/// A list of records applied in order.
pub open spec fn apply_all(cv: Seq<CollV>, rs: Seq<WalRecordV>) -> Seq<CollV>
    decreases rs.len(),
{
    if rs.len() == 0 {
        cv
    } else {
        apply_all(apply_rec_v(cv, rs[0]), rs.drop_first())
    }
}

proof fn lemma_replay_apply_cons(l: Seq<char>, ls: Seq<Seq<char>>, cv: Seq<CollV>, i: int)
    requires
        0 <= i,
    ensures
        replay_apply(cv, seq![l] + ls, i + 1) == replay_apply(cv, ls, i),
    decreases (if i >= ls.len() { 0int } else { ls.len() - i }),
{
    let full = seq![l] + ls;
    if i >= ls.len() {
    } else {
        assert(full[i + 1] == ls[i]);
        if is_blank(ls[i]) {
            lemma_replay_apply_cons(l, ls, cv, i + 1);
        } else {
            match parse_line_s(ls[i]) {
                Some(r) => {
                    lemma_replay_apply_cons(l, ls, apply_rec_v(cv, r), i + 1);
                },
                None => {},
            }
        }
    }
}

/// Replaying the text that logs a list of mutations rebuilds exactly the
/// catalog those mutations build: together with each operation's
/// contract, a state rebuilt from its own log matches the state that
/// wrote it.
pub proof fn lemma_replay_rebuilds(cv: Seq<CollV>, rs: Seq<WalRecordV>)
    requires
        forall|i: int| 0 <= i < rs.len() ==> crate::wal::rec_v_wf(#[trigger] rs[i]),
    ensures
        replay_apply(cv, wal_lines(enc_log(rs)), 0) == apply_all(cv, rs),
    decreases rs.len(),
{
    if rs.len() == 0 {
        assert(enc_log(rs) =~= Seq::<char>::empty());
        assert(wal_lines(enc_log(rs)) =~= Seq::<Seq<char>>::empty());
    } else {
        let r0 = rs[0];
        let rest = rs.drop_first();
        assert(forall|i: int| 0 <= i < rest.len()
            ==> crate::wal::rec_v_wf(#[trigger] rest[i])) by {
            assert(forall|i: int| 0 <= i < rest.len() ==> rest[i] == #[trigger] rs[i + 1]);
        }
        crate::wal::lemma_wal_lines_of_log(rs);
        crate::wal::lemma_parse_enc_line(r0);
        let line = enc_line(r0);
        let ls_rest = wal_lines(enc_log(rest));
        let full = seq![line] + ls_rest;
        assert(full[0] == line);
        lemma_replay_apply_cons(line, ls_rest, apply_rec_v(cv, r0), 0);
        lemma_replay_rebuilds(apply_rec_v(cv, r0), rest);
        assert(replay_apply(cv, full, 0) == replay_apply(apply_rec_v(cv, r0), full, 1));
    }
}

} // verus!
