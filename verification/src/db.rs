//! The vector database: a mapping from (worktree, relative path) to the
//! fingerprint and embedded documents currently indexed for that file.
//!
//! Replacing a file's record atomically discards all previously stored
//! documents for the old content; removal deletes them; a scan yields every
//! stored document of a set of worktrees, in record order.  At most one
//! record lives per key.

use vstd::prelude::*;
use crate::parsing::{views, DocModel, Document};
use crate::similarity::valid_embedding;

verus! {

/// The persisted state for one file: its content fingerprint and the
/// documents (with embeddings) extracted from that content.
#[derive(Debug, PartialEq, Eq)]
pub struct FileRecord {
    pub worktree_id: u64,
    pub path: Vec<u8>,
    pub fingerprint: Vec<u8>,
    pub documents: Vec<Document>,
}

/// The mathematical model of a [`FileRecord`].
pub struct RecModel {
    pub worktree_id: u64,
    pub path: Seq<u8>,
    pub fingerprint: Seq<u8>,
    pub documents: Seq<DocModel>,
}

impl View for FileRecord {
    type V = RecModel;

    open spec fn view(&self) -> RecModel {
        RecModel {
            worktree_id: self.worktree_id,
            path: self.path@,
            fingerprint: self.fingerprint@,
            documents: views(self.documents@),
        }
    }
}

/// The models of a sequence of records.
pub open spec fn rec_views(s: Seq<FileRecord>) -> Seq<RecModel> {
    s.map_values(|r: FileRecord| r@)
}

/// The record is stored under this key.
pub open spec fn key_match(r: RecModel, wt: u64, path: Seq<u8>) -> bool {
    r.worktree_id == wt && r.path == path
}

/// No two records share a key.
pub open spec fn distinct_keys(rs: Seq<RecModel>) -> bool {
    forall|i: int, j: int|
        0 <= i < j < rs.len() ==> !((#[trigger] rs[i]).worktree_id == (#[trigger] rs[j]).worktree_id
            && rs[i].path == rs[j].path)
}

/// Some record is stored under this key.
pub open spec fn contains_key(rs: Seq<RecModel>, wt: u64, path: Seq<u8>) -> bool {
    exists|i: int| 0 <= i < rs.len() && key_match(#[trigger] rs[i], wt, path)
}

/// The record stored under a key, if any.
pub open spec fn lookup(rs: Seq<RecModel>, wt: u64, path: Seq<u8>) -> Option<RecModel> {
    if contains_key(rs, wt, path) {
        Some(rs[choose|i: int| 0 <= i < rs.len() && key_match(#[trigger] rs[i], wt, path)])
    } else {
        None
    }
}

/// Under distinct keys, any record that matches a key is the key's record.
pub proof fn lemma_lookup_unique(rs: Seq<RecModel>, wt: u64, path: Seq<u8>, i: int)
    requires
        distinct_keys(rs),
        0 <= i < rs.len(),
        key_match(rs[i], wt, path),
    ensures
        lookup(rs, wt, path) == Some(rs[i]),
{
    assert(contains_key(rs, wt, path));
    let j = choose|j: int| 0 <= j < rs.len() && key_match(#[trigger] rs[j], wt, path);
    if i < j {
        assert(!(rs[i].worktree_id == rs[j].worktree_id && rs[i].path == rs[j].path));
    } else if j < i {
        assert(!(rs[j].worktree_id == rs[i].worktree_id && rs[j].path == rs[i].path));
    }
}

/// Every embedding stored in these records is well-formed.
pub open spec fn embeddings_ok(rs: Seq<RecModel>) -> bool {
    forall|i: int, j: int|
        0 <= i < rs.len() && 0 <= j < (#[trigger] rs[i]).documents.len() ==> valid_embedding(
            (#[trigger] rs[i].documents[j]).embedding,
        )
}

/// The (worktree, document) pairs one record contributes to a scan.
pub open spec fn doc_pairs(r: RecModel) -> Seq<(u64, DocModel)> {
    Seq::new(r.documents.len(), |i: int| (r.worktree_id, r.documents[i]))
}

/// Every stored document of the given worktrees, in record order.
pub open spec fn scan_spec(rs: Seq<RecModel>, wts: Seq<u64>) -> Seq<(u64, DocModel)>
    decreases rs.len(),
{
    if rs.len() == 0 {
        Seq::empty()
    } else {
        scan_spec(rs.drop_last(), wts) + (if wts.contains(rs.last().worktree_id) {
            doc_pairs(rs.last())
        } else {
            Seq::empty()
        })
    }
}

/// Every scanned pair comes from a stored record of a scanned worktree: a
/// search can only ever return documents of files that are still stored.
pub proof fn lemma_scan_sources(rs: Seq<RecModel>, wts: Seq<u64>, t: int)
    requires
        0 <= t < scan_spec(rs, wts).len(),
    ensures
        exists|i: int|
            0 <= i < rs.len() && wts.contains((#[trigger] rs[i]).worktree_id) && scan_spec(
                rs,
                wts,
            )[t].0 == rs[i].worktree_id && rs[i].documents.contains(scan_spec(rs, wts)[t].1),
    decreases rs.len(),
{
    let pre = scan_spec(rs.drop_last(), wts);
    if t < pre.len() {
        lemma_scan_sources(rs.drop_last(), wts, t);
        assert(scan_spec(rs, wts)[t] == pre[t]);
        let i0 = choose|i0: int|
            0 <= i0 < rs.drop_last().len() && wts.contains(
                (#[trigger] rs.drop_last()[i0]).worktree_id,
            ) && pre[t].0 == rs.drop_last()[i0].worktree_id
                && rs.drop_last()[i0].documents.contains(pre[t].1);
        assert(rs.drop_last()[i0] == rs[i0]);
    } else {
        let i0 = rs.len() - 1;
        let j0 = t - pre.len();
        assert(rs.last() == rs[i0]);
        assert(scan_spec(rs, wts)[t] == doc_pairs(rs.last())[j0]);
        assert(scan_spec(rs, wts)[t].1 == rs[i0].documents[j0]);
        assert(rs[i0].documents.contains(rs[i0].documents[j0]));
    }
}

/// Compares two byte vectors.
pub fn bytes_eq(a: &Vec<u8>, b: &Vec<u8>) -> (r: bool)
    ensures
        r == (a@ == b@),
{
    if a.len() != b.len() {
        return false;
    }
    let mut i: usize = 0;
    while i < a.len()
        invariant
            i <= a@.len(),
            a@.len() == b@.len(),
            forall|t: int| 0 <= t < i ==> a@[t] == b@[t],
        decreases a@.len() - i,
    {
        if a[i] != b[i] {
            return false;
        }
        i = i + 1;
    }
    proof {
        assert(a@ =~= b@);
    }
    true
}

/// The persistent vector store, keyed by (worktree, relative path).
#[derive(Debug)]
pub struct VectorDb {
    pub records: Vec<FileRecord>,
}

impl VectorDb {
    /// The stored records, as models, in storage order.
    pub open spec fn recs(&self) -> Seq<RecModel> {
        rec_views(self.records@)
    }

    /// Well-formed: one record per key, all embeddings well-formed.
    pub open spec fn wf(&self) -> bool {
        distinct_keys(self.recs()) && embeddings_ok(self.recs())
    }

    /// An empty store.
    pub fn new() -> (r: Self)
        ensures
            r.wf(),
            r.recs() == Seq::<RecModel>::empty(),
    {
        let r = VectorDb { records: Vec::new() };
        proof {
            assert(r.recs() =~= Seq::<RecModel>::empty());
        }
        r
    }

    /// The position of the record under a key, if any.
    fn find(&self, wt: u64, path: &Vec<u8>) -> (r: Option<usize>)
        ensures
            r matches Some(i) ==> i < self.recs().len() && key_match(
                self.recs()[i as int],
                wt,
                path@,
            ),
            r is None ==> !contains_key(self.recs(), wt, path@),
    {
        let mut i: usize = 0;
        while i < self.records.len()
            invariant
                i <= self.recs().len(),
                forall|t: int| 0 <= t < i ==> !key_match(#[trigger] self.recs()[t], wt, path@),
            decreases self.recs().len() - i,
        {
            if self.records[i].worktree_id == wt && bytes_eq(&self.records[i].path, path) {
                proof {
                    assert(key_match(self.recs()[i as int], wt, path@));
                }
                return Some(i);
            }
            proof {
                assert(!key_match(self.recs()[i as int], wt, path@));
            }
            i = i + 1;
        }
        None
    }

    /// The stored fingerprint for a key: what decides "unchanged, skip".
    pub fn fingerprint_of(&self, wt: u64, path: &Vec<u8>) -> (r: Option<&Vec<u8>>)
        requires
            self.wf(),
        ensures
            (r is Some) == contains_key(self.recs(), wt, path@),
            r matches Some(f) ==> lookup(self.recs(), wt, path@) matches Some(m) && m.fingerprint
                == f@,
    {
        match self.find(wt, path) {
            Some(i) => {
                proof {
                    lemma_lookup_unique(self.recs(), wt, path@, i as int);
                }
                Some(&self.records[i].fingerprint)
            },
            None => None,
        }
    }

    /// Atomically replaces (or creates) the record under a key.
    pub fn upsert(&mut self, wt: u64, path: &Vec<u8>, fingerprint: Vec<u8>, documents: Vec<
        Document,
    >)
        requires
            old(self).wf(),
            forall|j: int|
                0 <= j < documents@.len() ==> valid_embedding(
                    (#[trigger] views(documents@)[j]).embedding,
                ),
        ensures
            final(self).wf(),
            lookup(final(self).recs(), wt, path@) == Some(
                RecModel {
                    worktree_id: wt,
                    path: path@,
                    fingerprint: fingerprint@,
                    documents: views(documents@),
                },
            ),
            forall|w2: u64, p2: Seq<u8>|
                !(w2 == wt && p2 == path@) ==> #[trigger] lookup(final(self).recs(), w2, p2)
                    == lookup(old(self).recs(), w2, p2),
    {
        let rec = FileRecord { worktree_id: wt, path: path.clone(), fingerprint, documents };
        proof {
            assert(rec.path@ =~= path@);
            assert(rec@ == RecModel {
                worktree_id: wt,
                path: path@,
                fingerprint: rec.fingerprint@,
                documents: views(rec.documents@),
            });
        }
        let ghost od = self.recs();
        let ghost newm = rec@;
        match self.find(wt, path) {
            Some(i) => {
                self.records.set(i, rec);
                proof {
                    assert(self.recs() =~= od.update(i as int, newm));
                    Self::lemma_upsert_post(od, self.recs(), i as int, newm, wt, path@);
                }
            },
            None => {
                self.records.push(rec);
                proof {
                    assert(self.recs() =~= od.push(newm));
                    Self::lemma_insert_post(od, self.recs(), newm, wt, path@);
                }
            },
        }
    }

    /// After an in-place replacement at the key's position, the new record
    /// is stored under the key and every other key is untouched.
    proof fn lemma_upsert_post(
        od: Seq<RecModel>,
        nw: Seq<RecModel>,
        i: int,
        newm: RecModel,
        wt: u64,
        path: Seq<u8>,
    )
        requires
            distinct_keys(od),
            embeddings_ok(od),
            0 <= i < od.len(),
            key_match(od[i], wt, path),
            key_match(newm, wt, path),
            forall|j: int|
                0 <= j < newm.documents.len() ==> valid_embedding(
                    (#[trigger] newm.documents[j]).embedding,
                ),
            nw == od.update(i, newm),
        ensures
            distinct_keys(nw),
            embeddings_ok(nw),
            lookup(nw, wt, path) == Some(newm),
            forall|w2: u64, p2: Seq<u8>|
                !(w2 == wt && p2 == path) ==> #[trigger] lookup(nw, w2, p2) == lookup(od, w2, p2),
    {
        assert forall|a: int, b: int| 0 <= a < b < nw.len() implies !((#[trigger] nw[a]).worktree_id
            == (#[trigger] nw[b]).worktree_id && nw[a].path == nw[b].path) by {
            if a != i && b != i {
                assert(nw[a] == od[a] && nw[b] == od[b]);
            } else if a == i {
                assert(nw[b] == od[b]);
                assert(!(od[i].worktree_id == od[b].worktree_id && od[i].path == od[b].path));
            } else {
                assert(nw[a] == od[a]);
                assert(!(od[a].worktree_id == od[i].worktree_id && od[a].path == od[i].path));
            }
        }
        lemma_lookup_unique(nw, wt, path, i);
        assert forall|w2: u64, p2: Seq<u8>| !(w2 == wt && p2 == path) implies #[trigger] lookup(
            nw,
            w2,
            p2,
        ) == lookup(od, w2, p2) by {
            if contains_key(od, w2, p2) {
                let j = choose|j: int| 0 <= j < od.len() && key_match(#[trigger] od[j], w2, p2);
                assert(j != i);
                assert(nw[j] == od[j]);
                lemma_lookup_unique(od, w2, p2, j);
                lemma_lookup_unique(nw, w2, p2, j);
            } else {
                if contains_key(nw, w2, p2) {
                    let j = choose|j: int|
                        0 <= j < nw.len() && key_match(#[trigger] nw[j], w2, p2);
                    assert(j != i);
                    assert(nw[j] == od[j]);
                    assert(contains_key(od, w2, p2));
                }
            }
        }
    }

    /// After appending a record under a fresh key, the record is stored
    /// under the key and every other key is untouched.
    proof fn lemma_insert_post(
        od: Seq<RecModel>,
        nw: Seq<RecModel>,
        newm: RecModel,
        wt: u64,
        path: Seq<u8>,
    )
        requires
            distinct_keys(od),
            embeddings_ok(od),
            !contains_key(od, wt, path),
            key_match(newm, wt, path),
            forall|j: int|
                0 <= j < newm.documents.len() ==> valid_embedding(
                    (#[trigger] newm.documents[j]).embedding,
                ),
            nw == od.push(newm),
        ensures
            distinct_keys(nw),
            embeddings_ok(nw),
            lookup(nw, wt, path) == Some(newm),
            forall|w2: u64, p2: Seq<u8>|
                !(w2 == wt && p2 == path) ==> #[trigger] lookup(nw, w2, p2) == lookup(od, w2, p2),
    {
        let i = od.len() as int;
        assert forall|a: int, b: int| 0 <= a < b < nw.len() implies !((#[trigger] nw[a]).worktree_id
            == (#[trigger] nw[b]).worktree_id && nw[a].path == nw[b].path) by {
            if b < i {
                assert(nw[a] == od[a] && nw[b] == od[b]);
            } else {
                assert(nw[a] == od[a] && nw[b] == newm);
                if od[a].worktree_id == wt && od[a].path == path {
                    assert(key_match(od[a], wt, path));
                    assert(contains_key(od, wt, path));
                }
            }
        }
        assert(key_match(nw[i], wt, path));
        lemma_lookup_unique(nw, wt, path, i);
        assert forall|w2: u64, p2: Seq<u8>| !(w2 == wt && p2 == path) implies #[trigger] lookup(
            nw,
            w2,
            p2,
        ) == lookup(od, w2, p2) by {
            if contains_key(od, w2, p2) {
                let j = choose|j: int| 0 <= j < od.len() && key_match(#[trigger] od[j], w2, p2);
                assert(nw[j] == od[j]);
                lemma_lookup_unique(od, w2, p2, j);
                lemma_lookup_unique(nw, w2, p2, j);
            } else {
                if contains_key(nw, w2, p2) {
                    let j = choose|j: int|
                        0 <= j < nw.len() && key_match(#[trigger] nw[j], w2, p2);
                    assert(j < i || nw[j] == newm);
                    if j < i {
                        assert(nw[j] == od[j]);
                        assert(contains_key(od, w2, p2));
                    }
                }
            }
        }
    }

    /// Atomically deletes the record under a key, if any.
    pub fn remove(&mut self, wt: u64, path: &Vec<u8>)
        requires
            old(self).wf(),
        ensures
            final(self).wf(),
            lookup(final(self).recs(), wt, path@) is None,
            forall|w2: u64, p2: Seq<u8>|
                !(w2 == wt && p2 == path@) ==> #[trigger] lookup(final(self).recs(), w2, p2)
                    == lookup(old(self).recs(), w2, p2),
    {
        let ghost od = self.recs();
        match self.find(wt, path) {
            Some(i) => {
                self.records.remove(i);
                proof {
                    assert(self.recs() =~= od.remove(i as int));
                    Self::lemma_remove_post(od, self.recs(), i as int, wt, path@);
                }
            },
            None => {},
        }
    }

    /// After deleting the key's record, the key is gone and every other key
    /// is untouched.
    proof fn lemma_remove_post(od: Seq<RecModel>, nw: Seq<RecModel>, i: int, wt: u64, path: Seq<
        u8,
    >)
        requires
            distinct_keys(od),
            embeddings_ok(od),
            0 <= i < od.len(),
            key_match(od[i], wt, path),
            nw == od.remove(i),
        ensures
            distinct_keys(nw),
            embeddings_ok(nw),
            lookup(nw, wt, path) is None,
            forall|w2: u64, p2: Seq<u8>|
                !(w2 == wt && p2 == path) ==> #[trigger] lookup(nw, w2, p2) == lookup(od, w2, p2),
    {
        let shift = |t: int| if t < i { t } else { t + 1 };
        assert forall|a: int, b: int| 0 <= a < b < nw.len() implies !((#[trigger] nw[a]).worktree_id
            == (#[trigger] nw[b]).worktree_id && nw[a].path == nw[b].path) by {
            assert(nw[a] == od[shift(a)] && nw[b] == od[shift(b)]);
        }
        assert forall|j: int, k: int| 0 <= j < nw.len() && 0 <= k < (#[trigger] nw[j]).documents.len()
            implies valid_embedding((#[trigger] nw[j].documents[k]).embedding) by {
            assert(nw[j] == od[shift(j)]);
        }
        if contains_key(nw, wt, path) {
            let j = choose|j: int| 0 <= j < nw.len() && key_match(#[trigger] nw[j], wt, path);
            assert(nw[j] == od[shift(j)]);
            assert(shift(j) != i);
            assert(!(od[shift(j)].worktree_id == od[i].worktree_id && od[shift(j)].path
                == od[i].path) || !(od[i].worktree_id == od[shift(j)].worktree_id && od[i].path
                == od[shift(j)].path));
        }
        assert forall|w2: u64, p2: Seq<u8>| !(w2 == wt && p2 == path) implies #[trigger] lookup(
            nw,
            w2,
            p2,
        ) == lookup(od, w2, p2) by {
            if contains_key(od, w2, p2) {
                let j = choose|j: int| 0 <= j < od.len() && key_match(#[trigger] od[j], w2, p2);
                assert(j != i);
                if j < i {
                    assert(nw[j] == od[j]);
                    lemma_lookup_unique(od, w2, p2, j);
                    lemma_lookup_unique(nw, w2, p2, j);
                } else {
                    assert(nw[j - 1] == od[j]);
                    lemma_lookup_unique(od, w2, p2, j);
                    lemma_lookup_unique(nw, w2, p2, j - 1);
                }
            } else {
                if contains_key(nw, w2, p2) {
                    let j = choose|j: int|
                        0 <= j < nw.len() && key_match(#[trigger] nw[j], w2, p2);
                    assert(nw[j] == od[shift(j)]);
                    assert(contains_key(od, w2, p2));
                }
            }
        }
    }

    /// The keys of every record stored for one of the given worktrees.
    pub fn keys_for_worktrees(&self, wts: &Vec<u64>) -> (r: Vec<(u64, Vec<u8>)>)
        ensures
            forall|t: int|
                0 <= t < r@.len() ==> contains_key(
                    self.recs(),
                    (#[trigger] r@[t]).0,
                    r@[t].1@,
                ) && wts@.contains(r@[t].0),
            forall|w2: u64, p2: Seq<u8>|
                contains_key(self.recs(), w2, p2) && wts@.contains(w2) ==> exists|t: int|
                    0 <= t < r@.len() && (#[trigger] r@[t]).0 == w2 && r@[t].1@ == p2,
    {
        let mut out: Vec<(u64, Vec<u8>)> = Vec::new();
        let mut i: usize = 0;
        while i < self.records.len()
            invariant
                i <= self.recs().len(),
                forall|t: int|
                    0 <= t < out@.len() ==> contains_key(
                        self.recs(),
                        (#[trigger] out@[t]).0,
                        out@[t].1@,
                    ) && wts@.contains(out@[t].0),
                forall|u: int|
                    0 <= u < i && wts@.contains((#[trigger] self.recs()[u]).worktree_id)
                        ==> exists|t: int|
                        0 <= t < out@.len() && (#[trigger] out@[t]).0
                            == self.recs()[u].worktree_id && out@[t].1@ == self.recs()[u].path,
            decreases self.recs().len() - i,
        {
            if contains_u64(wts, self.records[i].worktree_id) {
                let p = self.records[i].path.clone();
                proof {
                    assert(p@ =~= self.recs()[i as int].path);
                    assert(key_match(self.recs()[i as int], self.recs()[i as int].worktree_id, p@));
                }
                let ghost oldout = out@;
                out.push((self.records[i].worktree_id, p));
                proof {
                    assert(out@[out@.len() - 1].0 == self.recs()[i as int].worktree_id);
                    assert(out@[out@.len() - 1].1@ == self.recs()[i as int].path);
                    assert(forall|t: int| 0 <= t < oldout.len() ==> out@[t] == oldout[t]);
                }
            }
            i = i + 1;
        }
        proof {
            assert forall|w2: u64, p2: Seq<u8>|
                contains_key(self.recs(), w2, p2) && wts@.contains(w2) implies exists|t: int|
                0 <= t < out@.len() && (#[trigger] out@[t]).0 == w2 && out@[t].1@ == p2 by {
                let u = choose|u: int|
                    0 <= u < self.recs().len() && key_match(#[trigger] self.recs()[u], w2, p2);
                assert(wts@.contains(self.recs()[u].worktree_id));
            }
        }
        out
    }

    /// Every stored document of the given worktrees, with its worktree, in
    /// record order.
    pub fn scan(&self, wts: &Vec<u64>) -> (r: Vec<(u64, Document)>)
        requires
            self.wf(),
        ensures
            pair_views(r@) == scan_spec(self.recs(), wts@),
            forall|t: int|
                0 <= t < r@.len() ==> valid_embedding((#[trigger] pair_views(r@)[t]).1.embedding),
    {
        let mut out: Vec<(u64, Document)> = Vec::new();
        let mut i: usize = 0;
        while i < self.records.len()
            invariant
                self.wf(),
                i <= self.recs().len(),
                pair_views(out@) == scan_spec(self.recs().take(i as int), wts@),
                forall|t: int|
                    0 <= t < out@.len() ==> valid_embedding(
                        (#[trigger] pair_views(out@)[t]).1.embedding,
                    ),
            decreases self.recs().len() - i,
        {
            proof {
                assert(self.recs().take((i + 1) as int).drop_last() =~= self.recs().take(i as int));
                assert(self.recs().take((i + 1) as int).last() == self.recs()[i as int]);
            }
            if contains_u64(wts, self.records[i].worktree_id) {
                let wt = self.records[i].worktree_id;
                let ghost rm = self.recs()[i as int];
                let mut j: usize = 0;
                while j < self.records[i].documents.len()
                    invariant
                        self.wf(),
                        i < self.recs().len(),
                        wt == self.recs()[i as int].worktree_id,
                        rm == self.recs()[i as int],
                        j <= rm.documents.len(),
                        rm.documents.len() == self.records@[i as int].documents@.len(),
                        pair_views(out@) == scan_spec(self.recs().take(i as int), wts@)
                            + doc_pairs(rm).take(j as int),
                        forall|t: int|
                            0 <= t < out@.len() ==> valid_embedding(
                                (#[trigger] pair_views(out@)[t]).1.embedding,
                            ),
                    decreases rm.documents.len() - j,
                {
                    let d = self.records[i].documents[j].clone();
                    proof {
                        assert(d@ == views(self.records@[i as int].documents@)[j as int]);
                        assert(d@ == rm.documents[j as int]);
                        assert(valid_embedding(d@.embedding));
                        assert(pair_views(out@.push((wt, d))) =~= pair_views(out@).push(
                            (wt, d@),
                        ));
                        assert(doc_pairs(rm).take((j + 1) as int) =~= doc_pairs(rm).take(
                            j as int,
                        ).push((rm.worktree_id, rm.documents[j as int])));
                    }
                    out.push((wt, d));
                    j = j + 1;
                }
                proof {
                    assert(doc_pairs(rm).take(rm.documents.len() as int) =~= doc_pairs(rm));
                    assert(wts@.contains(rm.worktree_id));
                    assert(pair_views(out@) == scan_spec(self.recs().take((i + 1) as int), wts@));
                }
            } else {
                proof {
                    assert(!wts@.contains(self.recs()[i as int].worktree_id));
                    assert(pair_views(out@) + Seq::<(u64, DocModel)>::empty() =~= pair_views(
                        out@,
                    ));
                }
            }
            i = i + 1;
        }
        proof {
            assert(self.recs().take(self.recs().len() as int) =~= self.recs());
        }
        out
    }
}

/// The models of scanned pairs.
pub open spec fn pair_views(s: Seq<(u64, Document)>) -> Seq<(u64, DocModel)> {
    s.map_values(|p: (u64, Document)| (p.0, p.1@))
}

/// Whether a worktree identifier is in the list.
pub fn contains_u64(wts: &Vec<u64>, x: u64) -> (r: bool)
    ensures
        r == wts@.contains(x),
{
    let mut i: usize = 0;
    while i < wts.len()
        invariant
            i <= wts@.len(),
            forall|t: int| 0 <= t < i ==> wts@[t] != x,
        decreases wts@.len() - i,
    {
        if wts[i] == x {
            return true;
        }
        i = i + 1;
    }
    proof {
        assert(!wts@.contains(x));
    }
    false
}

} // verus!
