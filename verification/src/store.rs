//! The indexing orchestrator: tracks per-project state, fingerprints files,
//! drives extraction and embedding in batches, commits the results to the
//! vector database file by file, and serves ranked similarity searches.
//!
//! A file's record is replaced only after every embedding batch for that
//! file succeeded; a failed file keeps its prior record and stays pending,
//! eligible for retry on the next indexing pass.  Files present in the
//! database but absent from the enumeration are removed.

use vstd::prelude::*;
use crate::db::{bytes_eq, contains_key, lookup, pair_views, scan_spec, RecModel, VectorDb};
use crate::embedding::{spans_view, EmbedCall, EmbeddingProvider, MAX_SPAN_LEN};
use crate::parsing::{
    extract_spec,
    has_rust_suffix,
    views,
    CodeContextRetriever,
    DocModel,
    Document,
};
use crate::similarity::{dot, dot_spec, ints, valid_embedding};

verus! {

/// Longest file content the orchestrator accepts, in bytes.
pub const MAX_FILE_LEN: usize = 90_000_000;

/// Longest relative path the orchestrator accepts, in bytes.
pub const MAX_PATH_LEN: usize = 4096;

/// One enumerated file of a project: its worktree, relative path and
/// content bytes.
#[derive(Debug, PartialEq, Eq)]
pub struct SourceFile {
    pub worktree_id: u64,
    pub path: Vec<u8>,
    pub content: Vec<u8>,
}

impl Clone for SourceFile {
    /// A clone carries the same model.
    fn clone(&self) -> (r: Self)
        ensures
            r@ == self@,
    {
        let r = SourceFile {
            worktree_id: self.worktree_id,
            path: self.path.clone(),
            content: self.content.clone(),
        };
        proof {
            assert(r.path@ =~= self.path@);
            assert(r.content@ =~= self.content@);
        }
        r
    }
}

/// The mathematical model of a [`SourceFile`].
pub struct SfModel {
    pub worktree_id: u64,
    pub path: Seq<u8>,
    pub content: Seq<u8>,
}

impl View for SourceFile {
    type V = SfModel;

    open spec fn view(&self) -> SfModel {
        SfModel { worktree_id: self.worktree_id, path: self.path@, content: self.content@ }
    }
}

/// The models of a sequence of source files.
pub open spec fn sf_views(s: Seq<SourceFile>) -> Seq<SfModel> {
    s.map_values(|f: SourceFile| f@)
}

/// The worktree of each file, in enumeration order.
pub open spec fn wts_of(files: Seq<SfModel>) -> Seq<u64> {
    files.map_values(|f: SfModel| f.worktree_id)
}

/// No two files share a (worktree, path) key.
pub open spec fn distinct_file_keys(files: Seq<SfModel>) -> bool {
    forall|i: int, j: int|
        0 <= i < j < files.len() ==> !((#[trigger] files[i]).worktree_id
            == (#[trigger] files[j]).worktree_id && files[i].path == files[j].path)
}

/// Some enumerated file has this key.
pub open spec fn is_file_key(files: Seq<SfModel>, w: u64, p: Seq<u8>) -> bool {
    exists|t: int| 0 <= t < files.len() && (#[trigger] files[t]).worktree_id == w && files[t].path
        == p
}

/// A file is selected for (re)indexing: its language is registered and the
/// stored fingerprint differs from its content (or no record exists).
pub open spec fn selected(rs: Seq<RecModel>, f: SfModel) -> bool {
    has_rust_suffix(f.path) && (match lookup(rs, f.worktree_id, f.path) {
        Some(m) => m.fingerprint != f.content,
        None => true,
    })
}

/// How many of the files are selected against this database state.
pub open spec fn changed_count(rs: Seq<RecModel>, files: Seq<SfModel>) -> int
    decreases files.len(),
{
    if files.len() == 0 {
        0
    } else {
        changed_count(rs, files.drop_last()) + if selected(rs, files.last()) {
            1int
        } else {
            0int
        }
    }
}

/// The documents with the provider's embeddings attached.
pub open spec fn embedded_docs<P: EmbeddingProvider>(p: P, ds: Seq<DocModel>) -> Seq<DocModel> {
    Seq::new(
        ds.len(),
        |i: int|
            DocModel {
                name: ds[i].name,
                range_start: ds[i].range_start,
                range_end: ds[i].range_end,
                content: ds[i].content,
                embedding: p.embed_spec(ds[i].content),
            },
    )
}

/// The record a successful (re)indexing pass commits for a file: the file's
/// content as its fingerprint, and its extracted documents embedded by the
/// provider.
pub open spec fn new_rec_spec<P: EmbeddingProvider>(p: P, f: SfModel) -> RecModel {
    RecModel {
        worktree_id: f.worktree_id,
        path: f.path,
        fingerprint: f.content,
        documents: match extract_spec(f.path, f.content) {
            Some(ds) => embedded_docs(p, ds),
            None => Seq::empty(),
        },
    }
}

/// Every pending entry of the project names an enumerated file that was
/// selected this pass and whose record was not committed.
pub open spec fn pending_entry_sound<P: EmbeddingProvider>(
    key: (u64, Seq<u8>),
    rs_final: Seq<RecModel>,
    rs_old: Seq<RecModel>,
    files: Seq<SfModel>,
    p: P,
) -> bool {
    exists|t: int|
        #![trigger files[t].worktree_id]
        0 <= t < files.len() && key.0 == files[t].worktree_id && key.1 == files[t].path
            && selected(rs_old, files[t]) && lookup(
            rs_final,
            files[t].worktree_id,
            files[t].path,
        ) != Some(new_rec_spec(p, files[t]))
}

/// A pending key names one of the first `n` files, selected against the
/// old records and with its record still as it was.
pub open spec fn pending_entry_live(
    key: (u64, Seq<u8>),
    n: int,
    rs_cur: Seq<RecModel>,
    rs_old: Seq<RecModel>,
    files: Seq<SfModel>,
) -> bool {
    exists|t: int|
        #![trigger files[t].worktree_id]
        0 <= t < n && key.0 == files[t].worktree_id && key.1 == files[t].path && selected(
            rs_old,
            files[t],
        ) && lookup(rs_cur, files[t].worktree_id, files[t].path) == lookup(
            rs_old,
            files[t].worktree_id,
            files[t].path,
        )
}

pub open spec fn pending_sound<P: EmbeddingProvider>(
    ps: PsModel,
    rs_final: Seq<RecModel>,
    rs_old: Seq<RecModel>,
    files: Seq<SfModel>,
    p: P,
) -> bool {
    forall|u: int|
        0 <= u < ps.pending.len() ==> pending_entry_sound(
            #[trigger] ps.pending[u],
            rs_final,
            rs_old,
            files,
            p,
        )
}

/// The span is the content of one of the given documents.
pub open spec fn span_from_docs(span: Seq<u8>, ds: Seq<DocModel>) -> bool {
    exists|d: int|
        #![trigger ds[d].content]
        0 <= d < ds.len() && span == ds[d].content
}

/// Every span of the batch is the content of one of the given documents.
pub open spec fn batch_from_docs(batch: Seq<Seq<u8>>, ds: Seq<DocModel>) -> bool {
    forall|k: int| 0 <= k < batch.len() ==> span_from_docs(#[trigger] batch[k], ds)
}

/// The batch was drawn from the documents of one enumerated file that was
/// selected for (re)indexing against the old records: indexing never sends
/// the provider anything else, so an unchanged file is never re-embedded.
pub open spec fn batch_from_selected(
    batch: Seq<Seq<u8>>,
    rs: Seq<RecModel>,
    files: Seq<SfModel>,
) -> bool {
    exists|t: int|
        #![trigger selected(rs, files[t])]
        0 <= t < files.len() && selected(rs, files[t]) && (extract_spec(
            files[t].path,
            files[t].content,
        ) matches Some(ds) && batch_from_docs(batch, ds))
}

/// Law: re-embed on change only.  An indexing pass in which no enumerated
/// file is selected — in particular a repeat pass over unchanged, committed
/// files — sends the embedding provider nothing at all: with
/// `index_project`'s contract, the provider's call history ends exactly
/// where it began.
pub proof fn lemma_no_selection_no_embedding(
    h0: Seq<EmbedCall>,
    h1: Seq<EmbedCall>,
    rs: Seq<RecModel>,
    files: Seq<SfModel>,
)
    requires
        h0.len() <= h1.len(),
        forall|b: int| 0 <= b < h0.len() ==> #[trigger] h1[b] == h0[b],
        forall|b: int|
            h0.len() <= b < h1.len() ==> batch_from_selected(
                (#[trigger] h1[b]).spans,
                rs,
                files,
            ),
        forall|t: int| 0 <= t < files.len() ==> !selected(rs, #[trigger] files[t]),
    ensures
        h1 == h0,
{
    if h1.len() > h0.len() {
        assert(batch_from_selected(h1[h0.len() as int].spans, rs, files));
        let t = choose|t: int|
            #![trigger selected(rs, files[t])]
            0 <= t < files.len() && selected(rs, files[t]) && (extract_spec(
                files[t].path,
                files[t].content,
            ) matches Some(ds) && batch_from_docs(h1[h0.len() as int].spans, ds));
        assert(!selected(rs, files[t]));
    }
    assert(h1 =~= h0);
}

/// Law: against records whose stored fingerprints already equal the files'
/// contents, no file is selected, so calling `index_project` again with no
/// changes in between reports zero changed files.  Files of no registered
/// language never get records and are never selected either.
pub proof fn lemma_unchanged_files_not_reselected(rs: Seq<RecModel>, files: Seq<SfModel>)
    requires
        forall|t: int|
            0 <= t < files.len() && has_rust_suffix((#[trigger] files[t]).path) ==> (lookup(
                rs,
                files[t].worktree_id,
                files[t].path,
            ) matches Some(m) && m.fingerprint == files[t].content),
    ensures
        changed_count(rs, files) == 0,
        forall|t: int| 0 <= t < files.len() ==> !selected(rs, #[trigger] files[t]),
    decreases files.len(),
{
    assert forall|t: int| 0 <= t < files.len() implies !selected(rs, #[trigger] files[t]) by {
        if has_rust_suffix(files[t].path) {
            assert(lookup(rs, files[t].worktree_id, files[t].path) matches Some(m)
                && m.fingerprint == files[t].content);
        }
    }
    if files.len() > 0 {
        assert forall|t: int|
            0 <= t < files.drop_last().len() && has_rust_suffix(
                (#[trigger] files.drop_last()[t]).path,
            ) implies (lookup(
            rs,
            files.drop_last()[t].worktree_id,
            files.drop_last()[t].path,
        ) matches Some(m) && m.fingerprint == files.drop_last()[t].content) by {
            assert(files.drop_last()[t] == files[t]);
        }
        lemma_unchanged_files_not_reselected(rs, files.drop_last());
        assert(files.last() == files[files.len() - 1]);
        assert(!selected(rs, files.last()));
    }
}

/// Law: a project with nothing stored for its worktrees yields an empty
/// search result, never an error: scoring and ranking an empty scan is
/// empty, whatever the query and the limit.
pub proof fn lemma_search_empty_index(
    rs: Seq<RecModel>,
    ps: Seq<PsModel>,
    pid: u64,
    q: Seq<i64>,
    limit: int,
)
    requires
        limit >= 0,
        scan_spec(rs, search_wts(ps, pid)) == Seq::<(u64, DocModel)>::empty(),
    ensures
        search_spec(rs, ps, pid, q, limit) == Seq::<SrModel>::empty(),
{
    assert(score_all(scan_spec(rs, search_wts(ps, pid)), q) == Seq::<SrModel>::empty());
    assert(sort_res(Seq::<SrModel>::empty()) == Seq::<SrModel>::empty());
    assert(search_spec(rs, ps, pid, q, limit) =~= Seq::<SrModel>::empty());
}

/// Transient per-project indexing state.
#[derive(Debug)]
pub struct ProjectState {
    pub project_id: u64,
    pub worktree_ids: Vec<u64>,
    pub pending: Vec<(u64, Vec<u8>)>,
}

/// The mathematical model of a [`ProjectState`].
pub struct PsModel {
    pub project_id: u64,
    pub worktree_ids: Seq<u64>,
    pub pending: Seq<(u64, Seq<u8>)>,
}

impl View for ProjectState {
    type V = PsModel;

    open spec fn view(&self) -> PsModel {
        PsModel {
            project_id: self.project_id,
            worktree_ids: self.worktree_ids@,
            pending: self.pending@.map_values(|k: (u64, Vec<u8>)| (k.0, k.1@)),
        }
    }
}

/// The models of the tracked projects.
pub open spec fn ps_views(s: Seq<ProjectState>) -> Seq<PsModel> {
    s.map_values(|p: ProjectState| p@)
}

/// No two tracked projects share an identifier.
pub open spec fn distinct_projects(ps: Seq<PsModel>) -> bool {
    forall|i: int, j: int|
        0 <= i < j < ps.len() ==> (#[trigger] ps[i]).project_id != (#[trigger] ps[j]).project_id
}

/// The tracked state of a project, if it was ever submitted for indexing.
pub open spec fn project_lookup(ps: Seq<PsModel>, pid: u64) -> Option<PsModel> {
    if exists|i: int| 0 <= i < ps.len() && (#[trigger] ps[i]).project_id == pid {
        Some(ps[choose|i: int| 0 <= i < ps.len() && (#[trigger] ps[i]).project_id == pid])
    } else {
        None
    }
}

/// Under distinct identifiers, any entry with the identifier is the entry.
pub proof fn lemma_project_unique(ps: Seq<PsModel>, pid: u64, i: int)
    requires
        distinct_projects(ps),
        0 <= i < ps.len(),
        ps[i].project_id == pid,
    ensures
        project_lookup(ps, pid) == Some(ps[i]),
{
    assert(exists|j: int| 0 <= j < ps.len() && (#[trigger] ps[j]).project_id == pid);
    let j = choose|j: int| 0 <= j < ps.len() && (#[trigger] ps[j]).project_id == pid;
    if i < j {
        assert(ps[i].project_id != ps[j].project_id);
    } else if j < i {
        assert(ps[j].project_id != ps[i].project_id);
    }
}

/// A ranked hit: the document's name and byte range, its worktree, and its
/// similarity to the query.
#[derive(Debug, PartialEq, Eq)]
pub struct SearchResult {
    pub worktree_id: u64,
    pub name: Vec<u8>,
    pub range_start: usize,
    pub range_end: usize,
    pub score: i64,
}

impl Clone for SearchResult {
    /// A clone carries the same model.
    fn clone(&self) -> (r: Self)
        ensures
            r@ == self@,
    {
        let r = SearchResult {
            worktree_id: self.worktree_id,
            name: self.name.clone(),
            range_start: self.range_start,
            range_end: self.range_end,
            score: self.score,
        };
        proof {
            assert(r.name@ =~= self.name@);
        }
        r
    }
}

/// The mathematical model of a [`SearchResult`].
pub struct SrModel {
    pub worktree_id: u64,
    pub name: Seq<u8>,
    pub range_start: int,
    pub range_end: int,
    pub score: int,
}

impl View for SearchResult {
    type V = SrModel;

    open spec fn view(&self) -> SrModel {
        SrModel {
            worktree_id: self.worktree_id,
            name: self.name@,
            range_start: self.range_start as int,
            range_end: self.range_end as int,
            score: self.score as int,
        }
    }
}

/// The models of a sequence of results.
pub open spec fn sr_views(s: Seq<SearchResult>) -> Seq<SrModel> {
    s.map_values(|r: SearchResult| r@)
}

/// Why a search failed.
#[derive(Debug, Clone, Copy, PartialEq, Eq)]
pub enum SearchError {
    /// The requested limit was not positive.
    InvalidLimit,
    /// The query could not be embedded.
    EmbeddingFailed,
}

/// `a` ranks strictly before `b`: higher similarity first; ties broken by
/// ascending range start, then by worktree identifier.
pub open spec fn res_precedes(a: SrModel, b: SrModel) -> bool {
    ||| a.score > b.score
    ||| (a.score == b.score && a.range_start < b.range_start)
    ||| (a.score == b.score && a.range_start == b.range_start && a.worktree_id < b.worktree_id)
}

/// Insert `d` into a ranked sequence, after everything it does not strictly
/// precede.
pub open spec fn insert_res(s: Seq<SrModel>, d: SrModel) -> Seq<SrModel>
    decreases s.len(),
{
    if s.len() == 0 {
        seq![d]
    } else if res_precedes(d, s.last()) {
        insert_res(s.drop_last(), d).push(s.last())
    } else {
        s.push(d)
    }
}

/// Stable insertion sort by rank.
pub open spec fn sort_res(s: Seq<SrModel>) -> Seq<SrModel>
    decreases s.len(),
{
    if s.len() == 0 {
        Seq::empty()
    } else {
        insert_res(sort_res(s.drop_last()), s.last())
    }
}

/// No later result strictly precedes an earlier one.
pub open spec fn sorted_res(s: Seq<SrModel>) -> bool {
    forall|i: int, j: int| 0 <= i <= j < s.len() ==> !res_precedes(#[trigger] s[j], #[trigger] s[i])
}

/// One scored result per scanned document whose embedding has the query's
/// dimension, in scan order.
pub open spec fn score_all(pairs: Seq<(u64, DocModel)>, q: Seq<i64>) -> Seq<SrModel>
    decreases pairs.len(),
{
    if pairs.len() == 0 {
        Seq::empty()
    } else {
        let rest = score_all(pairs.drop_last(), q);
        let (w, d) = pairs.last();
        if d.embedding.len() == q.len() {
            rest.push(
                SrModel {
                    worktree_id: w,
                    name: d.name,
                    range_start: d.range_start,
                    range_end: d.range_end,
                    score: dot_spec(ints(q), ints(d.embedding)),
                },
            )
        } else {
            rest
        }
    }
}

/// The worktrees a search for this project scans: those of its tracked
/// state, none if the project was never submitted.
pub open spec fn search_wts(ps: Seq<PsModel>, pid: u64) -> Seq<u64> {
    match project_lookup(ps, pid) {
        Some(p) => p.worktree_ids,
        None => Seq::empty(),
    }
}

/// Everything a search returns, as a function of the store, the project and
/// the query embedding: all stored documents of the project's worktrees,
/// scored by dot product, ranked, cut to the limit.
pub open spec fn search_spec(rs: Seq<RecModel>, ps: Seq<PsModel>, pid: u64, q: Seq<i64>, limit: int) -> Seq<
    SrModel,
> {
    let ranked = sort_res(score_all(scan_spec(rs, search_wts(ps, pid)), q));
    ranked.take(if limit < ranked.len() {
        limit
    } else {
        ranked.len() as int
    })
}

proof fn lemma_insert_res_at(s: Seq<SrModel>, d: SrModel, p: int)
    requires
        0 <= p <= s.len(),
        forall|k: int| p <= k < s.len() ==> res_precedes(d, #[trigger] s[k]),
        p > 0 ==> !res_precedes(d, s[p - 1]),
    ensures
        insert_res(s, d) == s.insert(p, d),
    decreases s.len(),
{
    if s.len() == 0 {
        assert(insert_res(s, d) =~= s.insert(0, d));
    } else if p == s.len() {
        assert(s[p - 1] == s.last());
        assert(insert_res(s, d) == s.push(d));
        assert(s.push(d) =~= s.insert(p, d));
    } else {
        assert(s.last() == s[s.len() - 1]);
        assert forall|k: int| p <= k < s.drop_last().len() implies res_precedes(
            d,
            #[trigger] s.drop_last()[k],
        ) by {
            assert(s.drop_last()[k] == s[k]);
        }
        if p > 0 {
            assert(s.drop_last()[p - 1] == s[p - 1]);
        }
        lemma_insert_res_at(s.drop_last(), d, p);
        assert(s.drop_last().insert(p, d).push(s.last()) =~= s.insert(p, d));
    }
}

proof fn lemma_sr_views_push(s: Seq<SearchResult>, d: SearchResult)
    ensures
        sr_views(s.push(d)) == sr_views(s).push(d@),
{
    assert(sr_views(s.push(d)) =~= sr_views(s).push(d@));
}

proof fn lemma_sr_views_insert(s: Seq<SearchResult>, p: int, d: SearchResult)
    requires
        0 <= p <= s.len(),
    ensures
        sr_views(s.insert(p, d)) == sr_views(s).insert(p, d@),
{
    assert(sr_views(s.insert(p, d)) =~= sr_views(s).insert(p, d@));
}

/// Whether the path names a file of the registered language.
fn is_rust_path(path: &Vec<u8>) -> (r: bool)
    ensures
        r == has_rust_suffix(path@),
{
    let n = path.len();
    n >= 3 && path[n - 3] == 46 && path[n - 2] == 114 && path[n - 1] == 115
}

/// A copy of a byte vector with the same model.
fn clone_bytes(v: &Vec<u8>) -> (r: Vec<u8>)
    ensures
        r@ == v@,
{
    let r = v.clone();
    proof {
        assert(r@ =~= v@);
    }
    r
}

/// A copy of a worktree list with the same model.
fn clone_u64s(v: &Vec<u64>) -> (r: Vec<u64>)
    ensures
        r@ == v@,
{
    let r = v.clone();
    proof {
        assert(r@ =~= v@);
    }
    r
}

/// A copy of an embedding with the same model.
fn clone_i64s(v: &Vec<i64>) -> (r: Vec<i64>)
    ensures
        r@ == v@,
{
    let r = v.clone();
    proof {
        assert(r@ =~= v@);
    }
    r
}

/// Whether some enumerated file has this key.
fn key_among_files(files: &Vec<SourceFile>, w: u64, p: &Vec<u8>) -> (r: bool)
    ensures
        r == is_file_key(sf_views(files@), w, p@),
{
    let mut i: usize = 0;
    while i < files.len()
        invariant
            i <= files@.len(),
            forall|t: int|
                0 <= t < i ==> !((#[trigger] sf_views(files@)[t]).worktree_id == w && sf_views(
                    files@,
                )[t].path == p@),
        decreases files@.len() - i,
    {
        if files[i].worktree_id == w && bytes_eq(&files[i].path, p) {
            proof {
                assert(sf_views(files@)[i as int].worktree_id == w && sf_views(files@)[
                    i as int
                ].path == p@);
            }
            return true;
        }
        proof {
            assert(sf_views(files@)[i as int] == files@[i as int]@);
        }
        i = i + 1;
    }
    false
}

/// The indexing orchestrator and query surface.
pub struct VectorStore {
    pub db: VectorDb,
    pub projects: Vec<ProjectState>,
    pub batch_size: usize,
}

impl VectorStore {
    /// The tracked project states, as models.
    pub open spec fn projs(&self) -> Seq<PsModel> {
        ps_views(self.projects@)
    }

    /// Well-formed: sound database, one state per project, sensible batch
    /// size.
    pub open spec fn wf(&self) -> bool {
        self.db.wf() && distinct_projects(self.projs()) && self.batch_size >= 1
    }

    /// A fresh store over an empty database.  `batch_size` bounds how many
    /// spans one embedding call may carry.
    pub fn new(batch_size: usize) -> (r: Self)
        requires
            batch_size >= 1,
        ensures
            r.wf(),
            r.db.recs() == Seq::<RecModel>::empty(),
            forall|pid: u64| #[trigger] project_lookup(r.projs(), pid) is None,
    {
        let r = VectorStore { db: VectorDb::new(), projects: Vec::new(), batch_size };
        proof {
            assert(r.projs() =~= Seq::<PsModel>::empty());
        }
        r
    }

    /// A store over an existing database, as after a process restart: all
    /// committed records are available, but no project is registered until
    /// it is submitted again.
    pub fn open(db: VectorDb, batch_size: usize) -> (r: Self)
        requires
            db.wf(),
            batch_size >= 1,
        ensures
            r.wf(),
            r.db.recs() == db.recs(),
            forall|pid: u64| #[trigger] project_lookup(r.projs(), pid) is None,
    {
        let r = VectorStore { db, projects: Vec::new(), batch_size };
        proof {
            assert(r.projs() =~= Seq::<PsModel>::empty());
        }
        r
    }

    /// The position of a project's state, if tracked.
    fn find_project(&self, pid: u64) -> (r: Option<usize>)
        ensures
            r matches Some(i) ==> i < self.projs().len() && self.projs()[i as int].project_id
                == pid,
            r is None ==> project_lookup(self.projs(), pid) is None,
    {
        let mut i: usize = 0;
        while i < self.projects.len()
            invariant
                i <= self.projs().len(),
                forall|t: int| 0 <= t < i ==> (#[trigger] self.projs()[t]).project_id != pid,
            decreases self.projs().len() - i,
        {
            if self.projects[i].project_id == pid {
                proof {
                    assert(self.projs()[i as int].project_id == pid);
                }
                return Some(i);
            }
            proof {
                assert(self.projs()[i as int] == self.projects@[i as int]@);
            }
            i = i + 1;
        }
        None
    }

    /// `None` if the project was never submitted for indexing; otherwise
    /// how many selected files are still uncommitted.
    pub fn remaining_files_to_index_for_project(&self, project_id: u64) -> (r: Option<usize>)
        requires
            self.wf(),
        ensures
            (r is Some) == (project_lookup(self.projs(), project_id) is Some),
            r matches Some(n) ==> project_lookup(self.projs(), project_id) matches Some(ps)
                && ps.pending.len() == n,
    {
        match self.find_project(project_id) {
            Some(i) => {
                proof {
                    lemma_project_unique(self.projs(), project_id, i as int);
                }
                Some(self.projects[i].pending.len())
            },
            None => None,
        }
    }

    /// Embeds the query (a batch of one) and returns the `limit` stored
    /// documents of the project's worktrees most similar to it, by
    /// descending dot product, ties broken by ascending range start and
    /// then worktree.  A zero limit is rejected; an embedding failure is
    /// surfaced; a project with nothing indexed yields an empty result.
    pub fn search_project<P: EmbeddingProvider>(
        &self,
        project_id: u64,
        query: &Vec<u8>,
        limit: usize,
        provider: &mut P,
    ) -> (r: Result<Vec<SearchResult>, SearchError>)
        requires
            self.wf(),
            query@.len() <= MAX_SPAN_LEN,
        ensures
            (limit == 0) <==> (r == Err::<Vec<SearchResult>, SearchError>(
                SearchError::InvalidLimit,
            )),
            r matches Err(e) ==> e == SearchError::InvalidLimit || e == SearchError::EmbeddingFailed,
            r matches Ok(res) ==> sr_views(res@) == search_spec(
                self.db.recs(),
                self.projs(),
                project_id,
                old(provider).embed_spec(query@),
                limit as int,
            ),
            forall|s: Seq<u8>| #[trigger] final(provider).embed_spec(s) == old(provider).embed_spec(
                s,
            ),
            limit == 0 ==> final(provider).history() == old(provider).history(),
            limit > 0 ==> final(provider).history() == old(provider).history().push(
                EmbedCall { spans: seq![query@], ok: r is Ok },
            ),
    {
        if limit == 0 {
            return Err(SearchError::InvalidLimit);
        }
        let mut spans: Vec<Vec<u8>> = Vec::new();
        spans.push(clone_bytes(query));
        proof {
            assert(spans_view(spans@) =~= seq![query@]);
        }
        let embs = match provider.embed_batch(&spans) {
            Ok(v) => v,
            Err(_) => {
                return Err(SearchError::EmbeddingFailed);
            },
        };
        let q = &embs[0];
        proof {
            assert(spans@[0]@ == query@);
            assert(q@ == old(provider).embed_spec(query@));
            assert(valid_embedding(q@));
        }
        self.search_with_embedding(project_id, q, limit)
    }

    /// Ranks the stored documents of the project's worktrees against an
    /// already embedded query and returns the `limit` best.  Once the query
    /// embedding is in hand nothing can fail: a positive limit always yields
    /// the ranked results, and only a zero limit is rejected.
    pub fn search_with_embedding(&self, project_id: u64, query_embedding: &Vec<i64>, limit: usize) -> (r: Result<
        Vec<SearchResult>,
        SearchError,
    >)
        requires
            self.wf(),
            valid_embedding(query_embedding@),
        ensures
            (r is Ok) == (limit > 0),
            (limit == 0) <==> (r == Err::<Vec<SearchResult>, SearchError>(
                SearchError::InvalidLimit,
            )),
            r matches Ok(res) ==> sr_views(res@) == search_spec(
                self.db.recs(),
                self.projs(),
                project_id,
                query_embedding@,
                limit as int,
            ),
    {
        if limit == 0 {
            return Err(SearchError::InvalidLimit);
        }
        let q = query_embedding;
        let wts = match self.find_project(project_id) {
            Some(i) => {
                proof {
                    lemma_project_unique(self.projs(), project_id, i as int);
                }
                clone_u64s(&self.projects[i].worktree_ids)
            },
            None => {
                let w: Vec<u64> = Vec::new();
                proof {
                    assert(w@ =~= Seq::<u64>::empty());
                }
                w
            },
        };
        proof {
            assert(wts@ == search_wts(self.projs(), project_id));
        }
        let pairs = self.db.scan(&wts);
        let ghost pm = pair_views(pairs@);
        let ghost qm = q@;
        let mut scored: Vec<SearchResult> = Vec::new();
        let mut t: usize = 0;
        while t < pairs.len()
            invariant
                t <= pairs@.len(),
                pm == pair_views(pairs@),
                qm == q@,
                valid_embedding(qm),
                forall|u: int|
                    0 <= u < pairs@.len() ==> valid_embedding(
                        (#[trigger] pair_views(pairs@)[u]).1.embedding,
                    ),
                sr_views(scored@) == score_all(pm.take(t as int), qm),
            decreases pairs@.len() - t,
        {
            proof {
                assert(pm.take((t + 1) as int).drop_last() =~= pm.take(t as int));
                assert(pm.take((t + 1) as int).last() == pm[t as int]);
                assert(pm[t as int] == (pairs@[t as int].0, pairs@[t as int].1@));
                assert(valid_embedding(pm[t as int].1.embedding));
            }
            if pairs[t].1.embedding.len() == q.len() {
                let sc = dot(q, &pairs[t].1.embedding);
                let srr = SearchResult {
                    worktree_id: pairs[t].0,
                    name: clone_bytes(&pairs[t].1.name),
                    range_start: pairs[t].1.range_start,
                    range_end: pairs[t].1.range_end,
                    score: sc,
                };
                proof {
                    lemma_sr_views_push(scored@, srr);
                    assert(srr@ == SrModel {
                        worktree_id: pm[t as int].0,
                        name: pm[t as int].1.name,
                        range_start: pm[t as int].1.range_start,
                        range_end: pm[t as int].1.range_end,
                        score: dot_spec(ints(qm), ints(pm[t as int].1.embedding)),
                    });
                }
                scored.push(srr);
            }
            t = t + 1;
        }
        proof {
            assert(pm.take(pm.len() as int) =~= pm);
        }
        // Rank: stable insertion sort by descending similarity.
        let mut out: Vec<SearchResult> = Vec::new();
        let mut si: usize = 0;
        while si < scored.len()
            invariant
                si <= scored@.len(),
                sr_views(out@) == sort_res(sr_views(scored@).take(si as int)),
            decreases scored@.len() - si,
        {
            proof {
                assert(sr_views(scored@).take((si + 1) as int).drop_last() =~= sr_views(
                    scored@,
                ).take(si as int));
                assert(sr_views(scored@).take((si + 1) as int).last() == sr_views(scored@)[
                    si as int
                ]);
                assert(sr_views(scored@)[si as int] == scored@[si as int]@);
            }
            let d = scored[si].clone();
            proof {
                assert(d@ == scored@[si as int]@);
            }
            let mut p: usize = out.len();
            while p > 0 && Self::precedes_exec(&d, &out[p - 1])
                invariant
                    p <= out@.len(),
                    forall|k: int|
                        p <= k < out@.len() ==> res_precedes(d@, #[trigger] sr_views(out@)[k]),
                decreases p,
            {
                proof {
                    assert(sr_views(out@)[(p - 1) as int] == out@[(p - 1) as int]@);
                }
                p = p - 1;
            }
            proof {
                if p > 0 {
                    assert(sr_views(out@)[(p - 1) as int] == out@[(p - 1) as int]@);
                }
                lemma_insert_res_at(sr_views(out@), d@, p as int);
                lemma_sr_views_insert(out@, p as int, d);
            }
            out.insert(p, d);
            si = si + 1;
        }
        proof {
            assert(sr_views(scored@).take(scored@.len() as int) =~= sr_views(scored@));
        }
        let ghost ranked = sr_views(out@);
        if out.len() > limit {
            out.truncate(limit);
            proof {
                assert(sr_views(out@) =~= ranked.take(limit as int));
            }
        } else {
            proof {
                assert(sr_views(out@) =~= ranked.take(ranked.len() as int));
            }
        }
        Ok(out)
    }

    /// Whether `a` ranks strictly before `b`.
    fn precedes_exec(a: &SearchResult, b: &SearchResult) -> (r: bool)
        ensures
            r == res_precedes(a@, b@),
    {
        a.score > b.score || (a.score == b.score && (a.range_start < b.range_start || (
        a.range_start == b.range_start && a.worktree_id < b.worktree_id)))
    }

    /// Walks the enumerated files of a project, selects those that are new
    /// or changed (their stored fingerprint differs from their content),
    /// extracts and embeds each selected file and atomically replaces its
    /// record; a file whose extraction or embedding fails keeps its prior
    /// record and stays pending.  Records of scoped files absent from the
    /// enumeration are removed.  Returns how many files were selected this
    /// call.  Every batch this call adds to the provider's record holds
    /// only document contents of files selected this pass, so unchanged
    /// files are never re-embedded.
    pub fn index_project<P: EmbeddingProvider>(
        &mut self,
        project_id: u64,
        files: &Vec<SourceFile>,
        provider: &mut P,
    ) -> (count: usize)
        requires
            old(self).wf(),
            distinct_file_keys(sf_views(files@)),
            forall|t: int|
                0 <= t < files@.len() ==> (#[trigger] sf_views(files@)[t]).content.len()
                    <= MAX_FILE_LEN && sf_views(files@)[t].path.len() <= MAX_PATH_LEN,
        ensures
            final(self).wf(),
            count == changed_count(old(self).db.recs(), sf_views(files@)),
            forall|t: int|
                0 <= t < files@.len() && !selected(old(self).db.recs(), #[trigger] sf_views(
                    files@,
                )[t]) ==> lookup(
                    final(self).db.recs(),
                    sf_views(files@)[t].worktree_id,
                    sf_views(files@)[t].path,
                ) == lookup(
                    old(self).db.recs(),
                    sf_views(files@)[t].worktree_id,
                    sf_views(files@)[t].path,
                ),
            forall|t: int|
                0 <= t < files@.len() && selected(old(self).db.recs(), #[trigger] sf_views(
                    files@,
                )[t]) ==> lookup(
                    final(self).db.recs(),
                    sf_views(files@)[t].worktree_id,
                    sf_views(files@)[t].path,
                ) == Some(new_rec_spec(*old(provider), sf_views(files@)[t])) || lookup(
                    final(self).db.recs(),
                    sf_views(files@)[t].worktree_id,
                    sf_views(files@)[t].path,
                ) == lookup(
                    old(self).db.recs(),
                    sf_views(files@)[t].worktree_id,
                    sf_views(files@)[t].path,
                ),
            forall|t: int|
                0 <= t < files@.len() && selected(old(self).db.recs(), #[trigger] sf_views(
                    files@,
                )[t]) && extract_spec(
                    sf_views(files@)[t].path,
                    sf_views(files@)[t].content,
                ) is None ==> lookup(
                    final(self).db.recs(),
                    sf_views(files@)[t].worktree_id,
                    sf_views(files@)[t].path,
                ) == lookup(
                    old(self).db.recs(),
                    sf_views(files@)[t].worktree_id,
                    sf_views(files@)[t].path,
                ),
            project_lookup(final(self).projs(), project_id) matches Some(ps) ==> forall|t: int|
                0 <= t < sf_views(files@).len() && selected(
                    old(self).db.recs(),
                    #[trigger] sf_views(files@)[t],
                ) && extract_spec(
                    sf_views(files@)[t].path,
                    sf_views(files@)[t].content,
                ) is None ==> pend_contains(
                    ps.pending,
                    sf_views(files@)[t].worktree_id,
                    sf_views(files@)[t].path,
                ),
            forall|w: u64, p: Seq<u8>|
                #![trigger lookup(final(self).db.recs(), w, p)]
                (wts_of(sf_views(files@)).contains(w) || search_wts(
                    old(self).projs(),
                    project_id,
                ).contains(w)) && !is_file_key(sf_views(files@), w, p) ==> lookup(
                    final(self).db.recs(),
                    w,
                    p,
                ) is None,
            forall|w: u64, p: Seq<u8>|
                #![trigger lookup(final(self).db.recs(), w, p)]
                !(wts_of(sf_views(files@)).contains(w) || search_wts(
                    old(self).projs(),
                    project_id,
                ).contains(w)) && !is_file_key(sf_views(files@), w, p) ==> lookup(
                    final(self).db.recs(),
                    w,
                    p,
                ) == lookup(old(self).db.recs(), w, p),
            project_lookup(final(self).projs(), project_id) is Some,
            project_lookup(final(self).projs(), project_id) matches Some(ps) ==> ps.worktree_ids
                == wts_of(sf_views(files@)),
            project_lookup(final(self).projs(), project_id) matches Some(ps) ==> pending_sound(
                ps,
                final(self).db.recs(),
                old(self).db.recs(),
                sf_views(files@),
                *old(provider),
            ),
            project_lookup(final(self).projs(), project_id) matches Some(ps) ==> forall|t: int|
                0 <= t < sf_views(files@).len() && selected(
                    old(self).db.recs(),
                    #[trigger] sf_views(files@)[t],
                ) && lookup(
                    final(self).db.recs(),
                    sf_views(files@)[t].worktree_id,
                    sf_views(files@)[t].path,
                ) != Some(new_rec_spec(*old(provider), sf_views(files@)[t])) ==> pend_contains(
                    ps.pending,
                    sf_views(files@)[t].worktree_id,
                    sf_views(files@)[t].path,
                ),
            forall|q: u64|
                q != project_id ==> #[trigger] project_lookup(final(self).projs(), q)
                    == project_lookup(old(self).projs(), q),
            forall|s: Seq<u8>| #[trigger] final(provider).embed_spec(s) == old(provider).embed_spec(
                s,
            ),
            old(provider).history().len() <= final(provider).history().len(),
            forall|b: int|
                0 <= b < old(provider).history().len() ==> #[trigger] final(provider).history()[b]
                    == old(provider).history()[b],
            forall|b: int|
                old(provider).history().len() <= b < final(provider).history().len()
                    ==> batch_from_selected(
                    (#[trigger] final(provider).history()[b]).spans,
                    old(self).db.recs(),
                    sf_views(files@),
                ),
    {
        let ghost od = self.db.recs();
        let ghost oldp = *provider;
        let ghost hist0 = provider.history();
        let ghost sfv = sf_views(files@);
        let retriever = CodeContextRetriever::new();
        let mut count: usize = 0;
        let mut pend: Vec<(u64, Vec<u8>)> = Vec::new();
        let mut new_wts: Vec<u64> = Vec::new();
        let mut i: usize = 0;
        proof {
            assert(sfv.take(0) =~= Seq::<SfModel>::empty());
            assert(new_wts@ =~= wts_of(sfv.take(0)));
            assert(pend_views(pend@) =~= Seq::<(u64, Seq<u8>)>::empty());
        }
        while i < files.len()
            invariant
                i <= files@.len(),
                sfv == sf_views(files@),
                distinct_file_keys(sfv),
                forall|t: int|
                    0 <= t < files@.len() ==> (#[trigger] sfv[t]).content.len() <= MAX_FILE_LEN
                        && sfv[t].path.len() <= MAX_PATH_LEN,
                self.db.wf(),
                self.projects == old(self).projects,
                self.batch_size == old(self).batch_size,
                old(self).wf(),
                od == old(self).db.recs(),
                forall|s: Seq<u8>| #[trigger] provider.embed_spec(s) == oldp.embed_spec(s),
                hist0 == old(provider).history(),
                hist0.len() <= provider.history().len(),
                forall|b: int|
                    0 <= b < hist0.len() ==> #[trigger] provider.history()[b] == hist0[b],
                forall|b: int|
                    hist0.len() <= b < provider.history().len() ==> batch_from_selected(
                        (#[trigger] provider.history()[b]).spans,
                        od,
                        sfv,
                    ),
                count <= i,
                count as int == changed_count(od, sfv.take(i as int)),
                new_wts@ == wts_of(sfv.take(i as int)),
                forall|w: u64, p: Seq<u8>|
                    #![trigger lookup(self.db.recs(), w, p)]
                    !key_in_prefix(sfv, i as int, w, p) ==> lookup(self.db.recs(), w, p) == lookup(
                        od,
                        w,
                        p,
                    ),
                forall|t: int|
                    0 <= t < i && !selected(od, #[trigger] sfv[t]) ==> lookup(
                        self.db.recs(),
                        sfv[t].worktree_id,
                        sfv[t].path,
                    ) == lookup(od, sfv[t].worktree_id, sfv[t].path),
                forall|t: int|
                    0 <= t < i && selected(od, #[trigger] sfv[t]) ==> lookup(
                        self.db.recs(),
                        sfv[t].worktree_id,
                        sfv[t].path,
                    ) == Some(new_rec_spec(oldp, sfv[t])) || lookup(
                        self.db.recs(),
                        sfv[t].worktree_id,
                        sfv[t].path,
                    ) == lookup(od, sfv[t].worktree_id, sfv[t].path),
                forall|t: int|
                    0 <= t < i && selected(od, #[trigger] sfv[t]) && extract_spec(
                        sfv[t].path,
                        sfv[t].content,
                    ) is None ==> lookup(self.db.recs(), sfv[t].worktree_id, sfv[t].path)
                        == lookup(od, sfv[t].worktree_id, sfv[t].path),
                forall|u: int|
                    0 <= u < pend_views(pend@).len() ==> pending_entry_live(
                        #[trigger] pend_views(pend@)[u],
                        i as int,
                        self.db.recs(),
                        od,
                        sfv,
                    ),
                forall|t: int|
                    0 <= t < i && selected(od, #[trigger] sfv[t]) && lookup(
                        self.db.recs(),
                        sfv[t].worktree_id,
                        sfv[t].path,
                    ) != Some(new_rec_spec(oldp, sfv[t])) ==> pend_contains(
                        pend_views(pend@),
                        sfv[t].worktree_id,
                        sfv[t].path,
                    ),
            decreases files@.len() - i,
        {
            proof {
                assert(sfv.take((i + 1) as int).drop_last() =~= sfv.take(i as int));
                assert(sfv.take((i + 1) as int).last() == sfv[i as int]);
                assert(sfv[i as int] == files@[i as int]@);
                assert(wts_of(sfv.take((i + 1) as int)) =~= wts_of(sfv.take(i as int)).push(
                    sfv[i as int].worktree_id,
                ));
                assert(!key_in_prefix(sfv, i as int, sfv[i as int].worktree_id, sfv[i as int].path))
                    by {
                    if key_in_prefix(sfv, i as int, sfv[i as int].worktree_id, sfv[i as int].path) {
                        let t = choose|t: int|
                            0 <= t < i && (#[trigger] sfv[t]).worktree_id == sfv[
                                i as int
                            ].worktree_id && sfv[t].path == sfv[i as int].path;
                        assert(!(sfv[t].worktree_id == sfv[i as int].worktree_id && sfv[t].path
                            == sfv[i as int].path));
                    }
                }
            }
            let f = &files[i];
            new_wts.push(f.worktree_id);
            let rust = is_rust_path(&f.path);
            let mut selected_now = false;
            if rust {
                selected_now = match self.db.fingerprint_of(f.worktree_id, &f.path) {
                    Some(fp) => !bytes_eq(fp, &f.content),
                    None => true,
                };
            }
            proof {
                assert(lookup(self.db.recs(), sfv[i as int].worktree_id, sfv[i as int].path)
                    == lookup(od, sfv[i as int].worktree_id, sfv[i as int].path));
                assert(selected_now == selected(od, sfv[i as int]));
            }
            let ghost prev_db = self.db.recs();
            let ghost prev_pv = pend_views(pend@);
            let mut failed_now = false;
            if selected_now {
                count = count + 1;
                match retriever.parse_file(&f.path, &f.content) {
                    Err(_) => {
                        failed_now = true;
                        let key = (f.worktree_id, clone_bytes(&f.path));
                        proof {
                            lemma_pend_push(pend@, key);
                        }
                        pend.push(key);
                    },
                    Ok(docs) => {
                        proof {
                            assert(extract_spec(sfv[i as int].path, sfv[i as int].content)
                                is Some);
                        }
                        let ghost prev_h = provider.history();
                        let committed = self.embed_and_commit(f, &docs, provider, Ghost(oldp));
                        proof {
                            assert forall|b: int|
                                hist0.len() <= b < provider.history().len()
                                    implies batch_from_selected(
                                (#[trigger] provider.history()[b]).spans,
                                od,
                                sfv,
                            ) by {
                                if b < prev_h.len() {
                                    assert(provider.history()[b] == prev_h[b]);
                                } else {
                                    assert(batch_from_docs(
                                        provider.history()[b].spans,
                                        views(docs@),
                                    ));
                                    assert(selected(od, sfv[i as int]));
                                    assert(extract_spec(sfv[i as int].path, sfv[i as int].content)
                                        == Some(views(docs@)));
                                }
                            }
                            assert forall|b: int| 0 <= b < hist0.len() implies #[trigger] provider.history()[
                                b
                            ] == hist0[b] by {
                                assert(provider.history()[b] == prev_h[b]);
                            }
                        }
                        if !committed {
                            failed_now = true;
                            let key = (f.worktree_id, clone_bytes(&f.path));
                            proof {
                                lemma_pend_push(pend@, key);
                            }
                            pend.push(key);
                        }
                    },
                }
            }
            proof {
                let ghost cur = self.db.recs();
                let kw = sfv[i as int].worktree_id;
                let kp = sfv[i as int].path;
                assert(cur == self.db.recs());
                // Keys other than this file's are untouched this iteration.
                assert forall|w: u64, p: Seq<u8>|
                    #![trigger lookup(cur, w, p)]
                    !(w == kw && p == kp) implies lookup(cur, w, p) == lookup(prev_db, w, p) by {}
                if failed_now {
                    assert(cur == prev_db);
                    assert(pend_views(pend@) == prev_pv.push((kw, kp)));
                    assert(lookup(cur, kw, kp) == lookup(od, kw, kp));
                }
                if !selected_now {
                    assert(cur == prev_db);
                    assert(pend_views(pend@) == prev_pv);
                }
                // Untouched keys beyond the new prefix keep their old value.
                assert forall|w: u64, p: Seq<u8>|
                    #![trigger lookup(cur, w, p)]
                    !key_in_prefix(sfv, (i + 1) as int, w, p) implies lookup(cur, w, p) == lookup(
                        od,
                        w,
                        p,
                    ) by {
                    assert(!key_in_prefix(sfv, i as int, w, p));
                    assert(!(w == kw && p == kp));
                }
                // Earlier files keep the state they reached.
                assert forall|t: int| 0 <= t < i implies lookup(
                    cur,
                    (#[trigger] sfv[t]).worktree_id,
                    sfv[t].path,
                ) == lookup(prev_db, sfv[t].worktree_id, sfv[t].path) by {
                    assert(!(sfv[t].worktree_id == kw && sfv[t].path == kp));
                }
                // A file whose extraction failed was never committed.
                assert forall|t: int|
                    0 <= t < i + 1 && selected(od, #[trigger] sfv[t]) && extract_spec(
                        sfv[t].path,
                        sfv[t].content,
                    ) is None implies lookup(cur, sfv[t].worktree_id, sfv[t].path) == lookup(
                    od,
                    sfv[t].worktree_id,
                    sfv[t].path,
                ) by {
                    if t < i {
                        assert(lookup(cur, sfv[t].worktree_id, sfv[t].path) == lookup(
                            prev_db,
                            sfv[t].worktree_id,
                            sfv[t].path,
                        ));
                    } else {
                        assert(failed_now);
                        assert(cur == prev_db);
                    }
                }
                // Pending entries still name selected, uncommitted files.
                assert forall|u: int| 0 <= u < pend_views(pend@).len() implies pending_entry_live(
                    #[trigger] pend_views(pend@)[u],
                    (i + 1) as int,
                    self.db.recs(),
                    od,
                    sfv,
                ) by {
                    if u < prev_pv.len() {
                        assert(pend_views(pend@)[u] == prev_pv[u]);
                        assert(pending_entry_live(prev_pv[u], i as int, prev_db, od, sfv));
                        let t = choose|t: int|
                            #![trigger sfv[t].worktree_id]
                            0 <= t < i && prev_pv[u].0 == sfv[t].worktree_id && prev_pv[u].1
                                == sfv[t].path && selected(od, sfv[t]) && lookup(
                                prev_db,
                                sfv[t].worktree_id,
                                sfv[t].path,
                            ) == lookup(od, sfv[t].worktree_id, sfv[t].path);
                        assert(lookup(self.db.recs(), sfv[t].worktree_id, sfv[t].path) == lookup(
                            prev_db,
                            sfv[t].worktree_id,
                            sfv[t].path,
                        ));
                    } else {
                        assert(failed_now);
                        assert(pend_views(pend@)[u] == (kw, kp));
                        assert(selected(od, sfv[i as int]));
                        assert(sfv[i as int].worktree_id == kw && sfv[i as int].path == kp);
                    }
                }
                // Selected, uncommitted files are all pending.
                assert forall|t: int|
                    0 <= t < i + 1 && selected(od, #[trigger] sfv[t]) && lookup(
                        cur,
                        sfv[t].worktree_id,
                        sfv[t].path,
                    ) != Some(new_rec_spec(oldp, sfv[t])) implies pend_contains(
                        pend_views(pend@),
                        sfv[t].worktree_id,
                        sfv[t].path,
                    ) by {
                    if t < i {
                        assert(lookup(cur, sfv[t].worktree_id, sfv[t].path) == lookup(
                            prev_db,
                            sfv[t].worktree_id,
                            sfv[t].path,
                        ));
                        assert(pend_contains(prev_pv, sfv[t].worktree_id, sfv[t].path));
                        let u = choose|u: int|
                            0 <= u < prev_pv.len() && (#[trigger] prev_pv[u]).0
                                == sfv[t].worktree_id && prev_pv[u].1 == sfv[t].path;
                        assert(pend_views(pend@)[u] == prev_pv[u]);
                    } else {
                        assert(t == i);
                        assert(failed_now);
                        assert(pend_views(pend@)[prev_pv.len() as int] == (kw, kp));
                    }
                }
            }
            i = i + 1;
        }
        proof {
            assert(sfv.take(files@.len() as int) =~= sfv);
        }
        // Remove records of scoped files that are no longer enumerated.
        let ghost mid = self.db.recs();
        let mut scope = clone_u64s(&new_wts);
        match self.find_project(project_id) {
            Some(j) => {
                proof {
                    lemma_project_unique(self.projs(), project_id, j as int);
                }
                let ow = clone_u64s(&self.projects[j].worktree_ids);
                append_u64s(&mut scope, &ow);
            },
            None => {},
        }
        proof {
            assert forall|w: u64| #[trigger] scope@.contains(w) implies wts_of(sfv).contains(w)
                || search_wts(old(self).projs(), project_id).contains(w) by {
                let t = choose|t: int| 0 <= t < scope@.len() && scope@[t] == w;
                if t < wts_of(sfv).len() {
                    assert(wts_of(sfv)[t] == w);
                } else {
                    assert(search_wts(old(self).projs(), project_id)[t - wts_of(sfv).len()] == w);
                }
            }
            assert forall|w: u64| wts_of(sfv).contains(w) || search_wts(
                old(self).projs(),
                project_id,
            ).contains(w) implies #[trigger] scope@.contains(w) by {
                if wts_of(sfv).contains(w) {
                    let t = choose|t: int| 0 <= t < wts_of(sfv).len() && wts_of(sfv)[t] == w;
                    assert(scope@[t] == w);
                } else {
                    let t = choose|t: int|
                        0 <= t < search_wts(old(self).projs(), project_id).len() && search_wts(
                            old(self).projs(),
                            project_id,
                        )[t] == w;
                    assert(scope@[wts_of(sfv).len() + t] == w);
                }
            }
        }
        let keys = self.db.keys_for_worktrees(&scope);
        let mut k: usize = 0;
        while k < keys.len()
            invariant
                k <= keys@.len(),
                sfv == sf_views(files@),
                self.db.wf(),
                self.projects == old(self).projects,
                self.batch_size == old(self).batch_size,
                forall|t: int|
                    0 <= t < keys@.len() ==> wts_of(sfv).contains((#[trigger] keys@[t]).0)
                        || search_wts(old(self).projs(), project_id).contains(keys@[t].0),
                forall|w2: u64, p2: Seq<u8>|
                    contains_key(mid, w2, p2) && scope@.contains(w2) ==> exists|t: int|
                        0 <= t < keys@.len() && (#[trigger] keys@[t]).0 == w2 && keys@[t].1@ == p2,
                forall|w: u64| #[trigger]
                    scope@.contains(w) == (wts_of(sfv).contains(w) || search_wts(
                        old(self).projs(),
                        project_id,
                    ).contains(w)),
                forall|w: u64, p: Seq<u8>|
                    #![trigger lookup(self.db.recs(), w, p)]
                    is_file_key(sfv, w, p) ==> lookup(self.db.recs(), w, p) == lookup(mid, w, p),
                forall|t: int|
                    0 <= t < k && !is_file_key(sfv, (#[trigger] keys@[t]).0, keys@[t].1@)
                        ==> lookup(self.db.recs(), keys@[t].0, keys@[t].1@) is None,
                forall|w: u64, p: Seq<u8>|
                    #![trigger lookup(self.db.recs(), w, p)]
                    !(exists|t: int|
                        0 <= t < k && (#[trigger] keys@[t]).0 == w && keys@[t].1@ == p) ==> lookup(
                        self.db.recs(),
                        w,
                        p,
                    ) == lookup(mid, w, p),
            decreases keys@.len() - k,
        {
            let kw = keys[k].0;
            if !key_among_files(files, kw, &keys[k].1) {
                let kp = clone_bytes(&keys[k].1);
                self.db.remove(kw, &kp);
            }
            k = k + 1;
        }
        let ghost pvf = pend_views(pend@);
        let ghost dbf = self.db.recs();
        proof {
            // Deletion never touches enumerated files, so a file whose
            // extraction failed still has its old record.
            assert forall|t: int|
                0 <= t < sfv.len() && selected(od, #[trigger] sfv[t]) && extract_spec(
                    sfv[t].path,
                    sfv[t].content,
                ) is None implies lookup(dbf, sfv[t].worktree_id, sfv[t].path) == lookup(
                od,
                sfv[t].worktree_id,
                sfv[t].path,
            ) by {
                assert(is_file_key(sfv, sfv[t].worktree_id, sfv[t].path));
                assert(lookup(dbf, sfv[t].worktree_id, sfv[t].path) == lookup(
                    mid,
                    sfv[t].worktree_id,
                    sfv[t].path,
                ));
            }
            // Every pending entry still names a selected file whose record
            // was not committed: deletion never touches enumerated files.
            assert forall|u: int| 0 <= u < pvf.len() implies pending_entry_sound(
                #[trigger] pvf[u],
                dbf,
                od,
                sfv,
                oldp,
            ) by {
                assert(pvf[u] == pend_views(pend@)[u]);
                assert(pending_entry_live(pend_views(pend@)[u], files@.len() as int, mid, od, sfv));
                let t = choose|t: int|
                    #![trigger sfv[t].worktree_id]
                    0 <= t < files@.len() && pend_views(pend@)[u].0 == sfv[t].worktree_id
                        && pend_views(pend@)[u].1 == sfv[t].path && selected(od, sfv[t]) && lookup(
                        mid,
                        sfv[t].worktree_id,
                        sfv[t].path,
                    ) == lookup(od, sfv[t].worktree_id, sfv[t].path);
                assert(is_file_key(sfv, sfv[t].worktree_id, sfv[t].path));
                assert(lookup(dbf, sfv[t].worktree_id, sfv[t].path) == lookup(
                    mid,
                    sfv[t].worktree_id,
                    sfv[t].path,
                ));
                match lookup(od, sfv[t].worktree_id, sfv[t].path) {
                    Some(m) => {
                        assert(m.fingerprint != sfv[t].content);
                        assert(new_rec_spec(oldp, sfv[t]).fingerprint == sfv[t].content);
                    },
                    None => {},
                }
            }
        }
        // Register (or refresh) the project's state.
        let psn = ProjectState { project_id, worktree_ids: new_wts, pending: pend };
        let ghost psm = psn@;
        proof {
            assert(psm.project_id == project_id);
            assert(psm.worktree_ids == wts_of(sfv));
            assert(psm.pending == pend_views(psn.pending@));
        }
        let ghost odp_seq = self.projs();
        match self.find_project(project_id) {
            Some(j) => {
                proof {
                    lemma_project_unique(self.projs(), project_id, j as int);
                }
                self.projects.set(j, psn);
                proof {
                    assert(self.projs() =~= odp_seq.update(j as int, psm));
                    lemma_ps_set(odp_seq, self.projs(), j as int, psm, project_id);
                }
            },
            None => {
                self.projects.push(psn);
                proof {
                    assert(self.projs() =~= odp_seq.push(psm));
                    lemma_ps_push(odp_seq, self.projs(), psm, project_id);
                }
            },
        }
        proof {
            assert(self.db.recs() == dbf);
            assert(project_lookup(self.projs(), project_id) == Some(psm));
            assert(psm.pending == pvf);
            assert forall|u: int| 0 <= u < psm.pending.len() implies pending_entry_sound(
                #[trigger] psm.pending[u],
                self.db.recs(),
                od,
                sfv,
                oldp,
            ) by {
                assert(psm.pending[u] == pvf[u]);
                assert(pending_entry_sound(pvf[u], dbf, od, sfv, oldp));
                let t = choose|t: int|
                    #![trigger sfv[t].worktree_id]
                    0 <= t < sfv.len() && pvf[u].0 == sfv[t].worktree_id && pvf[u].1
                        == sfv[t].path && selected(od, sfv[t]) && lookup(
                        dbf,
                        sfv[t].worktree_id,
                        sfv[t].path,
                    ) != Some(new_rec_spec(oldp, sfv[t]));
                assert(lookup(self.db.recs(), sfv[t].worktree_id, sfv[t].path) == lookup(
                    dbf,
                    sfv[t].worktree_id,
                    sfv[t].path,
                ));
            }
            assert(pending_sound(psm, self.db.recs(), od, sfv, oldp));
            assert forall|t: int|
                0 <= t < sf_views(files@).len() && selected(od, #[trigger] sf_views(files@)[t])
                    && extract_spec(
                    sf_views(files@)[t].path,
                    sf_views(files@)[t].content,
                ) is None implies lookup(
                self.db.recs(),
                sf_views(files@)[t].worktree_id,
                sf_views(files@)[t].path,
            ) == lookup(od, sf_views(files@)[t].worktree_id, sf_views(files@)[t].path) by {
                assert(sf_views(files@)[t] == sfv[t]);
            }
            assert forall|t: int|
                0 <= t < sf_views(files@).len() && selected(od, #[trigger] sf_views(files@)[t])
                    && extract_spec(
                    sf_views(files@)[t].path,
                    sf_views(files@)[t].content,
                ) is None implies pend_contains(
                psm.pending,
                sf_views(files@)[t].worktree_id,
                sf_views(files@)[t].path,
            ) by {
                assert(sf_views(files@)[t] == sfv[t]);
                assert(lookup(mid, sfv[t].worktree_id, sfv[t].path) == lookup(
                    od,
                    sfv[t].worktree_id,
                    sfv[t].path,
                ));
                match lookup(od, sfv[t].worktree_id, sfv[t].path) {
                    Some(m) => {
                        assert(m.fingerprint != sfv[t].content);
                        assert(new_rec_spec(oldp, sfv[t]).fingerprint == sfv[t].content);
                    },
                    None => {},
                }
                assert(lookup(mid, sfv[t].worktree_id, sfv[t].path) != Some(
                    new_rec_spec(oldp, sfv[t]),
                ));
                assert(pend_contains(pvf, sfv[t].worktree_id, sfv[t].path));
                assert(psm.pending == pvf);
            }
        }
        count
    }

    /// Embeds one parsed file's documents in batches and, if every batch
    /// succeeds, atomically replaces the file's record.  Returns whether the
    /// record was committed; on failure the database is untouched.
    fn embed_and_commit<P: EmbeddingProvider>(
        &mut self,
        f: &SourceFile,
        docs: &Vec<Document>,
        provider: &mut P,
        Ghost(oldp): Ghost<P>,
    ) -> (committed: bool)
        requires
            old(self).wf(),
            f@.content.len() <= MAX_FILE_LEN,
            f@.path.len() <= MAX_PATH_LEN,
            has_rust_suffix(f@.path),
            extract_spec(f@.path, f@.content) == Some(views(docs@)),
            forall|t: int|
                0 <= t < docs@.len() ==> crate::parsing::good_doc(
                    f@.path,
                    f@.content,
                    #[trigger] views(docs@)[t],
                ),
            forall|s: Seq<u8>| #[trigger] old(provider).embed_spec(s) == oldp.embed_spec(s),
        ensures
            final(self).wf(),
            final(self).projects == old(self).projects,
            final(self).batch_size == old(self).batch_size,
            forall|s: Seq<u8>| #[trigger] final(provider).embed_spec(s) == oldp.embed_spec(s),
            old(provider).history().len() <= final(provider).history().len(),
            forall|b: int|
                0 <= b < old(provider).history().len() ==> #[trigger] final(provider).history()[b]
                    == old(provider).history()[b],
            forall|b: int|
                old(provider).history().len() <= b < final(provider).history().len()
                    ==> batch_from_docs(
                    (#[trigger] final(provider).history()[b]).spans,
                    views(docs@),
                ),
            committed ==> lookup(final(self).db.recs(), f@.worktree_id, f@.path) == Some(
                new_rec_spec(oldp, f@),
            ),
            !committed ==> final(self).db == old(self).db,
            forall|w2: u64, p2: Seq<u8>|
                !(w2 == f@.worktree_id && p2 == f@.path) ==> #[trigger] lookup(
                    final(self).db.recs(),
                    w2,
                    p2,
                ) == lookup(old(self).db.recs(), w2, p2),
    {
        let ghost dm = views(docs@);
        // The spans to embed: each document's content block.
        let mut spans: Vec<Vec<u8>> = Vec::new();
        let mut j: usize = 0;
        proof {
            reveal_strlit("The below code snippet is from file '");
            reveal_strlit("'\n\n```rust\n");
            reveal_strlit("\n```");
        }
        while j < docs.len()
            invariant
                j <= docs@.len(),
                dm == views(docs@),
                f@.content.len() <= MAX_FILE_LEN,
                f@.path.len() <= MAX_PATH_LEN,
                forall|t: int|
                    0 <= t < docs@.len() ==> crate::parsing::good_doc(
                        f@.path,
                        f@.content,
                        #[trigger] views(docs@)[t],
                    ),
                spans@.len() == j,
                forall|u: int|
                    0 <= u < j ==> (#[trigger] spans@[u])@ == dm[u].content && spans@[u]@.len()
                        <= MAX_SPAN_LEN,
            decreases docs@.len() - j,
        {
            proof {
                reveal_strlit("The below code snippet is from file '");
                reveal_strlit("'\n\n```rust\n");
                reveal_strlit("\n```");
                assert(crate::parsing::ascii_of("The below code snippet is from file '"@).len()
                    == 37);
                assert(crate::parsing::ascii_of("'\n\n```rust\n"@).len() == 11);
                assert(crate::parsing::ascii_of("\n```"@).len() == 4);
                assert(crate::parsing::good_doc(f@.path, f@.content, dm[j as int]));
                assert(dm[j as int].content == crate::parsing::content_spec(
                    f@.path,
                    f@.content,
                    dm[j as int].range_start,
                    dm[j as int].range_end,
                ));
                assert(dm[j as int].content.len() <= 52 + f@.path.len() + f@.content.len());
            }
            spans.push(clone_bytes(&docs[j].content));
            j = j + 1;
        }
        // Embed in batches of at most batch_size spans, all or nothing.
        let ghost hist0 = provider.history();
        let mut embs: Vec<Vec<i64>> = Vec::new();
        let mut ok = true;
        let mut pos: usize = 0;
        while ok && pos < spans.len()
            invariant
                pos <= spans@.len(),
                spans@.len() == dm.len(),
                self.batch_size >= 1,
                ok ==> embs@.len() == pos,
                forall|u: int|
                    0 <= u < spans@.len() ==> (#[trigger] spans@[u])@ == dm[u].content
                        && spans@[u]@.len() <= MAX_SPAN_LEN,
                forall|u: int|
                    0 <= u < embs@.len() ==> (#[trigger] embs@[u])@ == oldp.embed_spec(spans@[u]@)
                        && valid_embedding(embs@[u]@),
                forall|s: Seq<u8>| #[trigger] provider.embed_spec(s) == oldp.embed_spec(s),
                hist0.len() <= provider.history().len(),
                forall|b: int|
                    0 <= b < hist0.len() ==> #[trigger] provider.history()[b] == hist0[b],
                forall|b: int|
                    hist0.len() <= b < provider.history().len() ==> batch_from_docs(
                        (#[trigger] provider.history()[b]).spans,
                        dm,
                    ),
            decreases (if ok {
                1int
            } else {
                0int
            }) + spans@.len() - pos,
        {
            let end = if spans.len() - pos > self.batch_size {
                pos + self.batch_size
            } else {
                spans.len()
            };
            let mut batch: Vec<Vec<u8>> = Vec::new();
            let mut u: usize = pos;
            while u < end
                invariant
                    pos <= u <= end <= spans@.len(),
                    spans@.len() == dm.len(),
                    batch@.len() == u - pos,
                    forall|v: int|
                        0 <= v < spans@.len() ==> (#[trigger] spans@[v])@ == dm[v].content
                            && spans@[v]@.len() <= MAX_SPAN_LEN,
                    forall|v: int|
                        0 <= v < batch@.len() ==> (#[trigger] batch@[v])@ == spans@[pos + v]@,
                decreases end - u,
            {
                batch.push(clone_bytes(&spans[u]));
                u = u + 1;
            }
            proof {
                assert(forall|v: int|
                    0 <= v < batch@.len() ==> (#[trigger] batch@[v])@.len() <= MAX_SPAN_LEN);
            }
            let ghost prev_hist = provider.history();
            let ghost bpos = pos as int;
            match provider.embed_batch(&batch) {
                Ok(vs) => {
                    let mut v: usize = 0;
                    while v < vs.len()
                        invariant
                            v <= vs@.len(),
                            vs@.len() == batch@.len() == end - pos,
                            pos + vs@.len() <= spans@.len(),
                            forall|w: int|
                                0 <= w < vs@.len() ==> (#[trigger] vs@[w])@ == oldp.embed_spec(
                                    batch@[w]@,
                                ) && valid_embedding(vs@[w]@),
                            forall|w: int|
                                0 <= w < batch@.len() ==> (#[trigger] batch@[w])@ == spans@[pos
                                    + w]@,
                            embs@.len() == pos + v,
                            forall|w: int|
                                0 <= w < embs@.len() ==> (#[trigger] embs@[w])@ == oldp.embed_spec(
                                    spans@[w]@,
                                ) && valid_embedding(embs@[w]@),
                        decreases vs@.len() - v,
                    {
                        embs.push(clone_i64s(&vs[v]));
                        v = v + 1;
                    }
                    pos = end;
                },
                Err(_) => {
                    ok = false;
                },
            }
            proof {
                assert(provider.history().len() == prev_hist.len() + 1);
                assert(provider.history()[prev_hist.len() as int].spans == spans_view(batch@));
                assert forall|k: int| 0 <= k < spans_view(batch@).len() implies span_from_docs(
                    #[trigger] spans_view(batch@)[k],
                    dm,
                ) by {
                    assert(spans_view(batch@)[k] == batch@[k]@);
                    assert(batch@[k]@ == spans@[bpos + k]@);
                    assert(spans@[bpos + k]@ == dm[bpos + k].content);
                }
                assert(batch_from_docs(spans_view(batch@), dm));
                assert forall|b: int|
                    hist0.len() <= b < provider.history().len() implies batch_from_docs(
                    (#[trigger] provider.history()[b]).spans,
                    dm,
                ) by {
                    if b < prev_hist.len() {
                        assert(provider.history()[b] == prev_hist[b]);
                    } else {
                        assert(provider.history()[b].spans == spans_view(batch@));
                    }
                }
                assert forall|b: int| 0 <= b < hist0.len() implies #[trigger] provider.history()[b]
                    == hist0[b] by {
                    assert(provider.history()[b] == prev_hist[b]);
                }
            }
        }
        if !ok {
            return false;
        }
        // Attach the embeddings and commit the record.
        let mut new_docs: Vec<Document> = Vec::new();
        let mut j2: usize = 0;
        proof {
            assert(embs@.len() == spans@.len() == dm.len());
        }
        while j2 < docs.len()
            invariant
                j2 <= docs@.len(),
                dm == views(docs@),
                embs@.len() == dm.len(),
                forall|u: int|
                    0 <= u < embs@.len() ==> (#[trigger] embs@[u])@ == oldp.embed_spec(
                        dm[u].content,
                    ) && valid_embedding(embs@[u]@),
                new_docs@.len() == j2,
                forall|u: int|
                    0 <= u < j2 ==> (#[trigger] views(new_docs@)[u]) == embedded_docs(oldp, dm)[u]
                        && valid_embedding(views(new_docs@)[u].embedding),
            decreases docs@.len() - j2,
        {
            let mut d = docs[j2].clone();
            d.embedding = clone_i64s(&embs[j2]);
            proof {
                assert(d@ == embedded_docs(oldp, dm)[j2 as int]);
            }
            let ghost prevnd = new_docs@;
            new_docs.push(d);
            proof {
                assert(views(new_docs@)[j2 as int] == d@);
                assert(forall|u: int| 0 <= u < prevnd.len() ==> new_docs@[u] == prevnd[u]);
                assert(forall|u: int|
                    0 <= u < prevnd.len() ==> views(new_docs@)[u] == views(prevnd)[u]);
                assert forall|u: int| 0 <= u < j2 + 1 implies (#[trigger] views(new_docs@)[u])
                    == embedded_docs(oldp, dm)[u] && valid_embedding(
                    views(new_docs@)[u].embedding,
                ) by {
                    if u < j2 {
                        assert(views(new_docs@)[u] == views(prevnd)[u]);
                    } else {
                        assert(views(new_docs@)[u] == d@);
                        assert(valid_embedding(embs@[u]@));
                    }
                }
            }
            j2 = j2 + 1;
        }
        proof {
            assert(views(new_docs@) =~= embedded_docs(oldp, dm));
        }
        self.db.upsert(f.worktree_id, &f.path, clone_bytes(&f.content), new_docs);
        proof {
            assert(lookup(self.db.recs(), f@.worktree_id, f@.path) == Some(
                new_rec_spec(oldp, f@),
            ));
        }
        true
    }
}

/// The models of a pending-key list.
pub open spec fn pend_views(s: Seq<(u64, Vec<u8>)>) -> Seq<(u64, Seq<u8>)> {
    s.map_values(|k: (u64, Vec<u8>)| (k.0, k.1@))
}

/// The pending list holds this key.
pub open spec fn pend_contains(s: Seq<(u64, Seq<u8>)>, w: u64, p: Seq<u8>) -> bool {
    exists|u: int| 0 <= u < s.len() && (#[trigger] s[u]).0 == w && s[u].1 == p
}

/// Some file earlier than `n` has this key.
pub open spec fn key_in_prefix(files: Seq<SfModel>, n: int, w: u64, p: Seq<u8>) -> bool {
    exists|t: int| 0 <= t < n && (#[trigger] files[t]).worktree_id == w && files[t].path == p
}

proof fn lemma_pend_push(s: Seq<(u64, Vec<u8>)>, k: (u64, Vec<u8>))
    ensures
        pend_views(s.push(k)) == pend_views(s).push((k.0, k.1@)),
{
    assert(pend_views(s.push(k)) =~= pend_views(s).push((k.0, k.1@)));
}

/// Appends one worktree list to another.
fn append_u64s(dst: &mut Vec<u64>, src: &Vec<u64>)
    ensures
        final(dst)@ == old(dst)@ + src@,
{
    let mut i: usize = 0;
    while i < src.len()
        invariant
            i <= src@.len(),
            dst@ == old(dst)@ + src@.take(i as int),
        decreases src@.len() - i,
    {
        dst.push(src[i]);
        proof {
            assert(old(dst)@ + src@.take((i + 1) as int) =~= (old(dst)@ + src@.take(i as int)).push(
                src@[i as int],
            ));
        }
        i = i + 1;
    }
    proof {
        assert(src@.take(src@.len() as int) =~= src@);
    }
}

proof fn lemma_ps_set(od: Seq<PsModel>, nw: Seq<PsModel>, i: int, m: PsModel, pid: u64)
    requires
        distinct_projects(od),
        0 <= i < od.len(),
        od[i].project_id == pid,
        m.project_id == pid,
        nw == od.update(i, m),
    ensures
        distinct_projects(nw),
        project_lookup(nw, pid) == Some(m),
        forall|q: u64|
            q != pid ==> #[trigger] project_lookup(nw, q) == project_lookup(od, q),
{
    assert forall|a: int, b: int| 0 <= a < b < nw.len() implies (#[trigger] nw[a]).project_id != (
    #[trigger] nw[b]).project_id by {
        if a != i && b != i {
            assert(nw[a] == od[a] && nw[b] == od[b]);
        } else if a == i {
            assert(nw[b] == od[b]);
        } else {
            assert(nw[a] == od[a]);
        }
    }
    lemma_project_unique(nw, pid, i);
    assert forall|q: u64| q != pid implies #[trigger] project_lookup(nw, q) == project_lookup(
        od,
        q,
    ) by {
        if exists|j: int| 0 <= j < od.len() && (#[trigger] od[j]).project_id == q {
            let j = choose|j: int| 0 <= j < od.len() && (#[trigger] od[j]).project_id == q;
            assert(j != i);
            assert(nw[j] == od[j]);
            lemma_project_unique(od, q, j);
            lemma_project_unique(nw, q, j);
        } else {
            if exists|j: int| 0 <= j < nw.len() && (#[trigger] nw[j]).project_id == q {
                let j = choose|j: int| 0 <= j < nw.len() && (#[trigger] nw[j]).project_id == q;
                assert(j != i);
                assert(nw[j] == od[j]);
            }
        }
    }
}

proof fn lemma_ps_push(od: Seq<PsModel>, nw: Seq<PsModel>, m: PsModel, pid: u64)
    requires
        distinct_projects(od),
        project_lookup(od, pid) is None,
        m.project_id == pid,
        nw == od.push(m),
    ensures
        distinct_projects(nw),
        project_lookup(nw, pid) == Some(m),
        forall|q: u64|
            q != pid ==> #[trigger] project_lookup(nw, q) == project_lookup(od, q),
{
    let i = od.len() as int;
    assert forall|a: int, b: int| 0 <= a < b < nw.len() implies (#[trigger] nw[a]).project_id != (
    #[trigger] nw[b]).project_id by {
        if b < i {
            assert(nw[a] == od[a] && nw[b] == od[b]);
        } else {
            assert(nw[a] == od[a] && nw[b] == m);
            if od[a].project_id == pid {
                assert(exists|j: int| 0 <= j < od.len() && (#[trigger] od[j]).project_id == pid);
            }
        }
    }
    assert(nw[i].project_id == pid);
    lemma_project_unique(nw, pid, i);
    assert forall|q: u64| q != pid implies #[trigger] project_lookup(nw, q) == project_lookup(
        od,
        q,
    ) by {
        if exists|j: int| 0 <= j < od.len() && (#[trigger] od[j]).project_id == q {
            let j = choose|j: int| 0 <= j < od.len() && (#[trigger] od[j]).project_id == q;
            assert(nw[j] == od[j]);
            lemma_project_unique(od, q, j);
            lemma_project_unique(nw, q, j);
        } else {
            if exists|j: int| 0 <= j < nw.len() && (#[trigger] nw[j]).project_id == q {
                let j = choose|j: int| 0 <= j < nw.len() && (#[trigger] nw[j]).project_id == q;
                assert(j < i || nw[j] == m);
                if j < i {
                    assert(nw[j] == od[j]);
                }
            }
        }
    }
}

} // verus!
