//! The fragment extractor: turns raw source bytes into an ordered list of
//! [`Document`]s, one per syntactically significant construct (function,
//! type, trait, implementation block, macro definition).
//!
//! The syntax tree itself comes from the tree-sitter grammar for Rust, which
//! is consumed as a black box through one trusted call; everything after that
//! call — validating capture ranges, attaching preceding comment context,
//! skipping nested duplicates, synthesizing the embeddable content block and
//! ordering the result by source position — is verified against the
//! specification functions in this module.

use tree_sitter::{Parser, Query, QueryCursor};
use vstd::prelude::*;

verus! {

/// Capture kind code for a preceding comment line.
pub const CONTEXT_KIND: u8 = 0;

/// Capture kind code for a fragment of the construct's name.
pub const NAME_KIND: u8 = 1;

/// Capture kind code for the construct itself.
pub const ITEM_KIND: u8 = 2;

/// A single indexed unit: a named, byte-ranged, embeddable fragment of one
/// source file.  `range_start..range_end` is a half-open byte interval into
/// the original source text; `content` is the exact text later sent for
/// embedding; `embedding` stays empty until the embedding client fills it.
#[derive(Debug, PartialEq, Eq)]
pub struct Document {
    pub name: Vec<u8>,
    pub range_start: usize,
    pub range_end: usize,
    pub content: Vec<u8>,
    pub embedding: Vec<i64>,
}

impl Clone for Document {
    /// A clone carries the same model.
    fn clone(&self) -> (r: Self)
        ensures
            r@ == self@,
    {
        let r = Document {
            name: self.name.clone(),
            range_start: self.range_start,
            range_end: self.range_end,
            content: self.content.clone(),
            embedding: self.embedding.clone(),
        };
        proof {
            assert(r.name@ =~= self.name@);
            assert(r.content@ =~= self.content@);
            assert(r.embedding@ =~= self.embedding@);
        }
        r
    }
}

/// The mathematical model of a [`Document`].
pub struct DocModel {
    pub name: Seq<u8>,
    pub range_start: int,
    pub range_end: int,
    pub content: Seq<u8>,
    pub embedding: Seq<i64>,
}

impl View for Document {
    type V = DocModel;

    open spec fn view(&self) -> DocModel {
        DocModel {
            name: self.name@,
            range_start: self.range_start as int,
            range_end: self.range_end as int,
            content: self.content@,
            embedding: self.embedding@,
        }
    }
}

/// The models of a sequence of documents.
pub open spec fn views(s: Seq<Document>) -> Seq<DocModel> {
    s.map_values(|d: Document| d@)
}

/// Why extraction failed for a file.
#[derive(Debug, Clone, Copy, PartialEq, Eq)]
pub enum ParseError {
    /// The file's language has no registered grammar.
    GrammarUnavailable,
    /// The grammar could not produce a syntax tree for the text.
    SyntaxTreeFailure,
}

/// What the Rust extraction query returns for a given source text: for each
/// query match, one row per capture, as (kind, start byte, end byte), where
/// the kind is one of `CONTEXT_KIND`, `NAME_KIND` and `ITEM_KIND`.  `None`
/// stands for a text the grammar could not process.  The result is a function
/// of the query and the text alone, which is what makes extraction
/// deterministic.
pub uninterp spec fn rust_captures(query: Seq<char>, text: Seq<u8>) -> Option<
    Seq<Vec<(u8, usize, usize)>>,
>;

/// The tree-sitter query applied to Rust files: one pattern per construct
/// kind, each capturing the construct (`@item`), the fragments of its name
/// (`@name`) and any immediately preceding line comments (`@context`).
pub open spec fn rust_query_chars() -> Seq<char> {
    "
    (
        (line_comment)* @context
        .
        (enum_item
            name: (_) @name) @item
    )

    (
        (line_comment)* @context
        .
        (struct_item
            name: (_) @name) @item
    )

    (
        (line_comment)* @context
        .
        (impl_item
            trait: (_)? @name
            \"for\"? @name
            type: (_) @name) @item
    )

    (
        (line_comment)* @context
        .
        (trait_item
            name: (_) @name) @item
    )

    (
        (line_comment)* @context
        .
        (function_item
            name: (_) @name) @item
    )

    (
        (line_comment)* @context
        .
        (macro_definition
            name: (_) @name) @item
    )

    (
        (line_comment)* @context
        .
        (function_signature_item
            name: (_) @name) @item
    )
    "@
}

/// The extraction query as an executable string.
fn rust_query() -> (r: &'static str)
    ensures
        r@ == rust_query_chars(),
{
    "
    (
        (line_comment)* @context
        .
        (enum_item
            name: (_) @name) @item
    )

    (
        (line_comment)* @context
        .
        (struct_item
            name: (_) @name) @item
    )

    (
        (line_comment)* @context
        .
        (impl_item
            trait: (_)? @name
            \"for\"? @name
            type: (_) @name) @item
    )

    (
        (line_comment)* @context
        .
        (trait_item
            name: (_) @name) @item
    )

    (
        (line_comment)* @context
        .
        (function_item
            name: (_) @name) @item
    )

    (
        (line_comment)* @context
        .
        (macro_definition
            name: (_) @name) @item
    )

    (
        (line_comment)* @context
        .
        (function_signature_item
            name: (_) @name) @item
    )
    "
}

/// Relies on tree_sitter and tree_sitter_rust: `Parser::parse` builds a
/// syntax tree for `text` under the Rust grammar, and `QueryCursor::matches`
/// streams the matches of `query` over that tree; each capture's node byte
/// range is read with `Node::start_byte` / `Node::end_byte`, and its capture
/// name is classified through `Query::capture_index_for_name` into the kind
/// codes of `rust_captures` (`item` = 2, `name` = 1, every other capture,
/// here only `context`, = 0).  Parsing and matching depend on the query and
/// the text alone, so the result is named by `rust_captures`.
#[verifier::external_body]
fn run_query(query: &str, text: &Vec<u8>) -> (r: Option<Vec<Vec<(u8, usize, usize)>>>)
    ensures
        (match r {
            Some(v) => rust_captures(query@, text@) == Some(v@),
            None => rust_captures(query@, text@) is None,
        }),
{
    let mut p = Parser::new();
    p.set_language(tree_sitter_rust::language()).ok()?;
    let t = p.parse(text, None)?;
    let q = Query::new(tree_sitter_rust::language(), query).ok()?;
    let (ni, ii) = (q.capture_index_for_name("name")?, q.capture_index_for_name("item")?);
    let mut rows = Vec::new();
    for m in QueryCursor::new().matches(&q, t.root_node(), &text[..]) {
        let mut one = Vec::new();
        for c in m.captures {
            one.push((if c.index == ii { 2 } else if c.index == ni { 1 } else { 0 }, c.node.start_byte(), c.node.end_byte()));
        }
        rows.push(one);
    }
    Some(rows)
}

/// Characters of an ASCII string as bytes, one per character.
pub open spec fn ascii_of(s: Seq<char>) -> Seq<u8> {
    s.map_values(|c: char| c as u8)
}

/// Bytes of an ASCII string, one per character: the UTF-8 encoding of an
/// ASCII character is its code.
fn ascii_bytes(s: &str) -> (r: Vec<u8>)
    requires
        forall|i: int| 0 <= i < s@.len() ==> '\0' <= #[trigger] s@[i] <= '\u{7f}',
    ensures
        r@ == ascii_of(s@),
{
    proof {
        assert(vstd::string::is_ascii(s));
        vstd::string::is_ascii_spec_bytes(s);
    }
    let b = s.as_bytes();
    let r = vstd::slice::slice_to_vec(b);
    proof {
        assert(r@ =~= ascii_of(s@));
    }
    r
}

/// The byte ranges of the captures of one kind within a match, in row order.
pub open spec fn captures_of_kind(mm: Seq<(u8, usize, usize)>, k: u8) -> Seq<(usize, usize)>
    decreases mm.len(),
{
    if mm.len() == 0 {
        Seq::empty()
    } else {
        let rest = captures_of_kind(mm.drop_last(), k);
        if mm.last().0 == k {
            rest.push((mm.last().1, mm.last().2))
        } else {
            rest
        }
    }
}

/// Every capture's byte range lies within the text.
pub open spec fn ranges_ok(mm: Seq<(u8, usize, usize)>, len: int) -> bool {
    forall|i: int| 0 <= i < mm.len() ==> (#[trigger] mm[i]).1 <= mm[i].2 <= len
}

/// Whitespace as it may separate a context comment from the item below it.
pub open spec fn is_ws(b: u8) -> bool {
    b == 32 || b == 9 || b == 13 || b == 10
}

/// How many newline bytes `text[e..s)` holds.
pub open spec fn newline_count(text: Seq<u8>, e: int, s: int) -> int
    decreases s - e,
{
    if e >= s {
        0
    } else {
        newline_count(text, e, s - 1) + if text[s - 1] == 10 { 1int } else { 0int }
    }
}

/// A context capture ending at byte `e` still belongs to the construct
/// starting at byte `s`: only whitespace lies between, with no blank line
/// (at most one newline).
pub open spec fn gap_ok(text: Seq<u8>, e: int, s: int) -> bool {
    &&& 0 <= e <= s <= text.len()
    &&& forall|j: int| e <= j < s ==> is_ws(#[trigger] text[j])
    &&& newline_count(text, e, s) <= 1
}

/// The start byte of the earliest context comment in the unbroken run of
/// comments directly above a construct starting at `next_start`, if any:
/// the run is the longest suffix of `ctxs` in which each capture is adjacent
/// (per `gap_ok`) to the one below it, the last one to the construct itself.
pub open spec fn kept_context_start(text: Seq<u8>, ctxs: Seq<(usize, usize)>, next_start: int) -> Option<
    int,
>
    decreases ctxs.len(),
{
    if ctxs.len() == 0 {
        None
    } else if gap_ok(text, ctxs.last().1 as int, next_start) {
        match kept_context_start(text, ctxs.drop_last(), ctxs.last().0 as int) {
            Some(s) => Some(s),
            None => Some(ctxs.last().0 as int),
        }
    } else {
        None
    }
}

/// The construct names of one match, joined with single spaces.
pub open spec fn join_names(text: Seq<u8>, names: Seq<(usize, usize)>) -> Seq<u8>
    decreases names.len(),
{
    if names.len() == 0 {
        Seq::empty()
    } else if names.len() == 1 {
        text.subrange(names[0].0 as int, names[0].1 as int)
    } else {
        join_names(text, names.drop_last()) + seq![32u8] + text.subrange(
            names.last().0 as int,
            names.last().1 as int,
        )
    }
}

/// The embeddable content of a document covering `text[ds..de)` of the file
/// at `path`: a header line naming the file, then the slice in a fenced code
/// block.
pub open spec fn content_spec(path: Seq<u8>, text: Seq<u8>, ds: int, de: int) -> Seq<u8> {
    ascii_of("The below code snippet is from file '"@) + path + ascii_of("'\n\n```rust\n"@)
        + text.subrange(ds, de) + ascii_of("\n```"@)
}

/// The document extracted from one query match, if the match is usable: it
/// must carry at least one item capture (the last one counts) and one name
/// capture, all ranges must lie within the text, and the item must be
/// non-empty.  The document covers the item plus its kept context run.
pub open spec fn doc_of_match(path: Seq<u8>, text: Seq<u8>, mm: Seq<(u8, usize, usize)>) -> Option<
    DocModel,
> {
    let items = captures_of_kind(mm, ITEM_KIND);
    let names = captures_of_kind(mm, NAME_KIND);
    let ctxs = captures_of_kind(mm, CONTEXT_KIND);
    if !ranges_ok(mm, text.len() as int) || items.len() == 0 || names.len() == 0 {
        None
    } else if !(items.last().0 < items.last().1) {
        None
    } else {
        let item = items.last();
        let ds = match kept_context_start(text, ctxs, item.0 as int) {
            Some(s) => s,
            None => item.0 as int,
        };
        Some(
            DocModel {
                name: join_names(text, names),
                range_start: ds,
                range_end: item.1 as int,
                content: content_spec(path, text, ds, item.1 as int),
                embedding: Seq::empty(),
            },
        )
    }
}

/// The documents of all usable matches, in match order.
pub open spec fn docs_of_matches(
    path: Seq<u8>,
    text: Seq<u8>,
    ms: Seq<Vec<(u8, usize, usize)>>,
) -> Seq<DocModel>
    decreases ms.len(),
{
    if ms.len() == 0 {
        Seq::empty()
    } else {
        let rest = docs_of_matches(path, text, ms.drop_last());
        match doc_of_match(path, text, ms.last()@) {
            Some(d) => rest.push(d),
            None => rest,
        }
    }
}

/// `a`'s byte range fully covers `d`'s.
pub open spec fn contains_range(a: DocModel, d: DocModel) -> bool {
    a.range_start <= d.range_start && d.range_end <= a.range_end
}

/// Some already accepted document claims `d`'s whole range.
pub open spec fn covered(prior: Seq<DocModel>, d: DocModel) -> bool {
    exists|k: int| 0 <= k < prior.len() && contains_range(#[trigger] prior[k], d)
}

/// The duplicate-skipping policy: a match whose range is fully claimed by an
/// earlier accepted match is dropped, so a construct matched both on its own
/// and inside an enclosing construct yields one document.  Matches arrive in
/// syntax-tree order, outermost first, so the enclosing construct wins.
pub open spec fn dedup_docs(cands: Seq<DocModel>) -> Seq<DocModel>
    decreases cands.len(),
{
    if cands.len() == 0 {
        Seq::empty()
    } else {
        let prior = dedup_docs(cands.drop_last());
        if covered(prior, cands.last()) {
            prior
        } else {
            prior.push(cands.last())
        }
    }
}

/// Insert `d` into a sequence sorted by ascending `range_start`, after any
/// documents with the same start.
pub open spec fn insert_sorted(s: Seq<DocModel>, d: DocModel) -> Seq<DocModel>
    decreases s.len(),
{
    if s.len() == 0 {
        seq![d]
    } else if s.last().range_start > d.range_start {
        insert_sorted(s.drop_last(), d).push(s.last())
    } else {
        s.push(d)
    }
}

/// Stable insertion sort by ascending `range_start`: source order.
pub open spec fn sort_docs(s: Seq<DocModel>) -> Seq<DocModel>
    decreases s.len(),
{
    if s.len() == 0 {
        Seq::empty()
    } else {
        insert_sorted(sort_docs(s.drop_last()), s.last())
    }
}

/// Ascending by `range_start`.
pub open spec fn sorted_by_start(s: Seq<DocModel>) -> bool {
    forall|i: int, j: int| 0 <= i <= j < s.len() ==> s[i].range_start <= s[j].range_start
}

/// A document as extraction promises it: a non-empty byte range within the
/// text, content synthesized from that range, no embedding yet.
pub open spec fn good_doc(path: Seq<u8>, text: Seq<u8>, d: DocModel) -> bool {
    &&& 0 <= d.range_start < d.range_end <= text.len()
    &&& d.content == content_spec(path, text, d.range_start, d.range_end)
    &&& d.embedding.len() == 0
}

/// The path names a file of the one registered language: Rust.
pub open spec fn has_rust_suffix(path: Seq<u8>) -> bool {
    path.len() >= 3 && path[path.len() - 3] == 46u8 && path[path.len() - 2] == 114u8 && path[
        path.len() - 1
    ] == 115u8
}

/// Everything extraction returns for a parsable file, as a function of the
/// inputs alone: the documents of all usable matches, duplicates dropped,
/// sorted by source position.
pub open spec fn extract_spec(path: Seq<u8>, text: Seq<u8>) -> Option<Seq<DocModel>> {
    match rust_captures(rust_query_chars(), text) {
        Some(ms) => Some(sort_docs(dedup_docs(docs_of_matches(path, text, ms)))),
        None => None,
    }
}

/// Law: extraction is deterministic.  For a fixed path and text, any two
/// successful extractions yield the same document sequence; with
/// `parse_file`'s contract, repeated calls return identical sequences,
/// ordered by ascending `range_start`.
pub proof fn lemma_extraction_deterministic(
    path: Seq<u8>,
    text: Seq<u8>,
    d1: Seq<DocModel>,
    d2: Seq<DocModel>,
)
    requires
        extract_spec(path, text) == Some(d1),
        extract_spec(path, text) == Some(d2),
    ensures
        d1 == d2,
{
}

proof fn lemma_views_push(s: Seq<Document>, d: Document)
    ensures
        views(s.push(d)) == views(s).push(d@),
{
    assert(views(s.push(d)) =~= views(s).push(d@));
}

proof fn lemma_views_insert(s: Seq<Document>, p: int, d: Document)
    requires
        0 <= p <= s.len(),
    ensures
        views(s.insert(p, d)) == views(s).insert(p, d@),
{
    assert(views(s.insert(p, d)) =~= views(s).insert(p, d@));
}

proof fn lemma_captures_ranges(mm: Seq<(u8, usize, usize)>, k: u8, len: int)
    requires
        ranges_ok(mm, len),
    ensures
        forall|i: int|
            0 <= i < captures_of_kind(mm, k).len() ==> (#[trigger] captures_of_kind(mm, k)[i]).0
                <= captures_of_kind(mm, k)[i].1 <= len,
    decreases mm.len(),
{
    if mm.len() > 0 {
        assert forall|i: int| 0 <= i < mm.drop_last().len() implies (#[trigger] mm.drop_last()[i]).1
            <= mm.drop_last()[i].2 <= len by {
            assert(mm.drop_last()[i] == mm[i]);
        }
        lemma_captures_ranges(mm.drop_last(), k, len);
        assert(mm.last() == mm[mm.len() - 1]);
        let rest = captures_of_kind(mm.drop_last(), k);
        let whole = captures_of_kind(mm, k);
        assert forall|i: int| 0 <= i < whole.len() implies (#[trigger] whole[i]).0 <= whole[i].1
            <= len by {
            if mm.last().0 == k {
                assert(whole == rest.push((mm.last().1, mm.last().2)));
                if i < rest.len() {
                    assert(whole[i] == rest[i]);
                } else {
                    assert(whole[i] == (mm.last().1, mm.last().2));
                }
            } else {
                assert(whole[i] == rest[i]);
            }
        }
    }
}

proof fn lemma_kcs_le(text: Seq<u8>, ctxs: Seq<(usize, usize)>, ns: int)
    requires
        kept_context_start(text, ctxs, ns) is Some,
        forall|i: int| 0 <= i < ctxs.len() ==> (#[trigger] ctxs[i]).0 <= ctxs[i].1,
    ensures
        0 <= kept_context_start(text, ctxs, ns).unwrap() <= ns,
    decreases ctxs.len(),
{
    if ctxs.len() > 0 && gap_ok(text, ctxs.last().1 as int, ns) {
        if kept_context_start(text, ctxs.drop_last(), ctxs.last().0 as int) is Some {
            assert forall|i: int| 0 <= i < ctxs.drop_last().len() implies (#[trigger] ctxs.drop_last()[i]).0
                <= ctxs.drop_last()[i].1 by {
                assert(ctxs.drop_last()[i] == ctxs[i]);
            }
            lemma_kcs_le(text, ctxs.drop_last(), ctxs.last().0 as int);
            assert(ctxs.last() == ctxs[ctxs.len() - 1]);
        } else {
            assert(ctxs.last() == ctxs[ctxs.len() - 1]);
        }
    }
}

proof fn lemma_insert_sorted_at(s: Seq<DocModel>, d: DocModel, p: int)
    requires
        0 <= p <= s.len(),
        forall|k: int| p <= k < s.len() ==> (#[trigger] s[k]).range_start > d.range_start,
        p > 0 ==> s[p - 1].range_start <= d.range_start,
    ensures
        insert_sorted(s, d) == s.insert(p, d),
    decreases s.len(),
{
    if s.len() == 0 {
        assert(insert_sorted(s, d) =~= s.insert(0, d));
    } else if p == s.len() {
        assert(s[p - 1] == s.last());
        assert(insert_sorted(s, d) == s.push(d));
        assert(s.push(d) =~= s.insert(p, d));
    } else {
        assert(s.last() == s[s.len() - 1]);
        assert forall|k: int| p <= k < s.drop_last().len() implies (#[trigger] s.drop_last()[k]).range_start
            > d.range_start by {
            assert(s.drop_last()[k] == s[k]);
        }
        if p > 0 {
            assert(s.drop_last()[p - 1] == s[p - 1]);
        }
        lemma_insert_sorted_at(s.drop_last(), d, p);
        assert(s.drop_last().insert(p, d).push(s.last()) =~= s.insert(p, d));
    }
}

/// Appends `text[s..e)` to `out`.
fn append_range(out: &mut Vec<u8>, text: &Vec<u8>, s: usize, e: usize)
    requires
        s <= e <= text.len(),
    ensures
        final(out)@ == old(out)@ + text@.subrange(s as int, e as int),
{
    let mut k: usize = s;
    while k < e
        invariant
            s <= k <= e <= text.len(),
            out@ == old(out)@ + text@.subrange(s as int, k as int),
        decreases e - k,
    {
        out.push(text[k]);
        proof {
            assert(text@.subrange(s as int, (k + 1) as int) =~= text@.subrange(s as int, k as int)
                .push(text@[k as int]));
        }
        k = k + 1;
    }
    proof {
        assert(text@.subrange(s as int, k as int) =~= text@.subrange(s as int, e as int));
    }
}

/// Whether only whitespace with at most one newline separates byte `e` from
/// byte `s` of `text`.
fn gap_ok_exec(text: &Vec<u8>, e: usize, s: usize) -> (r: bool)
    ensures
        r == gap_ok(text@, e as int, s as int),
{
    if !(e <= s && s <= text.len()) {
        return false;
    }
    let mut nl: usize = 0;
    let mut j: usize = e;
    while j < s
        invariant
            e <= j <= s <= text.len(),
            forall|t: int| e <= t < j ==> is_ws(#[trigger] text@[t]),
            nl == newline_count(text@, e as int, j as int),
            nl <= j - e,
        decreases s - j,
    {
        let b = text[j];
        if !(b == 32 || b == 9 || b == 13 || b == 10) {
            proof {
                assert((e as int) <= (j as int) && (j as int) < (s as int) && !is_ws(text@[j as int]));
            }
            return false;
        }
        proof {
            assert(newline_count(text@, e as int, (j + 1) as int) == newline_count(
                text@,
                e as int,
                j as int,
            ) + if text@[j as int] == 10 {
                1int
            } else {
                0int
            });
        }
        if b == 10 {
            nl = nl + 1;
        }
        j = j + 1;
    }
    nl <= 1
}

/// The content block for a document covering `text[ds..de)` of `path`.
fn build_content(path: &Vec<u8>, text: &Vec<u8>, ds: usize, de: usize) -> (r: Vec<u8>)
    requires
        ds <= de <= text.len(),
    ensures
        r@ == content_spec(path@, text@, ds as int, de as int),
{
    proof {
        reveal_strlit("The below code snippet is from file '");
        reveal_strlit("'\n\n```rust\n");
        reveal_strlit("\n```");
    }
    let mut out = ascii_bytes("The below code snippet is from file '");
    out.extend_from_slice(path.as_slice());
    let mid = ascii_bytes("'\n\n```rust\n");
    out.extend_from_slice(mid.as_slice());
    append_range(&mut out, text, ds, de);
    let tail = ascii_bytes("\n```");
    out.extend_from_slice(tail.as_slice());
    out
}

/// The document of one query match, if the match is usable.
fn doc_from_match(path: &Vec<u8>, text: &Vec<u8>, mm: &Vec<(u8, usize, usize)>) -> (r: Option<
    Document,
>)
    ensures
        (match r {
            Some(d) => doc_of_match(path@, text@, mm@) == Some(d@) && good_doc(path@, text@, d@),
            None => doc_of_match(path@, text@, mm@) is None,
        }),
{
    let mut items: Vec<(usize, usize)> = Vec::new();
    let mut names: Vec<(usize, usize)> = Vec::new();
    let mut ctxs: Vec<(usize, usize)> = Vec::new();
    let mut i: usize = 0;
    while i < mm.len()
        invariant
            i <= mm.len(),
            items@ == captures_of_kind(mm@.take(i as int), ITEM_KIND),
            names@ == captures_of_kind(mm@.take(i as int), NAME_KIND),
            ctxs@ == captures_of_kind(mm@.take(i as int), CONTEXT_KIND),
        decreases mm.len() - i,
    {
        proof {
            assert(mm@.take((i + 1) as int).drop_last() =~= mm@.take(i as int));
            assert(mm@.take((i + 1) as int).last() == mm@[i as int]);
        }
        let c = mm[i];
        if c.0 == ITEM_KIND {
            items.push((c.1, c.2));
        } else if c.0 == NAME_KIND {
            names.push((c.1, c.2));
        } else if c.0 == CONTEXT_KIND {
            ctxs.push((c.1, c.2));
        }
        i = i + 1;
    }
    proof {
        assert(mm@.take(mm@.len() as int) =~= mm@);
    }
    let mut v: usize = 0;
    while v < mm.len()
        invariant
            v <= mm.len(),
            forall|t: int| 0 <= t < v ==> (#[trigger] mm@[t]).1 <= mm@[t].2 <= text@.len(),
        decreases mm.len() - v,
    {
        let c = mm[v];
        if !(c.1 <= c.2 && c.2 <= text.len()) {
            proof {
                assert(!ranges_ok(mm@, text@.len() as int));
            }
            return None;
        }
        v = v + 1;
    }
    proof {
        assert(ranges_ok(mm@, text@.len() as int));
    }
    if items.len() == 0 || names.len() == 0 {
        return None;
    }
    let item = items[items.len() - 1];
    proof {
        assert(item == captures_of_kind(mm@, ITEM_KIND).last());
    }
    if !(item.0 < item.1) {
        return None;
    }
    // Walk the context captures upward from the item while each stays
    // adjacent to what lies below it.
    let mut j: usize = ctxs.len();
    let mut ns: usize = item.0;
    let mut stop = false;
    proof {
        assert(ctxs@.take(ctxs@.len() as int) =~= ctxs@);
    }
    while !stop && j > 0
        invariant
            j <= ctxs.len(),
            ns == (if (j as int) < ctxs@.len() {
                ctxs@[j as int].0
            } else {
                item.0
            }),
            stop ==> j > 0 && !gap_ok(text@, ctxs@[j - 1].1 as int, ns as int),
            (match kept_context_start(text@, ctxs@.take(j as int), ns as int) {
                Some(s) => kept_context_start(text@, ctxs@, item.0 as int) == Some(s),
                None => kept_context_start(text@, ctxs@, item.0 as int) == (if (j as int)
                    < ctxs@.len() {
                    Some(ctxs@[j as int].0 as int)
                } else {
                    None::<int>
                }),
            }),
        decreases j + (if stop {
            0int
        } else {
            1int
        }),
    {
        let c = ctxs[j - 1];
        if gap_ok_exec(text, c.1, ns) {
            proof {
                assert(ctxs@.take(j as int).drop_last() =~= ctxs@.take((j - 1) as int));
                assert(ctxs@.take(j as int).last() == ctxs@[j - 1]);
            }
            ns = c.0;
            j = j - 1;
        } else {
            stop = true;
        }
    }
    let ds: usize = if j < ctxs.len() {
        ctxs[j].0
    } else {
        item.0
    };
    proof {
        if !stop {
            assert(j == 0);
            assert(ctxs@.take(0) =~= Seq::<(usize, usize)>::empty());
        } else {
            assert(ctxs@.take(j as int).last() == ctxs@[j - 1]);
        }
        assert(ds as int == (match kept_context_start(text@, captures_of_kind(mm@, CONTEXT_KIND), item.0 as int) {
            Some(s) => s,
            None => item.0 as int,
        }));
        lemma_captures_ranges(mm@, CONTEXT_KIND, text@.len() as int);
        lemma_captures_ranges(mm@, NAME_KIND, text@.len() as int);
        lemma_captures_ranges(mm@, ITEM_KIND, text@.len() as int);
        assert(item == captures_of_kind(mm@, ITEM_KIND)[captures_of_kind(mm@, ITEM_KIND).len()
            - 1]);
        assert(item.0 <= item.1 <= text@.len());
        if kept_context_start(text@, ctxs@, item.0 as int) is Some {
            lemma_kcs_le(text@, ctxs@, item.0 as int);
        }
        assert(ds <= item.0);
    }
    // Join the name captures with single spaces.
    let mut nm: Vec<u8> = Vec::new();
    let mut w: usize = 0;
    while w < names.len()
        invariant
            w <= names.len(),
            names@ == captures_of_kind(mm@, NAME_KIND),
            ranges_ok(mm@, text@.len() as int),
            nm@ == join_names(text@, names@.take(w as int)),
            forall|t: int|
                0 <= t < names@.len() ==> (#[trigger] names@[t]).0 <= names@[t].1 <= text@.len(),
        decreases names.len() - w,
    {
        proof {
            assert(names@.take((w + 1) as int).drop_last() =~= names@.take(w as int));
            assert(names@.take((w + 1) as int).last() == names@[w as int]);
        }
        let nr = names[w];
        if w > 0 {
            nm.push(32);
        }
        append_range(&mut nm, text, nr.0, nr.1);
        proof {
            if w == 0 {
                assert(names@.take(1int)[0] == names@[0]);
                assert(nm@ == join_names(text@, names@.take(1int)));
            }
        }
        w = w + 1;
    }
    proof {
        assert(names@.take(names@.len() as int) =~= names@);
    }
    let content = build_content(path, text, ds, item.1);
    let d = Document {
        name: nm,
        range_start: ds,
        range_end: item.1,
        content,
        embedding: Vec::new(),
    };
    proof {
        assert(doc_of_match(path@, text@, mm@) == Some(d@));
    }
    Some(d)
}

/// The language-aware fragment extractor.  It is stateless: extraction is a
/// pure function of the file path and its text.
pub struct CodeContextRetriever {
    _private: (),
}

impl CodeContextRetriever {
    /// A fresh extractor.
    pub fn new() -> (r: Self) {
        CodeContextRetriever { _private: () }
    }

    /// Extracts the embeddable documents of the file at `path` with text
    /// `text`.  Fails with `GrammarUnavailable` exactly when the path names
    /// no registered language (only Rust, by `.rs` suffix, is registered),
    /// and with `SyntaxTreeFailure` exactly when the grammar yields no
    /// syntax tree.  On success the result is `extract_spec(path, text)`:
    /// deterministic, ordered by ascending `range_start`, every document a
    /// non-empty in-bounds range with its content synthesized from exactly
    /// that range.
    pub fn parse_file(&self, path: &Vec<u8>, text: &Vec<u8>) -> (r: Result<
        Vec<Document>,
        ParseError,
    >)
        ensures
            (r == Err::<Vec<Document>, ParseError>(ParseError::GrammarUnavailable)) <==> !has_rust_suffix(
                path@,
            ),
            has_rust_suffix(path@) ==> (match r {
                Ok(docs) => {
                    &&& extract_spec(path@, text@) == Some(views(docs@))
                    &&& sorted_by_start(views(docs@))
                    &&& forall|t: int|
                        0 <= t < docs@.len() ==> good_doc(path@, text@, #[trigger] views(docs@)[t])
                },
                Err(e) => e == ParseError::SyntaxTreeFailure && extract_spec(path@, text@) is None,
            }),
    {
        let n = path.len();
        if !(n >= 3 && path[n - 3] == 46 && path[n - 2] == 114 && path[n - 1] == 115) {
            return Err(ParseError::GrammarUnavailable);
        }
        let rows = match run_query(rust_query(), text) {
            Some(v) => v,
            None => {
                return Err(ParseError::SyntaxTreeFailure);
            },
        };
        let ghost ms = rows@;
        // Documents of the usable matches, in match order.
        let mut cands: Vec<Document> = Vec::new();
        let mut m: usize = 0;
        while m < rows.len()
            invariant
                m <= rows.len(),
                ms == rows@,
                views(cands@) == docs_of_matches(path@, text@, ms.take(m as int)),
                forall|t: int|
                    0 <= t < cands@.len() ==> good_doc(path@, text@, #[trigger] views(cands@)[t]),
            decreases rows.len() - m,
        {
            proof {
                assert(ms.take((m + 1) as int).drop_last() =~= ms.take(m as int));
                assert(ms.take((m + 1) as int).last() == ms[m as int]);
            }
            match doc_from_match(path, text, &rows[m]) {
                Some(d) => {
                    proof {
                        lemma_views_push(cands@, d);
                    }
                    cands.push(d);
                },
                None => {},
            }
            m = m + 1;
        }
        proof {
            assert(ms.take(ms.len() as int) =~= ms);
        }
        // Drop matches whose range an earlier accepted match claims.
        let mut kept: Vec<Document> = Vec::new();
        let mut ci: usize = 0;
        while ci < cands.len()
            invariant
                ci <= cands.len(),
                views(kept@) == dedup_docs(views(cands@).take(ci as int)),
                forall|t: int|
                    0 <= t < kept@.len() ==> good_doc(path@, text@, #[trigger] views(kept@)[t]),
                forall|t: int|
                    0 <= t < cands@.len() ==> good_doc(path@, text@, #[trigger] views(cands@)[t]),
            decreases cands.len() - ci,
        {
            proof {
                assert(views(cands@).take((ci + 1) as int).drop_last() =~= views(cands@).take(
                    ci as int,
                ));
                assert(views(cands@).take((ci + 1) as int).last() == views(cands@)[ci as int]);
                assert(views(cands@)[ci as int] == cands@[ci as int]@);
            }
            let mut cov = false;
            let mut k: usize = 0;
            while !cov && k < kept.len()
                invariant
                    k <= kept.len(),
                    cov ==> covered(views(kept@), cands@[ci as int]@),
                    !cov ==> forall|t: int|
                        0 <= t < k ==> !contains_range(
                            #[trigger] views(kept@)[t],
                            cands@[ci as int]@,
                        ),
                    ci < cands.len(),
                decreases kept.len() - k + (if cov {
                    0int
                } else {
                    1int
                }),
            {
                let a_start = kept[k].range_start;
                let a_end = kept[k].range_end;
                let c_start = cands[ci].range_start;
                let c_end = cands[ci].range_end;
                if a_start <= c_start && c_end <= a_end {
                    proof {
                        assert(contains_range(views(kept@)[k as int], cands@[ci as int]@));
                    }
                    cov = true;
                } else {
                    k = k + 1;
                }
            }
            if !cov {
                proof {
                    assert(!covered(views(kept@), cands@[ci as int]@));
                }
                let d = cands[ci].clone();
                proof {
                    assert(d@ == cands@[ci as int]@);
                    lemma_views_push(kept@, d);
                }
                kept.push(d);
            }
            ci = ci + 1;
        }
        proof {
            assert(views(cands@).take(cands@.len() as int) =~= views(cands@));
        }
        // Order by source position: stable insertion sort on range_start.
        let mut out: Vec<Document> = Vec::new();
        let mut si: usize = 0;
        while si < kept.len()
            invariant
                si <= kept.len(),
                views(out@) == sort_docs(views(kept@).take(si as int)),
                sorted_by_start(views(out@)),
                forall|t: int|
                    0 <= t < out@.len() ==> good_doc(path@, text@, #[trigger] views(out@)[t]),
                forall|t: int|
                    0 <= t < kept@.len() ==> good_doc(path@, text@, #[trigger] views(kept@)[t]),
            decreases kept.len() - si,
        {
            proof {
                assert(views(kept@).take((si + 1) as int).drop_last() =~= views(kept@).take(
                    si as int,
                ));
                assert(views(kept@).take((si + 1) as int).last() == views(kept@)[si as int]);
                assert(views(kept@)[si as int] == kept@[si as int]@);
            }
            let d = kept[si].clone();
            proof {
                assert(d@ == kept@[si as int]@);
            }
            let mut p: usize = out.len();
            while p > 0 && out[p - 1].range_start > d.range_start
                invariant
                    p <= out.len(),
                    forall|t: int|
                        p <= t < out@.len() ==> (#[trigger] views(out@)[t]).range_start
                            > d@.range_start,
                decreases p,
            {
                proof {
                    assert(views(out@)[(p - 1) as int] == out@[(p - 1) as int]@);
                }
                p = p - 1;
            }
            proof {
                if p > 0 {
                    assert(views(out@)[(p - 1) as int] == out@[(p - 1) as int]@);
                }
                lemma_insert_sorted_at(views(out@), d@, p as int);
                lemma_views_insert(out@, p as int, d);
            }
            let ghost old_views = views(out@);
            out.insert(p, d);
            proof {
                assert(views(out@) == insert_sorted(old_views, d@));
                assert forall|a: int, b: int| 0 <= a <= b < views(out@).len() implies views(out@)[a].range_start
                    <= views(out@)[b].range_start by {
                    let v = views(out@);
                    if b < p {
                        assert(v[a] == old_views[a] && v[b] == old_views[b]);
                    } else if a > p {
                        assert(v[a] == old_views[a - 1] && v[b] == old_views[b - 1]);
                    } else if a < p && b == p {
                        assert(v[a] == old_views[a] && v[b] == d@);
                    } else if a == p && b > p {
                        assert(v[a] == d@ && v[b] == old_views[b - 1]);
                    } else if a < p && b > p {
                        assert(v[a] == old_views[a] && v[b] == old_views[b - 1]);
                    }
                }
                assert forall|t: int| 0 <= t < out@.len() implies good_doc(
                    path@,
                    text@,
                    #[trigger] views(out@)[t],
                ) by {
                    let v = views(out@);
                    if t < p {
                        assert(v[t] == old_views[t]);
                    } else if t == p {
                        assert(v[t] == d@);
                    } else {
                        assert(v[t] == old_views[t - 1]);
                    }
                }
            }
            si = si + 1;
        }
        proof {
            assert(views(kept@).take(kept@.len() as int) =~= views(kept@));
        }
        Ok(out)
    }
}

} // verus!
