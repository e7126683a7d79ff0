//! The index: its fields, what is done to it, and how word positions get their
//! places in the token stream.

use vstd::prelude::*;

use crate::extractor::WordPosition;
use crate::positions::{all_to_store, holds, with_words, PositionError, PositionStore};
use crate::search::types::{SearchInput, SearchStrategy};
use crate::tokenizers::{lowercase, token_runs, token_texts};

verus! {

// ---------------------------------------------------------------------------
// Fields
// ---------------------------------------------------------------------------

/// How a field is indexed.
#[derive(Clone, Copy, PartialEq, Eq, Structural, Debug)]
pub enum FieldKind {
    /// A number.
    Number,
    /// A text as a whole.
    Whole,
    /// A text cut into tokens, with their positions.
    Tokens,
}

/// What is known of a field: its name, how it is indexed, and whether its
/// value is stored.
#[derive(Debug)]
pub struct FieldDef {
    pub name: &'static str,
    pub kind: FieldKind,
    pub stored: bool,
}

/// The fields of the index: id and path are stored, the content is not.
pub fn build_schema() -> (fields: Vec<FieldDef>)
    ensures
        fields@.len() == 3,
        fields@[0].name@ == "id"@ && fields@[0].kind == FieldKind::Number && fields@[0].stored,
        fields@[1].name@ == "path"@ && fields@[1].kind == FieldKind::Whole && fields@[1].stored,
        fields@[2].name@ == "content"@ && fields@[2].kind == FieldKind::Tokens && !fields@[2].stored,
{
    let mut fields: Vec<FieldDef> = Vec::new();
    fields.push(FieldDef { name: "id", kind: FieldKind::Number, stored: true });
    fields.push(FieldDef { name: "path", kind: FieldKind::Whole, stored: true });
    fields.push(FieldDef { name: "content", kind: FieldKind::Tokens, stored: false });
    fields
}

/// The message for a field that the index does not have.
pub fn missing_field_message(name: &str) -> (s: String)
    ensures
        s@ == "Field '"@ + name@ + "' not found in schema"@,
{
    let mut s = String::new();
    s.push_str("Field '");
    s.push_str(name);
    s.push_str("' not found in schema");
    assert(s@ =~= "Field '"@ + name@ + "' not found in schema"@);
    s
}

// ---------------------------------------------------------------------------
// Settings
// ---------------------------------------------------------------------------

/// Bytes that an index writer may hold in memory where none are set.
pub const DEFAULT_RAM_BUFFER: u64 = 3_000_000_000;

/// Why an index cannot be opened.
#[derive(Clone, Copy, PartialEq, Eq, Structural, Debug)]
pub enum IndexError {
    /// No directory is named.
    NoDirectory,
}

/// Where an index lies and how it is written.
#[derive(Debug)]
pub struct SearchIndex {
    path: String,
    ram_buffer: u64,
}

impl SearchIndex {
    /// The directory of the index.
    pub closed spec fn directory(self) -> Seq<char> {
        self.path@
    }

    /// Bytes that a writer may hold in memory.
    pub closed spec fn buffer(self) -> u64 {
        self.ram_buffer
    }

    /// An index in a directory, which must be named.
    pub fn new(index_path: &str) -> (r: Result<Self, IndexError>)
        ensures
            index_path@.len() == 0 <==> r == Err::<Self, IndexError>(IndexError::NoDirectory),
            r matches Ok(i) ==> i.directory() == index_path@ && i.buffer() == DEFAULT_RAM_BUFFER,
    {
        SearchIndex::with_ram_buffer(index_path, DEFAULT_RAM_BUFFER)
    }

    /// An index in a directory whose writers hold at most `ram_buffer` bytes.
    pub fn with_ram_buffer(index_path: &str, ram_buffer: u64) -> (r: Result<Self, IndexError>)
        ensures
            index_path@.len() == 0 <==> r == Err::<Self, IndexError>(IndexError::NoDirectory),
            r matches Ok(i) ==> i.directory() == index_path@ && i.buffer() == ram_buffer,
    {
        if index_path.is_empty() {
            Err(IndexError::NoDirectory)
        } else {
            Ok(SearchIndex { path: index_path.to_owned(), ram_buffer })
        }
    }

    /// Sets the bytes that a writer may hold in memory.
    pub fn set_ram_buffer(&mut self, bytes: u64)
        ensures
            final(self).buffer() == bytes,
            final(self).directory() == old(self).directory(),
    {
        self.ram_buffer = bytes;
    }

    /// Bytes that a writer may hold in memory.
    pub fn ram_buffer(&self) -> (bytes: u64)
        ensures
            bytes == self.buffer(),
    {
        self.ram_buffer
    }

    /// The directory of the index.
    pub fn path(&self) -> (path: &str)
        ensures
            path@ == self.directory(),
    {
        self.path.as_str()
    }

    /// How a writer is made.
    pub fn writer(&self) -> (w: WriterPlan)
        ensures
            w.num_threads is None,
            w.memory == self.buffer() as usize,
    {
        WriterPlan { num_threads: None, memory: #[verifier::truncate] (self.ram_buffer as usize) }
    }

    /// How a writer with a number of threads is made.
    pub fn writer_with_num_threads(&self, num_threads: usize) -> (w: WriterPlan)
        ensures
            w.num_threads == Some(num_threads),
            w.memory == self.buffer() as usize,
    {
        WriterPlan {
            num_threads: Some(num_threads),
            memory: #[verifier::truncate] (self.ram_buffer as usize),
        }
    }

    /// The input of a plain search: an automatic phrase on the content.
    pub fn search(
        &self,
        query_str: &str,
        limit: usize,
        path_filter: Option<String>,
        offset: usize,
    ) -> (input: SearchInput)
        ensures
            input.query_str@ == query_str@,
            input.field is None,
            input.limit == limit,
            input.offset == offset,
            input.path_filter == path_filter,
            input.strategy == SearchStrategy::AutoPhrase,
    {
        SearchInput {
            query_str: query_str.to_owned(),
            field: None,
            limit,
            offset,
            path_filter,
            strategy: SearchStrategy::AutoPhrase,
        }
    }

    /// The input of a search where stems count or not: that of a plain search,
    /// since no word of the index is a stem.
    pub fn search_stem(
        &self,
        query_str: &str,
        limit: usize,
        path_filter: Option<String>,
        offset: usize,
        _stem: bool,
    ) -> (input: SearchInput)
        ensures
            input.query_str@ == query_str@,
            input.field is None,
            input.limit == limit,
            input.offset == offset,
            input.path_filter == path_filter,
            input.strategy == SearchStrategy::AutoPhrase,
    {
        self.search(query_str, limit, path_filter, offset)
    }

    /// Results with newer documents raised by a weight, which is a bit pattern
    /// of 32 bits. The index does not know how old a document is, so that the
    /// results stay as they are.
    pub fn apply_recency_boost<T>(
        &self,
        results: Vec<T>,
        _recency_weight: u32,
        _max_days: u64,
    ) -> (boosted: Vec<T>)
        ensures
            boosted == results,
    {
        results
    }
}

// ---------------------------------------------------------------------------
// Places of a term
// ---------------------------------------------------------------------------

/// The document number behind the last posting of a term.
pub const NO_MORE_DOCS: u32 = 0x7fff_ffff;

/// What the posting at hand asks for.
#[derive(Clone, Copy, PartialEq, Eq, Structural, Debug)]
pub enum PostingStep {
    /// It is before the document.
    Advance,
    /// It is that of the document.
    Found,
    /// The document has none.
    Absent,
}

/// What the posting at hand asks for, where postings come in the order of
/// their documents.
pub fn posting_step(doc: u32, target: u32) -> (s: PostingStep)
    ensures
        s == (if doc == NO_MORE_DOCS || doc > target {
            PostingStep::Absent
        } else if doc < target {
            PostingStep::Advance
        } else {
            PostingStep::Found
        }),
{
    if doc == NO_MORE_DOCS || doc > target {
        PostingStep::Absent
    } else if doc < target {
        PostingStep::Advance
    } else {
        PostingStep::Found
    }
}

/// The places of a term: for each document, in the order of the documents,
/// where the term stands in it.
pub type Postings = Vec<(u32, Vec<u32>)>;

/// Whether postings are in the order of their documents, each of which has a
/// number of its own.
pub open spec fn postings_ok(p: Seq<(u32, Vec<u32>)>) -> bool {
    &&& forall|i: int| 0 <= i < p.len() ==> (#[trigger] p[i]).0 < NO_MORE_DOCS
    &&& forall|i: int, j: int| 0 <= i < j < p.len() ==> (#[trigger] p[i]).0 < (#[trigger] p[j]).0
}

fn widened(v: &Vec<u32>) -> (r: Vec<usize>)
    ensures
        r@ == v@.map_values(|n: u32| n as usize),
{
    let mut r: Vec<usize> = Vec::new();
    let mut i: usize = 0;
    while i < v.len()
        invariant
            i <= v@.len(),
            r@.len() == i,
            forall|k: int| 0 <= k < i ==> r@[k] == v@[k] as usize,
        decreases v@.len() - i,
    {
        r.push(v[i] as usize);
        i += 1;
    }
    assert(r@ =~= v@.map_values(|n: u32| n as usize));
    r
}

impl SearchIndex {
    /// Where a term stands in a document: nowhere where the index does not
    /// have the document, or the term has no posting for it.
    pub fn search_term_positions(&self, target: Option<u32>, postings: &Postings) -> (r: Vec<usize>)
        requires
            postings_ok(postings@),
        ensures
            match target {
                None => r@.len() == 0,
                Some(doc) => {
                    &&& forall|i: int|
                        0 <= i < postings@.len() && (#[trigger] postings@[i]).0 == doc ==> r@
                            == postings@[i].1@.map_values(|n: u32| n as usize)
                    &&& (forall|i: int|
                        0 <= i < postings@.len() ==> (#[trigger] postings@[i]).0 != doc) ==> r@.len()
                        == 0
                },
            },
    {
        let doc = match target {
            None => {
                return Vec::new();
            },
            Some(d) => d,
        };
        let mut i: usize = 0;
        while i < postings.len()
            invariant
                i <= postings@.len(),
                target == Some(doc),
                postings_ok(postings@),
                forall|k: int| 0 <= k < i ==> (#[trigger] postings@[k]).0 < doc,
            decreases postings@.len() - i,
        {
            match posting_step(postings[i].0, doc) {
                PostingStep::Found => {
                    return widened(&postings[i].1);
                },
                PostingStep::Absent => {
                    return Vec::new();
                },
                PostingStep::Advance => {},
            }
            i += 1;
        }
        Vec::new()
    }
}

// ---------------------------------------------------------------------------
// Changes
// ---------------------------------------------------------------------------

/// How an index writer is made: its threads, where they are chosen, and the
/// bytes that it may hold in memory.
#[derive(Clone, Copy, PartialEq, Eq, Structural, Debug)]
pub struct WriterPlan {
    pub num_threads: Option<usize>,
    pub memory: usize,
}

/// One change to the index.
#[derive(Debug)]
pub enum IndexOp {
    /// Remove the documents with this id.
    DeleteId(u64),
    /// Remove the documents with this path.
    DeletePath(String),
    /// Add a document.
    Add { id: u64, path: String, text: String },
    /// Make the changes last.
    Commit,
}

/// A document in the index.
pub struct IndexedDoc {
    pub id: u64,
    pub path: Seq<char>,
    pub text: Seq<char>,
}

/// The documents of an index after a change.
pub open spec fn changed(docs: Seq<IndexedDoc>, op: IndexOp) -> Seq<IndexedDoc> {
    match op {
        IndexOp::DeleteId(id) => docs.filter(|d: IndexedDoc| d.id != id),
        IndexOp::DeletePath(path) => docs.filter(|d: IndexedDoc| d.path != path@),
        IndexOp::Add { id, path, text } => docs.push(
            IndexedDoc { id, path: path@, text: text@ },
        ),
        IndexOp::Commit => docs,
    }
}

/// The documents of an index after several changes.
pub open spec fn changed_by(docs: Seq<IndexedDoc>, ops: Seq<IndexOp>) -> Seq<IndexedDoc>
    decreases ops.len(),
{
    if ops.len() == 0 {
        docs
    } else {
        changed(changed_by(docs, ops.drop_last()), ops.last())
    }
}

/// The ids of hits that have one.
pub open spec fn hit_ids(hits: Seq<Option<u64>>) -> Seq<u64>
    decreases hits.len(),
{
    if hits.len() == 0 {
        Seq::empty()
    } else {
        match hits.last() {
            Some(id) => hit_ids(hits.drop_last()).push(id),
            None => hit_ids(hits.drop_last()),
        }
    }
}

/// Adding a document leaves exactly one with its id, the one that was added,
/// and leaves the others alone, however often it is done.
pub proof fn law_added_once(
    docs: Seq<IndexedDoc>,
    ops: Seq<IndexOp>,
    id: u64,
    path: String,
    text: String,
)
    requires
        ops == seq![IndexOp::DeleteId(id), IndexOp::Add { id, path, text }],
    ensures
        ({
            let once = changed_by(docs, ops);
            let mine = |d: IndexedDoc| d.id == id;
            &&& once.filter(mine) == seq![IndexedDoc { id, path: path@, text: text@ }]
            &&& once.filter(|d: IndexedDoc| d.id != id) == docs.filter(|d: IndexedDoc| d.id != id)
            &&& changed_by(once, ops) == once
        }),
{
    let mine = |d: IndexedDoc| d.id == id;
    let other = |d: IndexedDoc| d.id != id;
    let new = IndexedDoc { id, path: path@, text: text@ };
    let rest = docs.filter(other);
    lemma_two_ops(docs, ops, id, path, text);
    let once = rest.push(new);
    lemma_filter_twice(docs, other);
    lemma_filter_push(rest, new, other);
    lemma_filter_push(rest, new, mine);
    assert(rest.filter(mine) =~= Seq::empty()) by {
        assert forall|i: int| 0 <= i < rest.len() implies !mine(#[trigger] rest[i]) by {
            docs.lemma_filter_pred(other, i);
        }
        rest.lemma_all_neg_filter_empty(mine);
    }
    assert(once.filter(mine) =~= seq![new]);
    lemma_two_ops(once, ops, id, path, text);
}

proof fn lemma_two_ops(
    docs: Seq<IndexedDoc>,
    ops: Seq<IndexOp>,
    id: u64,
    path: String,
    text: String,
)
    requires
        ops == seq![IndexOp::DeleteId(id), IndexOp::Add { id, path, text }],
    ensures
        changed_by(docs, ops) == docs.filter(|d: IndexedDoc| d.id != id).push(
            IndexedDoc { id, path: path@, text: text@ },
        ),
{
    let first = ops.drop_last();
    assert(first =~= seq![IndexOp::DeleteId(id)]);
    assert(first.drop_last() =~= Seq::empty());
    assert(changed_by(docs, first.drop_last()) == docs);
    assert(changed_by(docs, first) == changed(docs, IndexOp::DeleteId(id)));
}

proof fn lemma_filter_push(s: Seq<IndexedDoc>, x: IndexedDoc, p: spec_fn(IndexedDoc) -> bool)
    ensures
        s.push(x).filter(p) == if p(x) {
            s.filter(p).push(x)
        } else {
            s.filter(p)
        },
{
    reveal(Seq::filter);
    assert(s.push(x).drop_last() =~= s);
}

proof fn lemma_filter_twice(s: Seq<IndexedDoc>, p: spec_fn(IndexedDoc) -> bool)
    ensures
        s.filter(p).filter(p) == s.filter(p),
    decreases s.len(),
{
    if s.len() == 0 {
        assert(s.filter(p) =~= Seq::empty()) by {
            reveal(Seq::filter);
        }
        assert(s.filter(p).filter(p) =~= Seq::empty()) by {
            reveal(Seq::filter);
        }
    } else {
        let d = s.drop_last();
        lemma_filter_twice(d, p);
        assert(d.push(s.last()) =~= s);
        lemma_filter_push(d, s.last(), p);
        lemma_filter_push(d.filter(p), s.last(), p);
    }
}

/// Size of an index.
#[derive(Clone, Copy, PartialEq, Eq, Structural, Debug)]
pub struct IndexStats {
    pub num_docs: u64,
    pub num_segments: usize,
    pub size_bytes: u64,
}

/// The sum of sizes.
pub open spec fn sum(sizes: Seq<u64>) -> nat
    decreases sizes.len(),
{
    if sizes.len() == 0 {
        0
    } else {
        sum(sizes.drop_last()) + sizes.last() as nat
    }
}

proof fn lemma_sum_take(sizes: Seq<u64>, k: int)
    requires
        0 <= k <= sizes.len(),
    ensures
        sum(sizes.take(k)) <= sum(sizes),
    decreases sizes.len() - k,
{
    if k < sizes.len() {
        lemma_sum_take(sizes, k + 1);
        assert(sizes.take(k + 1).drop_last() =~= sizes.take(k));
    } else {
        assert(sizes.take(k) =~= sizes);
    }
}

impl SearchIndex {
    /// Adds a document: documents with the same id are removed first, so that a
    /// file that is read again does not appear twice.
    pub fn add_document(&self, id: i64, path: &str, text: &str) -> (ops: Vec<IndexOp>)
        ensures
            ops@.len() == 2,
            ops@[0] == IndexOp::DeleteId(id as u64),
            ops@[1] matches IndexOp::Add { id: i, path: p, text: t } && i == id as u64 && p@ == path@
                && t@ == text@,
    {
        let key: u64 = #[verifier::truncate] (id as u64);
        let mut ops: Vec<IndexOp> = Vec::new();
        ops.push(IndexOp::DeleteId(key));
        ops.push(IndexOp::Add { id: key, path: path.to_owned(), text: text.to_owned() });
        ops
    }

    /// Removes the documents with an id, for good.
    pub fn delete_by_id(&self, id: i64) -> (ops: Vec<IndexOp>)
        ensures
            ops@ == seq![IndexOp::DeleteId(id as u64), IndexOp::Commit],
    {
        let key: u64 = #[verifier::truncate] (id as u64);
        let mut ops: Vec<IndexOp> = Vec::new();
        ops.push(IndexOp::DeleteId(key));
        ops.push(IndexOp::Commit);
        assert(ops@ =~= seq![IndexOp::DeleteId(id as u64), IndexOp::Commit]);
        ops
    }

    /// Removes the documents with a path, for good.
    pub fn delete_by_exact_path(&self, path: &str) -> (ops: Vec<IndexOp>)
        ensures
            ops@.len() == 2,
            ops@[0] matches IndexOp::DeletePath(p) && p@ == path@,
            ops@[1] is Commit,
    {
        let mut ops: Vec<IndexOp> = Vec::new();
        ops.push(IndexOp::DeletePath(path.to_owned()));
        ops.push(IndexOp::Commit);
        ops
    }

    /// Removes the documents that a path pattern found, for good: each by its id.
    /// All hits are counted.
    pub fn delete_by_path(&self, hits: &Vec<Option<u64>>) -> (r: (Vec<IndexOp>, u64))
        ensures
            r.1 == hits@.len(),
            r.0@ == hit_ids(hits@).map_values(|id: u64| IndexOp::DeleteId(id)).push(IndexOp::Commit),
    {
        let mut ops: Vec<IndexOp> = Vec::new();
        let ghost op = |id: u64| IndexOp::DeleteId(id);
        let mut i: usize = 0;
        assert(ops@ =~= hit_ids(hits@.take(0)).map_values(op));
        while i < hits.len()
            invariant
                i <= hits@.len(),
                op == (|id: u64| IndexOp::DeleteId(id)),
                ops@ == hit_ids(hits@.take(i as int)).map_values(op),
            decreases hits@.len() - i,
        {
            let ghost before = ops@;
            proof {
                assert(hits@.take(i + 1).drop_last() =~= hits@.take(i as int));
                assert(hits@.take(i + 1).last() == hits@[i as int]);
            }
            if let Some(id) = hits[i] {
                ops.push(IndexOp::DeleteId(id));
                assert(ops@ =~= hit_ids(hits@.take(i + 1)).map_values(op));
            }
            i += 1;
        }
        assert(hits@.take(i as int) =~= hits@);
        ops.push(IndexOp::Commit);
        (ops, hits.len() as u64)
    }

    /// Whether merging has to be waited for when the index is optimized: there was
    /// more than one segment to merge.
    pub fn optimize(&self, segments_before: usize) -> (waits: bool)
        ensures
            waits <==> segments_before > 1,
    {
        segments_before > 1
    }

    /// The size of an index whose files have these sizes.
    pub fn compute_stats(&self, num_docs: u64, num_segments: usize, file_sizes: &Vec<u64>) -> (s:
        IndexStats)
        requires
            sum(file_sizes@) <= u64::MAX,
        ensures
            s.num_docs == num_docs,
            s.num_segments == num_segments,
            s.size_bytes == sum(file_sizes@),
    {
        let mut total: u64 = 0;
        let mut i: usize = 0;
        assert(file_sizes@.take(0) =~= Seq::empty());
        while i < file_sizes.len()
            invariant
                i <= file_sizes@.len(),
                total == sum(file_sizes@.take(i as int)),
                sum(file_sizes@) <= u64::MAX,
            decreases file_sizes@.len() - i,
        {
            proof {
                lemma_sum_take(file_sizes@, i + 1);
                assert(file_sizes@.take(i + 1).drop_last() =~= file_sizes@.take(i as int));
            }
            total = total + file_sizes[i];
            i += 1;
        }
        assert(file_sizes@.take(i as int) =~= file_sizes@);
        IndexStats { num_docs, num_segments, size_bytes: total }
    }
}

// ---------------------------------------------------------------------------
// Counters
// ---------------------------------------------------------------------------

/// Counters of an indexer. They wrap around at the end of their range.
#[derive(Clone, Copy, PartialEq, Eq, Structural, Debug)]
pub struct IndexerMetrics {
    pub docs_indexed: u64,
    pub dedup_skipped: u64,
}

impl IndexerMetrics {
    /// Counters at zero.
    pub fn new() -> (m: Self)
        ensures
            m.docs_indexed == 0,
            m.dedup_skipped == 0,
    {
        IndexerMetrics { docs_indexed: 0, dedup_skipped: 0 }
    }

    /// Documents that were indexed.
    pub fn docs_indexed(&self) -> (n: u64)
        ensures
            n == self.docs_indexed,
    {
        self.docs_indexed
    }

    /// Counts one document.
    pub fn count_indexed(&mut self)
        ensures
            final(self).docs_indexed == if old(self).docs_indexed == u64::MAX {
                0
            } else {
                old(self).docs_indexed + 1
            },
            final(self).dedup_skipped == old(self).dedup_skipped,
    {
        self.docs_indexed = self.docs_indexed.wrapping_add(1);
    }
}

// ---------------------------------------------------------------------------
// The indexer
// ---------------------------------------------------------------------------

/// An index with the positions of words and counters.
pub struct Indexer {
    search_index: SearchIndex,
    metrics: IndexerMetrics,
    position_store: PositionStore,
}

impl Indexer {
    /// The index.
    pub closed spec fn index(self) -> SearchIndex {
        self.search_index
    }

    /// The counters.
    pub closed spec fn counters(self) -> IndexerMetrics {
        self.metrics
    }

    /// The positions of words.
    pub closed spec fn positions(self) -> PositionStore {
        self.position_store
    }

    /// An indexer for an index in a directory, which must be named.
    pub fn new(index_path: &str) -> (r: Result<Self, IndexError>)
        ensures
            index_path@.len() == 0 <==> r == Err::<Self, IndexError>(IndexError::NoDirectory),
            r matches Ok(x) ==> {
                &&& x.index().directory() == index_path@
                &&& x.index().buffer() == DEFAULT_RAM_BUFFER
                &&& x.counters().docs_indexed == 0
                &&& x.positions().wf()
                &&& x.positions().blobs() == Map::<i64, Seq<u8>>::empty()
            },
    {
        Indexer::with_ram_buffer(index_path, DEFAULT_RAM_BUFFER)
    }

    /// An indexer whose writers hold at most `ram_buffer` bytes.
    pub fn with_ram_buffer(index_path: &str, ram_buffer: u64) -> (r: Result<Self, IndexError>)
        ensures
            index_path@.len() == 0 <==> r == Err::<Self, IndexError>(IndexError::NoDirectory),
            r matches Ok(x) ==> {
                &&& x.index().directory() == index_path@
                &&& x.index().buffer() == ram_buffer
                &&& x.counters().docs_indexed == 0
                &&& x.positions().wf()
                &&& x.positions().blobs() == Map::<i64, Seq<u8>>::empty()
            },
    {
        match SearchIndex::with_ram_buffer(index_path, ram_buffer) {
            Ok(search_index) => Ok(
                Indexer {
                    search_index,
                    metrics: IndexerMetrics::new(),
                    position_store: PositionStore::open_in_memory(),
                },
            ),
            Err(e) => Err(e),
        }
    }

    /// The index.
    pub fn search_index(&self) -> (r: &SearchIndex)
        ensures
            *r == self.index(),
    {
        &self.search_index
    }

    /// The counters.
    pub fn metrics(&self) -> (r: &IndexerMetrics)
        ensures
            *r == self.counters(),
    {
        &self.metrics
    }

    /// The positions of words.
    pub fn position_store(&self) -> (r: &PositionStore)
        ensures
            *r == self.positions(),
    {
        &self.position_store
    }

    /// What adds one document for good. It counts once this was done: see
    /// `on_indexed`.
    pub fn index_document(&self, id: i64, path: &str, text: &str) -> (ops: Vec<IndexOp>)
        ensures
            ops@.len() == 3,
            ops@[0] == IndexOp::DeleteId(id as u64),
            ops@[1] matches IndexOp::Add { id: i, path: p, text: t } && i == id as u64 && p@
                == path@ && t@ == text@,
            ops@[2] is Commit,
    {
        let mut ops = self.search_index.add_document(id, path, text);
        ops.push(IndexOp::Commit);
        ops
    }

    /// The changes that add a document were tried. The document counts where
    /// all of them, the commit too, were done.
    pub fn on_indexed(&mut self, committed: bool)
        ensures
            final(self).index() == old(self).index(),
            final(self).positions() == old(self).positions(),
            final(self).counters().dedup_skipped == old(self).counters().dedup_skipped,
            final(self).counters().docs_indexed == if committed {
                crate::metrics::next_count(old(self).counters().docs_indexed)
            } else {
                old(self).counters().docs_indexed
            },
    {
        if committed {
            self.metrics.count_indexed();
        }
    }

    /// Stores where the words of a document stand.
    pub fn store_word_positions(
        &mut self,
        doc_id: i64,
        positions: &Vec<(usize, WordPosition)>,
    ) -> (r: Result<(), PositionError>)
        requires
            old(self).positions().wf(),
        ensures
            final(self).positions().wf(),
            final(self).index() == old(self).index(),
            final(self).counters() == old(self).counters(),
            r is Ok,
            final(self).positions().blobs() == with_words(
                old(self).positions().blobs(),
                doc_id,
                all_to_store(positions@),
            ),
            positions@.len() > 0 ==> holds(
                final(self).positions().blobs()[doc_id],
                all_to_store(positions@),
            ),
            positions@.len() > 0 ==> crate::positions::loaded(
                final(self).positions().blobs(),
                doc_id,
            ) == Some(all_to_store(positions@)),
    {
        self.position_store.store_positions(doc_id, positions)
    }

    /// What removes a document from the index for good, by its path. Its words
    /// leave once this was done: see `on_deleted`.
    pub fn delete_document(&self, path: &str) -> (ops: Vec<IndexOp>)
        ensures
            ops@.len() == 2,
            ops@[0] matches IndexOp::DeletePath(p) && p@ == path@,
            ops@[1] is Commit,
    {
        self.search_index.delete_by_exact_path(path)
    }

    /// The changes that remove a document were tried. Its words leave the
    /// positions where they were done.
    pub fn on_deleted(&mut self, doc_id: i64, committed: bool)
        requires
            old(self).positions().wf(),
        ensures
            final(self).positions().wf(),
            final(self).positions().blobs() == if committed {
                old(self).positions().blobs().remove(doc_id)
            } else {
                old(self).positions().blobs()
            },
            final(self).index() == old(self).index(),
            final(self).counters() == old(self).counters(),
    {
        if committed {
            self.position_store.delete_doc(doc_id);
        }
    }
}

// ---------------------------------------------------------------------------
// Places of words
// ---------------------------------------------------------------------------

/// The words with a text, in their order.
pub open spec fn placed(words: Seq<WordPosition>) -> Seq<WordPosition> {
    words.filter(|w: WordPosition| w.text@.len() > 0)
}

/// Gives words their places in the token stream of their document: one place
/// after the other, words without text left out. A word holds one token, so
/// its place is that of the token, and the text of the document is not asked.
pub fn align_offsets_to_tantivy<'a>(
    _text: &str,
    word_positions: &'a [WordPosition],
) -> (r: Vec<(usize, &'a WordPosition)>)
    ensures
        r@.len() == placed(word_positions@).len(),
        forall|i: int|
            0 <= i < r@.len() ==> (#[trigger] r@[i]).0 == i && *r@[i].1 == placed(
                word_positions@,
            )[i],
{
    let mut r: Vec<(usize, &'a WordPosition)> = Vec::new();
    let mut i: usize = 0;
    let ghost keep = |w: WordPosition| w.text@.len() > 0;
    proof {
        reveal(Seq::filter);
        assert(word_positions@.take(0) =~= Seq::empty());
    }
    while i < word_positions.len()
        invariant
            i <= word_positions@.len(),
            r@.len() <= i,
            keep == (|w: WordPosition| w.text@.len() > 0),
            r@.len() == word_positions@.take(i as int).filter(keep).len(),
            forall|k: int|
                0 <= k < r@.len() ==> (#[trigger] r@[k]).0 == k && *r@[k].1
                    == word_positions@.take(i as int).filter(keep)[k],
        decreases word_positions@.len() - i,
    {
        proof {
            reveal(Seq::filter);
            assert(word_positions@.take(i + 1).drop_last() =~= word_positions@.take(i as int));
            assert(word_positions@.take(i + 1).last() == word_positions@[i as int]);
        }
        if !word_positions[i].text.as_str().is_empty() {
            let at = r.len();
            r.push((at, &word_positions[i]));
        }
        i += 1;
    }
    assert(word_positions@.take(i as int) =~= word_positions@);
    r
}

/// The texts of words.
pub open spec fn word_texts(words: Seq<WordPosition>) -> Seq<Seq<char>> {
    words.map_values(|w: WordPosition| w.text@)
}

/// Words and tokens stay in step: where the words of a document are the tokens
/// of its text, as the extractor finds them, none is left out, and the word at
/// each place of the token stream is the token there.
pub proof fn law_lockstep(text: Seq<char>, words: Seq<WordPosition>)
    requires
        word_texts(words) == token_texts(text),
    ensures
        placed(words) == words,
        words.len() == token_runs(text).len(),
        forall|i: int|
            0 <= i < words.len() ==> lowercase((#[trigger] words[i]).text@) == lowercase(
                token_texts(text)[i],
            ),
{
    assert(word_texts(words).len() == words.len());
    let keep = |w: WordPosition| w.text@.len() > 0;
    assert forall|i: int| 0 <= i < words.len() implies keep(#[trigger] words[i]) by {
        assert(word_texts(words)[i] == words[i].text@);
        crate::tokenizers::lemma_run_bounds(text, i);
    }
    lemma_filter_all(words, keep);
    assert forall|i: int| 0 <= i < words.len() implies lowercase((#[trigger] words[i]).text@)
        == lowercase(token_texts(text)[i]) by {
        assert(word_texts(words)[i] == words[i].text@);
    }
}

proof fn lemma_filter_all(s: Seq<WordPosition>, p: spec_fn(WordPosition) -> bool)
    requires
        forall|i: int| 0 <= i < s.len() ==> p(#[trigger] s[i]),
    ensures
        s.filter(p) == s,
    decreases s.len(),
{
    reveal(Seq::filter);
    if s.len() > 0 {
        let d = s.drop_last();
        assert forall|i: int| 0 <= i < d.len() implies p(#[trigger] d[i]) by {
            assert(d[i] == s[i]);
        }
        lemma_filter_all(d, p);
        assert(p(s[s.len() - 1]));
        assert(d.push(s.last()) =~= s);
    } else {
        assert(s.filter(p) =~= s);
    }
}

/// The place of a word is the number of words with text before it: no word
/// with text is left out, and no other word gets a place.
pub proof fn law_place_of_word(words: Seq<WordPosition>, i: int)
    requires
        0 <= i < words.len(),
    ensures
        placed(words).len() == words.filter(|w: WordPosition| w.text@ != Seq::<char>::empty()).len(),
        words[i].text@ != Seq::<char>::empty() ==> {
            let n = words.take(i).filter(|w: WordPosition| w.text@ != Seq::<char>::empty()).len();
            n < placed(words).len() && placed(words)[n as int] == words[i]
        },
{
    let a = |w: WordPosition| w.text@ != Seq::<char>::empty();
    let b = |w: WordPosition| w.text@.len() > 0;
    lemma_same_filter(words, a, b);
    lemma_same_filter(words.take(i), a, b);
    if words[i].text@ != Seq::<char>::empty() {
        assert(words[i].text@.len() > 0) by {
            if words[i].text@.len() == 0 {
                assert(words[i].text@ =~= Seq::<char>::empty());
            }
        }
        crate::text::lemma_filter_place(words, b, i);
    }
}

proof fn lemma_same_filter(
    s: Seq<WordPosition>,
    a: spec_fn(WordPosition) -> bool,
    b: spec_fn(WordPosition) -> bool,
)
    requires
        a == |w: WordPosition| w.text@ != Seq::<char>::empty(),
        b == |w: WordPosition| w.text@.len() > 0,
    ensures
        s.filter(a) == s.filter(b),
    decreases s.len(),
{
    reveal(Seq::filter);
    if s.len() > 0 {
        lemma_same_filter(s.drop_last(), a, b);
        let t = s.last().text@;
        assert(t.len() == 0 ==> t =~= Seq::<char>::empty());
    }
}

/// The hits of which the index knows an id are those that are removed, each in
/// its turn.
pub proof fn law_hits_removed(hits: Seq<Option<u64>>)
    ensures
        hit_ids(hits) == hits.filter(|h: Option<u64>| h is Some).map_values(|h: Option<u64>| h->0),
    decreases hits.len(),
{
    reveal(Seq::filter);
    let keep = |h: Option<u64>| h is Some;
    let id = |h: Option<u64>| h->0;
    if hits.len() > 0 {
        let d = hits.drop_last();
        law_hits_removed(d);
        if hits.last() is Some {
            assert(d.filter(keep).push(hits.last()).map_values(id) =~= d.filter(keep).map_values(
                id,
            ).push(hits.last()->0));
        }
    } else {
        assert(hits.filter(keep).map_values(id) =~= Seq::empty());
    }
}

/// The size of an index counts every file once.
pub proof fn law_sum_of_sizes(a: Seq<u64>, b: Seq<u64>, one: u64)
    ensures
        sum(a + b) == sum(a) + sum(b),
        sum(seq![one]) == one,
        sum(Seq::empty()) == 0,
    decreases b.len(),
{
    reveal_with_fuel(sum, 2);
    assert(seq![one].drop_last() =~= Seq::empty());
    assert(seq![one].last() == one);
    if b.len() == 0 {
        assert(a + b =~= a);
    } else {
        law_sum_of_sizes(a, b.drop_last(), one);
        assert((a + b).drop_last() =~= a + b.drop_last());
        assert((a + b).last() == b.last());
    }
}

/// Removing takes away the documents with the id, or with the path, and no
/// others; adding puts one document behind all others; a commit changes
/// nothing.
pub proof fn law_index_changes(docs: Seq<IndexedDoc>, op: IndexOp)
    ensures
        match op {
            IndexOp::DeleteId(id) => forall|d: IndexedDoc| #[trigger]
                changed(docs, op).contains(d) <==> docs.contains(d) && d.id != id,
            IndexOp::DeletePath(path) => forall|d: IndexedDoc| #[trigger]
                changed(docs, op).contains(d) <==> docs.contains(d) && d.path != path@,
            IndexOp::Add { id, path, text } => {
                &&& changed(docs, op).drop_last() == docs
                &&& changed(docs, op).last().id == id
                &&& changed(docs, op).last().path == path@
                &&& changed(docs, op).last().text == text@
            },
            IndexOp::Commit => changed(docs, op) == docs,
        },
{
    match op {
        IndexOp::DeleteId(id) => {
            let keep = |d: IndexedDoc| d.id != id;
            lemma_filter_contains(docs, keep);
        },
        IndexOp::DeletePath(path) => {
            let keep = |d: IndexedDoc| d.path != path@;
            lemma_filter_contains(docs, keep);
        },
        IndexOp::Add { id, path, text } => {
            assert(changed(docs, op).drop_last() =~= docs);
        },
        IndexOp::Commit => {},
    }
}

proof fn lemma_filter_contains(docs: Seq<IndexedDoc>, keep: spec_fn(IndexedDoc) -> bool)
    ensures
        forall|d: IndexedDoc| #[trigger]
            docs.filter(keep).contains(d) <==> docs.contains(d) && keep(d),
{
    assert forall|d: IndexedDoc| #[trigger] docs.filter(keep).contains(d) <==> docs.contains(d)
        && keep(d) by {
        if docs.filter(keep).contains(d) {
            let n = choose|n: int| 0 <= n < docs.filter(keep).len() && docs.filter(keep)[n] == d;
            let i = crate::text::lemma_filter_source(docs, keep, n);
            assert(docs[i] == d);
        }
        if docs.contains(d) && keep(d) {
            let i = choose|i: int| 0 <= i < docs.len() && docs[i] == d;
            crate::text::lemma_filter_place(docs, keep, i);
        }
    }
}

} // verus!
