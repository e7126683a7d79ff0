//! Where words stand on the pages of a document: one compressed block per
//! document.
//!
//! A block is a header and a Zstandard frame of the encoded words. The header
//! is the version of the layout and, from version 2 on, a byte of flags. Old
//! blocks have no header: they begin with the mark of a Zstandard frame.

use vstd::prelude::*;

use crate::codec::{
    begins, law_stored_readable, stored_bytes, stored_from_bytes, stored_model, stored_models,
    stored_to_bytes, StoredModel, StoredRow,
};
use crate::extractor::WordPosition;
use crate::text::{decimal, push_decimal, push_signed, same_text, signed_decimal};
use crate::tokenizers::lowercase;

verus! {

/// The version of the layout that is written.
pub const POSITIONS_SCHEMA_VERSION: u8 = 2;

/// The flag that boxes take the rotation of their page into account.
pub const COORDS_ROTATION_AWARE: u8 = 1;

/// The flags that are written.
pub const COORDS_DEFAULT_FLAGS: u8 = COORDS_ROTATION_AWARE;

/// The name of the tokens that offsets count.
pub const TOKENIZER_TAG: &'static str = "pdf_extractor_v2";

/// The level of compression.
pub const COMPRESSION_LEVEL: i32 = 3;

/// A word with its place among the words of its document and its box. The
/// coordinates are bit patterns of numbers of 32 bits.
#[derive(Debug)]
pub struct StoredPosition {
    pub word_offset: usize,
    pub page: u32,
    pub x_min: u32,
    pub y_min: u32,
    pub x_max: u32,
    pub y_max: u32,
    pub word_text: String,
}

/// What a stored position says.
pub open spec fn stored(p: StoredPosition) -> StoredModel {
    (p.word_offset, p.page, p.x_min, p.y_min, p.x_max, p.y_max, p.word_text@)
}

/// What stored positions say.
pub open spec fn all_stored(v: Seq<StoredPosition>) -> Seq<StoredModel> {
    v.map_values(|p: StoredPosition| stored(p))
}

/// What is stored of a word at an offset.
pub open spec fn to_store(p: (usize, WordPosition)) -> StoredModel {
    (p.0, p.1.page, p.1.x_min, p.1.y_min, p.1.x_max, p.1.y_max, p.1.text@)
}

/// What is stored of words at offsets.
pub open spec fn all_to_store(v: Seq<(usize, WordPosition)>) -> Seq<StoredModel> {
    v.map_values(|p: (usize, WordPosition)| to_store(p))
}

/// Why positions could not be stored or read.
#[derive(Debug)]
pub enum PositionError {
    /// No positions for this document.
    NotFound(i64),
    /// The block has no bytes.
    EmptyBlob,
    /// The block has version 0.
    VersionZero,
    /// The block ends inside its header.
    Truncated,
    /// The block has a version that is not known.
    Unsupported(u8),
    /// The words could not be encoded.
    Serialise(String),
    /// The words could not be compressed.
    Compress(String),
    /// The frame could not be decompressed.
    Decompress(String),
    /// The words could not be decoded.
    Deserialise(String),
}

/// The text of an error.
pub open spec fn error_text(e: PositionError) -> Seq<char> {
    match e {
        PositionError::NotFound(id) => "No positions found for doc_id "@ + signed_decimal(id as int),
        PositionError::EmptyBlob => "Empty position blob"@,
        PositionError::VersionZero => "Invalid position blob: version 0"@,
        PositionError::Truncated => "Truncated v2 position blob"@,
        PositionError::Unsupported(v) => "Unsupported positions schema version "@ + decimal(
            v as nat,
        ) + " (expected "@ + decimal(POSITIONS_SCHEMA_VERSION as nat)
            + " or 1). Re-index the collection to upgrade."@,
        PositionError::Serialise(_) => "Failed to serialise positions"@,
        PositionError::Compress(m) => "zstd compression failed: "@ + m@,
        PositionError::Decompress(m) => "zstd decompression failed: "@ + m@,
        PositionError::Deserialise(_) => "Failed to deserialise position blob"@,
    }
}

impl PositionError {
    /// The text of the error.
    pub fn message(&self) -> (s: String)
        ensures
            s@ == error_text(*self),
    {
        let mut s = String::new();
        match self {
            PositionError::NotFound(id) => {
                s.push_str("No positions found for doc_id ");
                push_signed(&mut s, *id);
            },
            PositionError::EmptyBlob => {
                s.push_str("Empty position blob");
            },
            PositionError::VersionZero => {
                s.push_str("Invalid position blob: version 0");
            },
            PositionError::Truncated => {
                s.push_str("Truncated v2 position blob");
            },
            PositionError::Unsupported(v) => {
                s.push_str("Unsupported positions schema version ");
                push_decimal(&mut s, *v as u64);
                s.push_str(" (expected ");
                push_decimal(&mut s, POSITIONS_SCHEMA_VERSION as u64);
                s.push_str(" or 1). Re-index the collection to upgrade.");
            },
            PositionError::Serialise(_) => {
                s.push_str("Failed to serialise positions");
            },
            PositionError::Compress(m) => {
                s.push_str("zstd compression failed: ");
                s.push_str(m.as_str());
            },
            PositionError::Decompress(m) => {
                s.push_str("zstd decompression failed: ");
                s.push_str(m.as_str());
            },
            PositionError::Deserialise(_) => {
                s.push_str("Failed to deserialise position blob");
            },
        }
        assert(s@ =~= error_text(*self));
        s
    }
}

// ---------------------------------------------------------------------------
// Blocks
// ---------------------------------------------------------------------------

/// What `data` is compressed to at a level.
pub uninterp spec fn zstd_compressed(data: Seq<u8>, level: i32) -> Seq<u8>;

/// What a Zstandard frame holds, `None` for bytes that are no such frame.
pub uninterp spec fn zstd_decoded(frame: Seq<u8>) -> Option<Seq<u8>>;

/// `zstd::bulk::compress`: what comes out depends on the data and the level,
/// and decompressing it gives the data back. It writes into a buffer as long
/// as the bound for data of this length, which suffices, and takes a level
/// that is out of range for the nearest one, so that it succeeds as long as
/// there is memory.
#[verifier::external_body]
fn compress(data: &[u8], level: i32) -> (r: Result<Vec<u8>, String>)
    ensures
        r is Ok,
        r matches Ok(frame) ==> frame@ == zstd_compressed(data@, level) && zstd_decoded(frame@)
            == Some(data@),
{
    zstd::bulk::compress(data, level).map_err(|e| e.to_string())
}

/// `zstd::stream::decode_all`: what a frame holds depends on its bytes alone.
#[verifier::external_body]
fn decompress(frame: &[u8]) -> (r: Result<Vec<u8>, String>)
    ensures
        match r {
            Ok(data) => zstd_decoded(frame@) == Some(data@),
            Err(_) => zstd_decoded(frame@) is None,
        },
{
    zstd::stream::decode_all(frame).map_err(|e| e.to_string())
}

/// The block of stored positions.
pub open spec fn blob_of(words: Seq<StoredModel>) -> Seq<u8> {
    seq![POSITIONS_SCHEMA_VERSION, COORDS_DEFAULT_FLAGS] + zstd_compressed(
        stored_bytes(words),
        COMPRESSION_LEVEL,
    )
}

/// Whether a block begins with the mark of a Zstandard frame.
pub open spec fn has_magic(blob: Seq<u8>) -> bool {
    blob.len() >= 4 && blob[0] == 0x28 && blob[1] == 0xb5 && blob[2] == 0x2f && blob[3] == 0xfd
}

/// What stands behind the header of a block.
pub open spec fn payload(blob: Seq<u8>) -> Result<Seq<u8>, PositionError> {
    if blob.len() == 0 {
        Err(PositionError::EmptyBlob)
    } else if blob[0] == 0 {
        Err(PositionError::VersionZero)
    } else if has_magic(blob) {
        Ok(blob)
    } else if blob[0] == 2 {
        if blob.len() < 2 {
            Err(PositionError::Truncated)
        } else {
            Ok(blob.skip(2))
        }
    } else if blob[0] == 1 {
        Ok(blob.skip(1))
    } else {
        Err(PositionError::Unsupported(blob[0]))
    }
}

/// Takes the header off a block.
pub fn strip_header(blob: &[u8]) -> (r: Result<&[u8], PositionError>)
    ensures
        match r {
            Ok(p) => payload(blob@) == Ok::<Seq<u8>, PositionError>(p@),
            Err(e) => payload(blob@) == Err::<Seq<u8>, PositionError>(e),
        },
{
    if blob.len() == 0 {
        return Err(PositionError::EmptyBlob);
    }
    let version = blob[0];
    if version == 0 {
        return Err(PositionError::VersionZero);
    }
    if blob.len() >= 4 && blob[0] == 0x28 && blob[1] == 0xb5 && blob[2] == 0x2f && blob[3] == 0xfd {
        return Ok(blob);
    }
    match version {
        2 => {
            if blob.len() < 2 {
                return Err(PositionError::Truncated);
            }
            let p = vstd::slice::slice_subrange(blob, 2, blob.len());
            assert(p@ =~= blob@.skip(2));
            Ok(p)
        },
        1 => {
            let p = vstd::slice::slice_subrange(blob, 1, blob.len());
            assert(p@ =~= blob@.skip(1));
            Ok(p)
        },
        _ => Err(PositionError::Unsupported(version)),
    }
}

/// The flags of a block, `None` for a block without flags: an empty one, one
/// of version 0 or 1, and one without a header.
pub open spec fn flags_of(blob: Seq<u8>) -> Option<u8> {
    if blob.len() == 0 || blob[0] < 2 || has_magic(blob) {
        None
    } else {
        Some(blob[1])
    }
}

/// Whether a block does not end before its flags.
pub open spec fn flags_there(blob: Seq<u8>) -> bool {
    blob.len() == 1 ==> blob[0] < 2
}

/// The flags of a block.
pub fn transform_flags(blob: &[u8]) -> (r: Option<u8>)
    requires
        flags_there(blob@),
    ensures
        r == flags_of(blob@),
{
    if blob.len() == 0 || blob[0] < 2 {
        return None;
    }
    if blob.len() >= 4 && blob[0] == 0x28 && blob[1] == 0xb5 && blob[2] == 0x2f && blob[3] == 0xfd {
        return None;
    }
    Some(blob[1])
}

fn make_blob(rows: &Vec<StoredRow>) -> (r: Result<Vec<u8>, PositionError>)
    ensures
        r is Ok,
        r matches Ok(b) ==> b@ == blob_of(stored_models(rows@)) && zstd_decoded(b@.skip(2)) == Some(
            stored_bytes(stored_models(rows@)),
        ),
        stored_bytes(stored_models(rows@)).len() <= u64::MAX,
{
    let encoded = match stored_to_bytes(rows) {
        Ok(b) => b,
        Err(m) => {
            return Err(PositionError::Serialise(m));
        },
    };
    let ghost size = encoded.len();
    assert(encoded@.len() == size <= u64::MAX);
    let mut frame = match compress(encoded.as_slice(), COMPRESSION_LEVEL) {
        Ok(b) => b,
        Err(m) => {
            return Err(PositionError::Compress(m));
        },
    };
    let ghost framed = frame@;
    let mut blob: Vec<u8> = Vec::new();
    blob.push(POSITIONS_SCHEMA_VERSION);
    blob.push(COORDS_DEFAULT_FLAGS);
    blob.append(&mut frame);
    assert(blob@ =~= blob_of(stored_models(rows@)));
    assert(blob@.skip(2) =~= framed);
    Ok(blob)
}

/// Whether `words` is what a block holds.
pub open spec fn holds(blob: Seq<u8>, words: Seq<StoredModel>) -> bool {
    payload(blob) matches Ok(p) && zstd_decoded(p) matches Some(d) && begins(d, stored_bytes(words))
}

/// Whether reading a block fails with `e`: with the error of its header, or
/// because the rest is no frame, or because the frame does not hold words.
pub open spec fn unreadable(blob: Seq<u8>, e: PositionError) -> bool {
    match payload(blob) {
        Err(h) => e == h,
        Ok(p) => match zstd_decoded(p) {
            None => e is Decompress,
            Some(d) => e is Deserialise && forall|m: Seq<StoredModel>|
                !begins(d, #[trigger] stored_bytes(m)),
        },
    }
}

/// Whether `words` is what a block holds, and nothing else is.
pub open spec fn holds_only(blob: Seq<u8>, words: Seq<StoredModel>) -> bool {
    holds(blob, words) && forall|m: Seq<StoredModel>| #[trigger] holds(blob, m) ==> m == words
}

/// The words that a block holds, `None` for one that cannot be read.
pub open spec fn words_of(blob: Seq<u8>) -> Option<Seq<StoredModel>> {
    if exists|m: Seq<StoredModel>| #[trigger] holds_only(blob, m) {
        Some(choose|m: Seq<StoredModel>| #[trigger] holds_only(blob, m))
    } else {
        None
    }
}

/// Reads the words of a block.
pub fn decode_blob(blob: &[u8]) -> (r: Result<Vec<StoredPosition>, PositionError>)
    ensures
        match r {
            Ok(v) => words_of(blob@) == Some(all_stored(v@)) && holds_only(blob@, all_stored(v@)),
            Err(e) => words_of(blob@) is None && unreadable(blob@, e),
        },
{
    let frame = match strip_header(blob) {
        Ok(p) => p,
        Err(e) => {
            return Err(e);
        },
    };
    let data = match decompress(frame) {
        Ok(d) => d,
        Err(m) => {
            return Err(PositionError::Decompress(m));
        },
    };
    let rows = match stored_from_bytes(data.as_slice()) {
        Ok(v) => v,
        Err(m) => {
            return Err(PositionError::Deserialise(m));
        },
    };
    let ghost given = rows@;
    let ghost size = data.len();
    let mut v: Vec<StoredPosition> = Vec::new();
    for r in it: rows
        invariant
            it.seq() == given,
            v@.len() == it.index(),
            forall|k: int| 0 <= k < v@.len() ==> stored(#[trigger] v@[k]) == stored_model(given[k]),
    {
        let (word_offset, page, x_min, y_min, x_max, y_max, word_text) = r;
        v.push(StoredPosition { word_offset, page, x_min, y_min, x_max, y_max, word_text });
    }
    proof {
        let words = all_stored(v@);
        assert(words =~= stored_models(given));
        assert(data@.len() == size <= u64::MAX);
        assert forall|m: Seq<StoredModel>| #[trigger] holds(blob@, m) implies m == words by {
            law_stored_readable(m, words, data@);
        }
        assert(holds_only(blob@, words));
    }
    Ok(v)
}

// ---------------------------------------------------------------------------
// The store
// ---------------------------------------------------------------------------

/// The index of the entry of a document, `-1` where it has none.
pub open spec fn entry_at(entries: Seq<(i64, Vec<u8>)>, id: i64) -> int
    decreases entries.len(),
{
    if entries.len() == 0 {
        -1
    } else if entries.last().0 == id {
        entries.len() - 1
    } else {
        entry_at(entries.drop_last(), id)
    }
}

proof fn lemma_entry_at(entries: Seq<(i64, Vec<u8>)>, id: i64)
    ensures
        -1 <= entry_at(entries, id) < entries.len(),
        entry_at(entries, id) >= 0 ==> entries[entry_at(entries, id)].0 == id,
        entry_at(entries, id) < 0 ==> forall|i: int|
            0 <= i < entries.len() ==> (#[trigger] entries[i]).0 != id,
    decreases entries.len(),
{
    if entries.len() > 0 && entries.last().0 != id {
        let d = entries.drop_last();
        lemma_entry_at(d, id);
        if entry_at(d, id) < 0 {
            assert forall|i: int| 0 <= i < entries.len() implies (#[trigger] entries[i]).0 != id by {
                if i < d.len() {
                    assert(d[i].0 != id);
                }
            }
        }
    }
}

/// The positions of documents, one block for each.
pub struct PositionStore {
    entries: Vec<(i64, Vec<u8>)>,
}

/// The block that storing `words` under `id` puts in place of the one there.
/// No words change nothing.
pub open spec fn with_words(
    blobs: Map<i64, Seq<u8>>,
    id: i64,
    words: Seq<StoredModel>,
) -> Map<i64, Seq<u8>> {
    if words.len() == 0 {
        blobs
    } else {
        blobs.insert(id, blob_of(words))
    }
}

/// What is stored of words at offsets, given by reference.
pub open spec fn refs_to_store(v: Seq<(usize, &WordPosition)>) -> Seq<StoredModel> {
    v.map_values(|p: (usize, &WordPosition)| to_store((p.0, *p.1)))
}

/// The blocks after the words of several documents were stored in turn.
pub open spec fn with_all(
    blobs: Map<i64, Seq<u8>>,
    items: Seq<(i64, Vec<(usize, &WordPosition)>)>,
) -> Map<i64, Seq<u8>>
    decreases items.len(),
{
    if items.len() == 0 {
        blobs
    } else {
        with_words(
            with_all(blobs, items.drop_last()),
            items.last().0,
            refs_to_store(items.last().1@),
        )
    }
}

/// Whether each block that storing the words of several documents makes holds
/// those words.
pub open spec fn all_hold(items: Seq<(i64, Vec<(usize, &WordPosition)>)>) -> bool {
    forall|i: int|
        0 <= i < items.len() && (#[trigger] items[i]).1@.len() > 0 ==> holds_only(
            blob_of(refs_to_store(items[i].1@)),
            refs_to_store(items[i].1@),
        )
}

/// The words of a document, `None` where it has no block or one that cannot be
/// read.
pub open spec fn loaded(blobs: Map<i64, Seq<u8>>, id: i64) -> Option<Seq<StoredModel>> {
    if blobs.dom().contains(id) {
        words_of(blobs[id])
    } else {
        None
    }
}

/// Whether loading the words of a document fails with `e`.
pub open spec fn load_fails(blobs: Map<i64, Seq<u8>>, id: i64, e: PositionError) -> bool {
    if blobs.dom().contains(id) {
        words_of(blobs[id]) is None && unreadable(blobs[id], e)
    } else {
        e == PositionError::NotFound(id)
    }
}

/// The words at given offsets, in their order.
pub open spec fn at_offsets(words: Seq<StoredModel>, offsets: Seq<usize>) -> Seq<StoredModel> {
    words.filter(|m: StoredModel| offsets.contains(m.0))
}

/// The words that are a given term, without regard to case, in their order.
pub open spec fn of_term(words: Seq<StoredModel>, term: Seq<char>) -> Seq<StoredModel> {
    words.filter(|m: StoredModel| lowercase(m.6) == lowercase(term))
}

fn row_of(offset: usize, p: &WordPosition) -> (r: StoredRow)
    ensures
        stored_model(r) == to_store((offset, *p)),
{
    (offset, p.page, p.x_min, p.y_min, p.x_max, p.y_max, p.text.clone())
}

fn holds_offset(offsets: &[usize], x: usize) -> (b: bool)
    ensures
        b == offsets@.contains(x),
{
    let mut i: usize = 0;
    while i < offsets.len()
        invariant
            i <= offsets@.len(),
            forall|k: int| 0 <= k < i ==> offsets@[k] != x,
        decreases offsets@.len() - i,
    {
        if offsets[i] == x {
            assert(offsets@[i as int] == x);
            return true;
        }
        i += 1;
    }
    false
}

impl PositionStore {
    /// Whether no document has two entries.
    pub closed spec fn wf(self) -> bool {
        forall|i: int, j: int|
            0 <= i < j < self.entries@.len() ==> (#[trigger] self.entries@[i]).0 != (
            #[trigger] self.entries@[j]).0
    }

    /// The block of each document.
    pub closed spec fn blobs(self) -> Map<i64, Seq<u8>> {
        Map::new(
            |id: i64| entry_at(self.entries@, id) >= 0,
            |id: i64| self.entries@[entry_at(self.entries@, id)].1@,
        )
    }

    /// A store without documents.
    pub fn open_in_memory() -> (s: PositionStore)
        ensures
            s.wf(),
            s.blobs() == Map::<i64, Seq<u8>>::empty(),
    {
        let s = PositionStore { entries: Vec::new() };
        assert(s.blobs() =~= Map::empty());
        s
    }

    fn find(&self, id: i64) -> (r: Option<usize>)
        requires
            self.wf(),
        ensures
            match r {
                Some(i) => i < self.entries@.len() && self.entries@[i as int].0 == id
                    && self.blobs().dom().contains(id) && self.blobs()[id]
                    == self.entries@[i as int].1@,
                None => !self.blobs().dom().contains(id) && forall|k: int|
                    0 <= k < self.entries@.len() ==> (#[trigger] self.entries@[k]).0 != id,
            },
    {
        proof {
            lemma_entry_at(self.entries@, id);
        }
        let mut i: usize = 0;
        while i < self.entries.len()
            invariant
                self.wf(),
                i <= self.entries@.len(),
                forall|k: int| 0 <= k < i ==> (#[trigger] self.entries@[k]).0 != id,
                -1 <= entry_at(self.entries@, id) < self.entries@.len(),
                entry_at(self.entries@, id) >= 0 ==> self.entries@[entry_at(self.entries@, id)].0
                    == id,
                entry_at(self.entries@, id) < 0 ==> forall|k: int|
                    0 <= k < self.entries@.len() ==> (#[trigger] self.entries@[k]).0 != id,
            decreases self.entries@.len() - i,
        {
            if self.entries[i].0 == id {
                assert(entry_at(self.entries@, id) >= 0);
                assert(entry_at(self.entries@, id) == i);
                return Some(i);
            }
            i += 1;
        }
        None
    }

    /// The block of a document.
    pub fn blob(&self, doc_id: i64) -> (r: Option<&Vec<u8>>)
        requires
            self.wf(),
        ensures
            match r {
                Some(b) => self.blobs().dom().contains(doc_id) && self.blobs()[doc_id] == b@,
                None => !self.blobs().dom().contains(doc_id),
            },
    {
        match self.find(doc_id) {
            Some(i) => Some(&self.entries[i].1),
            None => None,
        }
    }

    /// Puts a block in place of the one that a document has.
    pub fn put_blob(&mut self, doc_id: i64, blob: Vec<u8>)
        requires
            old(self).wf(),
        ensures
            final(self).wf(),
            final(self).blobs() == old(self).blobs().insert(doc_id, blob@),
    {
        self.delete_doc(doc_id);
        let ghost mid = *self;
        self.entries.push((doc_id, blob));
        proof {
            let e = self.entries@;
            assert(e.drop_last() =~= mid.entries@);
            lemma_entry_at(mid.entries@, doc_id);
            assert(!mid.blobs().dom().contains(doc_id));
            assert(entry_at(mid.entries@, doc_id) < 0);
            assert forall|i: int, j: int| 0 <= i < j < e.len() implies (#[trigger] e[i]).0 != (
            #[trigger] e[j]).0 by {
                assert(e[i] == mid.entries@[i]);
                if j < mid.entries@.len() {
                    assert(e[j] == mid.entries@[j]);
                }
            }
            assert forall|id: i64| #[trigger] entry_at(e, id) == (if id == doc_id {
                e.len() - 1
            } else {
                entry_at(mid.entries@, id)
            }) by {}
            assert forall|id: i64| true implies entry_at(mid.entries@, id) < mid.entries@.len() by {
                lemma_entry_at(mid.entries@, id);
            }
            assert(self.blobs() =~= mid.blobs().insert(doc_id, blob@));
            assert(mid.blobs().insert(doc_id, blob@) =~= old(self).blobs().insert(doc_id, blob@));
        }
    }

    /// Drops the block of a document.
    pub fn delete_doc(&mut self, doc_id: i64)
        requires
            old(self).wf(),
        ensures
            final(self).wf(),
            final(self).blobs() == old(self).blobs().remove(doc_id),
    {
        if let Some(i) = self.find(doc_id) {
            let ghost before = self.entries@;
            let _ = self.entries.remove(i);
            proof {
                let after = self.entries@;
                assert(after == before.remove(i as int));
                assert forall|a: int, b: int| 0 <= a < b < after.len() implies (
                #[trigger] after[a]).0 != (#[trigger] after[b]).0 by {
                    let x = if a < i {
                        a
                    } else {
                        a + 1
                    };
                    let y = if b < i {
                        b
                    } else {
                        b + 1
                    };
                    assert(after[a] == before[x] && after[b] == before[y]);
                }
                assert forall|id: i64|
                    {
                        &&& (#[trigger] entry_at(after, id) >= 0) == (id != doc_id && entry_at(
                            before,
                            id,
                        ) >= 0)
                        &&& entry_at(after, id) >= 0 ==> after[entry_at(after, id)]
                            == before[entry_at(before, id)]
                    } by {
                    lemma_entry_at(before, id);
                    lemma_entry_at(after, id);
                    let q = entry_at(before, id);
                    let p = entry_at(after, id);
                    if q >= 0 && id != doc_id {
                        assert(q != i);
                        let at = if q < i {
                            q
                        } else {
                            q - 1
                        };
                        assert(after[at] == before[q]);
                        assert(p >= 0);
                    }
                    if p >= 0 {
                        let back = if p < i {
                            p
                        } else {
                            p + 1
                        };
                        assert(after[p] == before[back]);
                        assert(q >= 0);
                        assert(before[q].0 == before[back].0);
                        assert(q == back);
                    }
                }
                assert(self.blobs() =~= old(self).blobs().remove(doc_id));
            }
        } else {
            assert(self.blobs() =~= old(self).blobs().remove(doc_id));
        }
    }

    /// Stores the words of a document in place of those that it has. No words
    /// change nothing.
    pub fn store_positions(&mut self, doc_id: i64, positions: &Vec<(usize, WordPosition)>) -> (r:
        Result<(), PositionError>)
        requires
            old(self).wf(),
        ensures
            final(self).wf(),
            r is Ok,
            final(self).blobs() == with_words(
                old(self).blobs(),
                doc_id,
                all_to_store(positions@),
            ),
            positions@.len() > 0 ==> holds(
                final(self).blobs()[doc_id],
                all_to_store(positions@),
            ),
            positions@.len() > 0 ==> loaded(final(self).blobs(), doc_id) == Some(
                all_to_store(positions@),
            ),
    {
        if positions.len() == 0 {
            return Ok(());
        }
        let mut rows: Vec<StoredRow> = Vec::new();
        let mut i: usize = 0;
        while i < positions.len()
            invariant
                i <= positions@.len(),
                rows@.len() == i,
                forall|k: int|
                    0 <= k < i ==> stored_model(#[trigger] rows@[k]) == to_store(positions@[k]),
            decreases positions@.len() - i,
        {
            rows.push(row_of(positions[i].0, &positions[i].1));
            i += 1;
        }
        assert(stored_models(rows@) =~= all_to_store(positions@));
        match make_blob(&rows) {
            Ok(blob) => {
                proof {
                    lemma_blob_holds(blob@, stored_models(rows@));
                }
                self.put_blob(doc_id, blob);
                Ok(())
            },
            Err(e) => Err(e),
        }
    }

    /// Stores the words of several documents in turn.
    pub fn store_positions_batch(&mut self, items: &Vec<(i64, Vec<(usize, &WordPosition)>)>) -> (r:
        Result<(), PositionError>)
        requires
            old(self).wf(),
        ensures
            final(self).wf(),
            r is Ok,
            final(self).blobs() == with_all(old(self).blobs(), items@),
            all_hold(items@),
    {
        let ghost before = self.blobs();
        let mut n: usize = 0;
        assert(items@.take(0) =~= Seq::empty());
        while n < items.len()
            invariant
                n <= items@.len(),
                self.wf(),
                before == old(self).blobs(),
                self.blobs() == with_all(before, items@.take(n as int)),
                all_hold(items@.take(n as int)),
            decreases items@.len() - n,
        {
            let positions = &items[n].1;
            proof {
                assert(items@.take(n + 1).drop_last() =~= items@.take(n as int));
                assert(items@.take(n + 1).last() == items@[n as int]);
            }
            if positions.len() > 0 {
                let mut rows: Vec<StoredRow> = Vec::new();
                let mut i: usize = 0;
                while i < positions.len()
                    invariant
                        i <= positions@.len(),
                        rows@.len() == i,
                        forall|k: int|
                            0 <= k < i ==> stored_model(#[trigger] rows@[k]) == to_store(
                                (positions@[k].0, *positions@[k].1),
                            ),
                    decreases positions@.len() - i,
                {
                    rows.push(row_of(positions[i].0, positions[i].1));
                    i += 1;
                }
                assert(stored_models(rows@) =~= refs_to_store(positions@));
                match make_blob(&rows) {
                    Ok(blob) => {
                        proof {
                            lemma_blob_holds(blob@, stored_models(rows@));
                        }
                        self.put_blob(items[n].0, blob);
                    },
                    Err(e) => {
                        return Err(e);
                    },
                }
            }
            n += 1;
        }
        assert(items@.take(n as int) =~= items@);
        Ok(())
    }

    /// The words of a document.
    pub fn load_all_for_doc(&self, doc_id: i64) -> (r: Result<Vec<StoredPosition>, PositionError>)
        requires
            self.wf(),
        ensures
            match r {
                Ok(v) => loaded(self.blobs(), doc_id) == Some(all_stored(v@)),
                Err(e) => load_fails(self.blobs(), doc_id, e),
            },
    {
        match self.blob(doc_id) {
            Some(blob) => decode_blob(blob.as_slice()),
            None => Err(PositionError::NotFound(doc_id)),
        }
    }

    /// The words of a document at given offsets. For no offsets nothing is
    /// read.
    pub fn get_positions(&self, doc_id: i64, offsets: &[usize]) -> (r: Result<
        Vec<StoredPosition>,
        PositionError,
    >)
        requires
            self.wf(),
        ensures
            match r {
                Ok(v) => if offsets@.len() == 0 {
                    v@.len() == 0
                } else {
                    loaded(self.blobs(), doc_id) matches Some(words) && all_stored(v@)
                        == at_offsets(words, offsets@)
                },
                Err(e) => offsets@.len() > 0 && load_fails(self.blobs(), doc_id, e),
            },
    {
        if offsets.len() == 0 {
            return Ok(Vec::new());
        }
        let all = match self.load_all_for_doc(doc_id) {
            Ok(v) => v,
            Err(e) => {
                return Err(e);
            },
        };
        let ghost given = all@;
        let ghost words = all_stored(given);
        let ghost keep = |m: StoredModel| offsets@.contains(m.0);
        let mut kept: Vec<StoredPosition> = Vec::new();
        proof {
            reveal(Seq::filter);
            assert(all_stored(kept@) =~= words.take(0).filter(keep));
        }
        for p in it: all
            invariant
                it.seq() == given,
                words == all_stored(given),
                keep == (|m: StoredModel| offsets@.contains(m.0)),
                all_stored(kept@) == words.take(it.index()).filter(keep),
        {
            let ghost n = it.index();
            let ghost before = kept@;
            let ghost model = stored(p);
            proof {
                reveal(Seq::filter);
                assert(words.take(n + 1).drop_last() =~= words.take(n));
                assert(words.take(n + 1).last() == stored(given[n]));
            }
            if holds_offset(offsets, p.word_offset) {
                kept.push(p);
                assert(all_stored(kept@) =~= all_stored(before).push(model));
            }
        }
        assert(words.take(words.len() as int) =~= words);
        Ok(kept)
    }

    /// The words of a document that are a given term, without regard to case.
    pub fn get_positions_by_term(&self, doc_id: i64, term: &str) -> (r: Result<
        Vec<StoredPosition>,
        PositionError,
    >)
        requires
            self.wf(),
        ensures
            match r {
                Ok(v) => loaded(self.blobs(), doc_id) matches Some(words) && all_stored(v@)
                    == of_term(words, term@),
                Err(e) => load_fails(self.blobs(), doc_id, e),
            },
    {
        let all = match self.load_all_for_doc(doc_id) {
            Ok(v) => v,
            Err(e) => {
                return Err(e);
            },
        };
        let wanted = term.to_lowercase();
        let ghost given = all@;
        let ghost words = all_stored(given);
        let ghost keep = |m: StoredModel| lowercase(m.6) == lowercase(term@);
        let mut kept: Vec<StoredPosition> = Vec::new();
        proof {
            reveal(Seq::filter);
            assert(all_stored(kept@) =~= words.take(0).filter(keep));
        }
        for p in it: all
            invariant
                it.seq() == given,
                words == all_stored(given),
                wanted@ == lowercase(term@),
                keep == (|m: StoredModel| lowercase(m.6) == lowercase(term@)),
                all_stored(kept@) == words.take(it.index()).filter(keep),
        {
            let ghost n = it.index();
            let ghost before = kept@;
            let ghost model = stored(p);
            proof {
                reveal(Seq::filter);
                assert(words.take(n + 1).drop_last() =~= words.take(n));
                assert(words.take(n + 1).last() == stored(given[n]));
            }
            let lower = p.word_text.as_str().to_lowercase();
            if same_text(lower.as_str(), wanted.as_str()) {
                kept.push(p);
                assert(all_stored(kept@) =~= all_stored(before).push(model));
            }
        }
        assert(words.take(words.len() as int) =~= words);
        Ok(kept)
    }

    /// How many words a document has, none where it has no block.
    pub fn count_positions(&self, doc_id: i64) -> (r: Result<usize, PositionError>)
        requires
            self.wf(),
        ensures
            match r {
                Ok(n) => if self.blobs().dom().contains(doc_id) {
                    words_of(self.blobs()[doc_id]) matches Some(words) && n == words.len()
                } else {
                    n == 0
                },
                Err(e) => self.blobs().dom().contains(doc_id) && load_fails(
                    self.blobs(),
                    doc_id,
                    e,
                ),
            },
    {
        match self.blob(doc_id) {
            Some(blob) => match decode_blob(blob.as_slice()) {
                Ok(v) => {
                    assert(all_stored(v@).len() == v@.len());
                    Ok(v.len())
                },
                Err(e) => Err(e),
            },
            None => Ok(0),
        }
    }

    /// The flags of the block of a document, `None` where it has no block or
    /// one without flags.
    pub fn get_transform_flags(&self, doc_id: i64) -> (r: Option<u8>)
        requires
            self.wf(),
            self.blobs().dom().contains(doc_id) ==> flags_there(self.blobs()[doc_id]),
        ensures
            r == (if self.blobs().dom().contains(doc_id) {
                flags_of(self.blobs()[doc_id])
            } else {
                None
            }),
    {
        match self.blob(doc_id) {
            Some(blob) => transform_flags(blob.as_slice()),
            None => None,
        }
    }
}

proof fn lemma_blob_holds(blob: Seq<u8>, words: Seq<StoredModel>)
    requires
        blob == blob_of(words),
        zstd_decoded(blob.skip(2)) == Some(stored_bytes(words)),
        stored_bytes(words).len() <= u64::MAX,
    ensures
        holds(blob, words),
        holds_only(blob, words),
        words_of(blob) == Some(words),
{
    assert(blob[0] == 2);
    let d = stored_bytes(words);
    assert(d.take(d.len() as int) =~= d);
    assert forall|m: Seq<StoredModel>| #[trigger] holds(blob, m) implies m == words by {
        law_stored_readable(m, words, d);
    }
    assert(holds_only(blob, words));
}

/// Reading the block of a document gives back the words that were stored.
pub proof fn law_stored_then_read(
    blob: Seq<u8>,
    words: Seq<StoredModel>,
    r: Result<Seq<StoredModel>, PositionError>,
)
    requires
        holds(blob, words),
        match r {
            Ok(v) => words_of(blob) == Some(v) && holds_only(blob, v),
            Err(e) => unreadable(blob, e),
        },
    ensures
        r == Ok::<Seq<StoredModel>, PositionError>(words),
{
    match r {
        Ok(v) => {
            assert(holds(blob, words));
        },
        Err(e) => {
            let d = zstd_decoded(payload(blob)->Ok_0)->Some_0;
            assert(begins(d, stored_bytes(words)));
        },
    }
}

/// What is written has the flags that are written.
pub proof fn law_written_flags(words: Seq<StoredModel>)
    ensures
        flags_of(blob_of(words)) == Some(COORDS_DEFAULT_FLAGS),
{
    assert(blob_of(words)[0] == 2);
    assert(blob_of(words)[1] == COORDS_DEFAULT_FLAGS);
}

// ---------------------------------------------------------------------------
// What was stored comes back
// ---------------------------------------------------------------------------

/// Whether a stored position is a word at an offset: it has the offset, the
/// page, the four edges and the text.
pub open spec fn is_item(p: StoredPosition, item: (usize, WordPosition)) -> bool {
    &&& p.word_offset == item.0
    &&& p.page == item.1.page
    &&& p.x_min == item.1.x_min
    &&& p.y_min == item.1.y_min
    &&& p.x_max == item.1.x_max
    &&& p.y_max == item.1.y_max
    &&& p.word_text@ == item.1.text@
}

/// Whether stored positions are words at offsets, one for one.
pub open spec fn are_items(v: Seq<StoredPosition>, items: Seq<(usize, WordPosition)>) -> bool {
    &&& v.len() == items.len()
    &&& forall|n: int| 0 <= n < v.len() ==> is_item(#[trigger] v[n], items[n])
}

/// Whether a document has words at offsets in a store.
pub open spec fn has_items(
    blobs: Map<i64, Seq<u8>>,
    id: i64,
    items: Seq<(usize, WordPosition)>,
) -> bool {
    loaded(blobs, id) == Some(all_to_store(items))
}

proof fn lemma_items(v: Seq<StoredPosition>, items: Seq<(usize, WordPosition)>)
    requires
        all_stored(v) == all_to_store(items),
    ensures
        are_items(v, items),
{
    assert(v.len() == all_stored(v).len());
    assert(items.len() == all_to_store(items).len());
    assert forall|n: int| 0 <= n < v.len() implies is_item(#[trigger] v[n], items[n]) by {
        assert(all_stored(v)[n] == stored(v[n]));
        assert(all_to_store(items)[n] == to_store(items[n]));
    }
}

pub(crate) proof fn lemma_filter_stored(
    items: Seq<(usize, WordPosition)>,
    a: spec_fn(StoredModel) -> bool,
    b: spec_fn((usize, WordPosition)) -> bool,
)
    requires
        forall|i: int| 0 <= i < items.len() ==> a(to_store(items[i])) == b(#[trigger] items[i]),
    ensures
        all_to_store(items).filter(a) == all_to_store(items.filter(b)),
    decreases items.len(),
{
    reveal(Seq::filter);
    if items.len() > 0 {
        let d = items.drop_last();
        lemma_filter_stored(d, a, b);
        assert(all_to_store(items).drop_last() =~= all_to_store(d));
        assert(all_to_store(items).last() == to_store(items.last()));
        assert(all_to_store(d.filter(b).push(items.last())) =~= all_to_store(d.filter(b)).push(
            to_store(items.last()),
        ));
    } else {
        assert(all_to_store(items).filter(a) =~= all_to_store(items.filter(b)));
    }
}

/// Reading a document gives the words that were stored, all of them, in their
/// order, each with its offset, its page, its four edges and its text.
pub proof fn law_words_come_back(
    blobs: Map<i64, Seq<u8>>,
    id: i64,
    items: Seq<(usize, WordPosition)>,
    v: Seq<StoredPosition>,
)
    requires
        has_items(blobs, id, items),
        loaded(blobs, id) == Some(all_stored(v)),
    ensures
        are_items(v, items),
{
    lemma_items(v, items);
}

/// Asking for offsets gives the words that were stored at them, in their
/// order, and no others.
pub proof fn law_words_at_offsets(
    blobs: Map<i64, Seq<u8>>,
    id: i64,
    items: Seq<(usize, WordPosition)>,
    offsets: Seq<usize>,
    v: Seq<StoredPosition>,
)
    requires
        has_items(blobs, id, items),
        loaded(blobs, id) matches Some(words) && all_stored(v) == at_offsets(words, offsets),
    ensures
        are_items(v, items.filter(|p: (usize, WordPosition)| offsets.contains(p.0))),
{
    let b = |p: (usize, WordPosition)| offsets.contains(p.0);
    lemma_filter_stored(items, |m: StoredModel| offsets.contains(m.0), b);
    lemma_items(v, items.filter(b));
}

/// Asking for a term gives the words that were stored and read as it does in
/// lower case, in their order, and no others.
pub proof fn law_words_of_term(
    blobs: Map<i64, Seq<u8>>,
    id: i64,
    items: Seq<(usize, WordPosition)>,
    term: Seq<char>,
    v: Seq<StoredPosition>,
)
    requires
        has_items(blobs, id, items),
        loaded(blobs, id) matches Some(words) && all_stored(v) == of_term(words, term),
    ensures
        are_items(
            v,
            items.filter(
                |p: (usize, WordPosition)| lowercase(p.1.text@) == lowercase(term),
            ),
        ),
{
    let b = |p: (usize, WordPosition)| lowercase(p.1.text@) == lowercase(term);
    lemma_filter_stored(items, |m: StoredModel| lowercase(m.6) == lowercase(term), b);
    lemma_items(v, items.filter(b));
}

/// Storing the words of several documents stores for each the words given
/// last, and leaves the other documents as they were; a document without words
/// changes nothing.
pub proof fn law_batch_stored(
    blobs: Map<i64, Seq<u8>>,
    items: Seq<(i64, Vec<(usize, &WordPosition)>)>,
    id: i64,
)
    requires
        all_hold(items),
    ensures
        (forall|k: int|
            0 <= k < items.len() && (#[trigger] items[k]).0 == id ==> items[k].1@.len() == 0)
            ==> loaded(with_all(blobs, items), id) == loaded(blobs, id),
        forall|n: int|
            0 <= n < items.len() && (#[trigger] items[n]).0 == id && items[n].1@.len() > 0 && (
            forall|k: int|
                n < k < items.len() && (#[trigger] items[k]).0 == id ==> items[k].1@.len() == 0)
                ==> has_items(
                with_all(blobs, items),
                id,
                items[n].1@.map_values(|p: (usize, &WordPosition)| (p.0, *p.1)),
            ),
    decreases items.len(),
{
    if items.len() > 0 {
        let d = items.drop_last();
        let l = items.last();
        assert forall|i: int| 0 <= i < d.len() && (#[trigger] d[i]).1@.len() > 0 implies holds_only(
            blob_of(refs_to_store(d[i].1@)),
            refs_to_store(d[i].1@),
        ) by {
            assert(items[i] == d[i]);
        }
        law_batch_stored(blobs, d, id);
        let words = refs_to_store(l.1@);
        assert(words.len() == l.1@.len());
        let given = l.1@.map_values(|p: (usize, &WordPosition)| (p.0, *p.1));
        assert(words =~= all_to_store(given));
        assert(items[items.len() - 1] == l);
        if l.0 == id && l.1@.len() > 0 {
            assert(holds_only(blob_of(words), words));
            let got = choose|m: Seq<StoredModel>| #[trigger] holds_only(blob_of(words), m);
            assert(holds(blob_of(words), got));
            assert(words_of(blob_of(words)) == Some(words));
            assert(has_items(with_all(blobs, items), id, given));
        } else {
            assert(loaded(with_all(blobs, items), id) == loaded(with_all(blobs, d), id));
            if forall|k: int|
                0 <= k < items.len() && (#[trigger] items[k]).0 == id ==> items[k].1@.len() == 0 {
                assert forall|k: int| 0 <= k < d.len() && (#[trigger] d[k]).0 == id implies d[k].1@.len()
                    == 0 by {
                    assert(items[k] == d[k]);
                }
            }
            assert forall|n: int|
                0 <= n < items.len() && (#[trigger] items[n]).0 == id && items[n].1@.len() > 0 && (
                forall|k: int|
                    n < k < items.len() && (#[trigger] items[k]).0 == id ==> items[k].1@.len()
                        == 0) implies has_items(
                with_all(blobs, items),
                id,
                items[n].1@.map_values(|p: (usize, &WordPosition)| (p.0, *p.1)),
            ) by {
                assert(n < d.len());
                assert(d[n] == items[n]);
                assert forall|k: int| n < k < d.len() && (#[trigger] d[k]).0 == id implies d[k].1@.len()
                    == 0 by {
                    assert(items[k] == d[k]);
                }
            }
        }
    }
}

/// The header of a block is two bytes from version 2 on, one byte in version
/// 1, and none where the block begins as a Zstandard frame does. What stands
/// behind it is read as it is. An empty block, version 0 and later versions
/// are refused.
pub proof fn law_headers(frame: Seq<u8>, flags: u8, version: u8)
    ensures
        payload(seq![2u8, flags] + frame) == Ok::<Seq<u8>, PositionError>(frame),
        payload(seq![1u8] + frame) == Ok::<Seq<u8>, PositionError>(frame),
        payload(seq![0x28u8, 0xb5, 0x2f, 0xfd] + frame) == Ok::<Seq<u8>, PositionError>(
            seq![0x28u8, 0xb5, 0x2f, 0xfd] + frame,
        ),
        payload(Seq::empty()) == Err::<Seq<u8>, PositionError>(PositionError::EmptyBlob),
        payload(seq![0u8] + frame) == Err::<Seq<u8>, PositionError>(PositionError::VersionZero),
        payload(seq![2u8]) == Err::<Seq<u8>, PositionError>(PositionError::Truncated),
        version > 2 && version != 0x28 ==> payload(seq![version] + frame) == Err::<
            Seq<u8>,
            PositionError,
        >(PositionError::Unsupported(version)),
        flags_of(seq![2u8, flags] + frame) == Some(flags),
        flags_of(seq![1u8] + frame) is None,
        flags_of(seq![0u8] + frame) is None,
        flags_of(seq![0x28u8, 0xb5, 0x2f, 0xfd] + frame) is None,
{
    let two = seq![2u8, flags] + frame;
    assert(two[0] == 2 && two[1] == flags);
    assert(two.skip(2) =~= frame);
    let one = seq![1u8] + frame;
    assert(one[0] == 1);
    assert(one.skip(1) =~= frame);
    let zero = seq![0u8] + frame;
    assert(zero[0] == 0);
    let other = seq![version] + frame;
    assert(other[0] == version);
    let mark = seq![0x28u8, 0xb5, 0x2f, 0xfd] + frame;
    assert(mark[0] == 0x28 && mark[1] == 0xb5 && mark[2] == 0x2f && mark[3] == 0xfd);
}

} // verus!
