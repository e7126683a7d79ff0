//! What extraction workers and the pipeline say to each other.
//!
//! A frame on the wire is the length of its data in four bytes, the data, and
//! the CRC-32 of the data in four bytes; numbers have their low byte first.

use vstd::prelude::*;

use crate::codec::{
    answer_bytes, answer_from_bytes, answer_to_bytes, begins, law_answer_readable, word_model,
    AnswerModel, AnswerRow, WordModel, WordRow,
};
use crate::extractor::WordPosition;
use crate::output::DocumentRecord;
use crate::pipeline::report::{crc_mismatch, crc_mismatch_message};

verus! {

/// What a worker extracted from one file.
#[derive(Debug)]
pub struct WorkerOutput {
    pub path: String,
    pub checksum: String,
    pub ocr_flag: bool,
    pub text: String,
    pub word_positions: Vec<WordPosition>,
    /// Milliseconds that the extraction took.
    pub file_extraction_ms: u64,
    pub page_count: u32,
}

/// The answer of a worker for one file.
#[derive(Debug)]
pub enum WorkerFrame {
    Success(WorkerOutput),
    Error { path: String, message: String },
}

/// The record that a worker's output becomes under the id of its job.
pub open spec fn record_of(id: i64, wo: WorkerOutput) -> DocumentRecord {
    DocumentRecord {
        id,
        path: wo.path,
        checksum: wo.checksum,
        ocr_flag: wo.ocr_flag,
        text: wo.text,
        word_positions: wo.word_positions,
        file_extraction_ms: wo.file_extraction_ms,
        page_count: wo.page_count,
    }
}

/// The record that a worker's output becomes under the id of its job.
pub fn into_record(id: i64, wo: WorkerOutput) -> (r: DocumentRecord)
    ensures
        r == record_of(id, wo),
{
    DocumentRecord {
        id,
        path: wo.path,
        checksum: wo.checksum,
        ocr_flag: wo.ocr_flag,
        text: wo.text,
        word_positions: wo.word_positions,
        file_extraction_ms: wo.file_extraction_ms,
        page_count: wo.page_count,
    }
}

// ---------------------------------------------------------------------------
// CRC-32
// ---------------------------------------------------------------------------

/// The polynomial of CRC-32, low bit first.
pub const CRC_POLYNOMIAL: u32 = 0xedb8_8320;

/// One bit of the division by the polynomial.
pub open spec fn crc_bit(crc: u32) -> u32 {
    if crc & 1 == 1 {
        (crc >> 1) ^ CRC_POLYNOMIAL
    } else {
        crc >> 1
    }
}

/// `n` bits of the division by the polynomial.
pub open spec fn crc_bits(crc: u32, n: nat) -> u32
    decreases n,
{
    if n == 0 {
        crc
    } else {
        crc_bit(crc_bits(crc, (n - 1) as nat))
    }
}

/// The remainder after the bytes of `data`.
pub open spec fn crc_register(data: Seq<u8>) -> u32
    decreases data.len(),
{
    if data.len() == 0 {
        0xffff_ffff
    } else {
        crc_bits(crc_register(data.drop_last()) ^ (data.last() as u32), 8)
    }
}

/// The CRC-32 of `data`.
pub open spec fn crc32(data: Seq<u8>) -> u32 {
    crc_register(data) ^ 0xffff_ffff
}

/// The CRC-32 of the data of a frame.
pub fn frame_crc32(data: &[u8]) -> (crc: u32)
    ensures
        crc == crc32(data@),
{
    let mut crc: u32 = 0xffff_ffff;
    let mut i: usize = 0;
    assert(data@.take(0) =~= Seq::empty());
    while i < data.len()
        invariant
            i <= data@.len(),
            crc == crc_register(data@.take(i as int)),
        decreases data@.len() - i,
    {
        let ghost before = crc;
        crc = crc ^ (data[i] as u32);
        let ghost start = crc;
        let mut n: u32 = 0;
        while n < 8
            invariant
                n <= 8,
                crc == crc_bits(start, n as nat),
            decreases 8 - n,
        {
            if crc & 1 == 1 {
                crc = (crc >> 1) ^ CRC_POLYNOMIAL;
            } else {
                crc = crc >> 1;
            }
            n += 1;
        }
        assert(data@.take(i + 1).drop_last() =~= data@.take(i as int));
        i += 1;
    }
    assert(data@.take(i as int) =~= data@);
    crc ^ 0xffff_ffff
}

// ---------------------------------------------------------------------------
// Frames
// ---------------------------------------------------------------------------

/// A number in four bytes, low byte first.
pub open spec fn le_bytes(n: u32) -> Seq<u8> {
    seq![
        (n & 0xff) as u8,
        ((n >> 8) & 0xff) as u8,
        ((n >> 16) & 0xff) as u8,
        ((n >> 24) & 0xff) as u8,
    ]
}

/// The number in the first four bytes, low byte first.
pub open spec fn from_le(b: Seq<u8>) -> u32 {
    (b[0] as u32) | ((b[1] as u32) << 8) | ((b[2] as u32) << 16) | ((b[3] as u32) << 24)
}

/// The frame around `data`.
pub open spec fn frame_of(data: Seq<u8>) -> Seq<u8> {
    le_bytes(data.len() as u32) + data + le_bytes(crc32(data))
}

/// What is found at the front of a stream of bytes.
pub enum Framed {
    /// The data of a whole frame with the right checksum.
    Data(Seq<u8>),
    /// The stream ends inside the frame.
    Truncated,
    /// The checksum does not fit the data.
    Corrupt { expected: u32, actual: u32, len: int },
}

/// What is found at the front of a stream of bytes.
pub open spec fn framed(bytes: Seq<u8>) -> Framed {
    if bytes.len() < 4 || bytes.len() < from_le(bytes) + 8 {
        Framed::Truncated
    } else {
        let n = from_le(bytes) as int;
        let data = bytes.subrange(4, 4 + n);
        let expected = from_le(bytes.skip(4 + n));
        if expected != crc32(data) {
            Framed::Corrupt { expected, actual: crc32(data), len: n }
        } else {
            Framed::Data(data)
        }
    }
}

/// Why no answer could be read.
#[derive(Debug)]
pub enum FrameError {
    /// The stream ends inside the frame.
    Truncated,
    /// The checksum does not fit the data.
    Corrupt { expected: u32, actual: u32, len: usize },
    /// The data is no answer.
    Undecodable(String),
}

/// The text of an error.
pub open spec fn frame_error_text(e: FrameError) -> Seq<char> {
    match e {
        FrameError::Truncated => "failed to fill whole buffer"@,
        FrameError::Corrupt { expected, actual, len } => crc_mismatch(expected, actual, len as nat),
        FrameError::Undecodable(m) => m@,
    }
}

impl FrameError {
    /// The text of the error.
    pub fn message(&self) -> (s: String)
        ensures
            s@ == frame_error_text(*self),
    {
        match self {
            FrameError::Truncated => "failed to fill whole buffer".to_owned(),
            FrameError::Corrupt { expected, actual, len } => crc_mismatch_message(
                *expected,
                *actual,
                *len,
            ),
            FrameError::Undecodable(m) => m.clone(),
        }
    }
}

fn push_le(out: &mut Vec<u8>, n: u32)
    ensures
        final(out)@ == old(out)@ + le_bytes(n),
{
    out.push((n & 0xff) as u8);
    out.push(((n >> 8) & 0xff) as u8);
    out.push(((n >> 16) & 0xff) as u8);
    out.push(((n >> 24) & 0xff) as u8);
    assert(out@ =~= old(out)@ + le_bytes(n));
}

fn read_le(b: &[u8], at: usize) -> (n: u32)
    requires
        at + 4 <= b@.len(),
    ensures
        n == from_le(b@.skip(at as int)),
{
    (b[at] as u32) | ((b[at + 1] as u32) << 8) | ((b[at + 2] as u32) << 16) | ((b[at + 3] as u32)
        << 24)
}

/// Puts a frame around `data`.
pub fn encode_frame(data: &[u8]) -> (frame: Vec<u8>)
    requires
        data@.len() <= u32::MAX,
    ensures
        frame@ == frame_of(data@),
{
    let mut out: Vec<u8> = Vec::new();
    push_le(&mut out, data.len() as u32);
    let mut i: usize = 0;
    while i < data.len()
        invariant
            i <= data@.len() <= u32::MAX,
            out@ == le_bytes(data@.len() as u32) + data@.take(i as int),
        decreases data@.len() - i,
    {
        out.push(data[i]);
        assert(out@ =~= le_bytes(data@.len() as u32) + data@.take(i + 1));
        i += 1;
    }
    assert(data@.take(i as int) =~= data@);
    push_le(&mut out, frame_crc32(data));
    out
}

/// How many bytes of data a frame announces in its first four bytes.
pub fn frame_data_len(header: &[u8]) -> (n: usize)
    requires
        header@.len() >= 4,
    ensures
        n == from_le(header@),
{
    assert(header@.skip(0) =~= header@);
    read_le(header, 0) as usize
}

/// Takes the data out of the frame at the front of `bytes`.
pub fn unframe(bytes: &[u8]) -> (r: Result<Vec<u8>, FrameError>)
    ensures
        match framed(bytes@) {
            Framed::Data(data) => r matches Ok(d) && d@ == data,
            Framed::Truncated => r matches Err(FrameError::Truncated),
            Framed::Corrupt { expected, actual, len } => r matches Err(
                FrameError::Corrupt { expected: e, actual: a, len: n },
            ) && e == expected && a == actual && n == len,
        },
{
    if bytes.len() < 4 {
        return Err(FrameError::Truncated);
    }
    let n = frame_data_len(bytes);
    if bytes.len() - 4 < 4 || bytes.len() - 8 < n {
        return Err(FrameError::Truncated);
    }
    let data = vstd::slice::slice_subrange(bytes, 4, 4 + n);
    let expected = read_le(bytes, 4 + n);
    let actual = frame_crc32(data);
    if actual != expected {
        Err(FrameError::Corrupt { expected, actual, len: n })
    } else {
        Ok(vstd::slice::slice_to_vec(data))
    }
}

proof fn lemma_le(n: u32, rest: Seq<u8>)
    ensures
        from_le(le_bytes(n) + rest) == n,
{
    let b = le_bytes(n) + rest;
    assert(b[0] == (n & 0xff) as u8);
    assert(b[1] == ((n >> 8) & 0xff) as u8);
    assert(b[2] == ((n >> 16) & 0xff) as u8);
    assert(b[3] == ((n >> 24) & 0xff) as u8);
    assert((((n & 0xff) as u8) as u32) | ((((n >> 8) & 0xff) as u8) as u32) << 8 | ((((n >> 16)
        & 0xff) as u8) as u32) << 16 | ((((n >> 24) & 0xff) as u8) as u32) << 24 == n)
        by (bit_vector);
}

/// Reading gives back what was framed, whatever follows the frame.
pub proof fn law_frame_round_trip(data: Seq<u8>, rest: Seq<u8>)
    requires
        data.len() <= u32::MAX,
    ensures
        framed(frame_of(data) + rest) == Framed::Data(data),
{
    let n = data.len() as u32;
    let bytes = frame_of(data) + rest;
    assert(bytes =~= le_bytes(n) + (data + le_bytes(crc32(data)) + rest));
    lemma_le(n, data + le_bytes(crc32(data)) + rest);
    assert(bytes.subrange(4, 4 + n) =~= data);
    assert(bytes.skip(4 + n) =~= le_bytes(crc32(data)) + rest);
    lemma_le(crc32(data), rest);
}

/// A frame that was cut short is never taken for a whole one.
pub proof fn law_cut_frame(data: Seq<u8>, cut: int)
    requires
        data.len() <= u32::MAX,
        0 <= cut < frame_of(data).len(),
    ensures
        framed(frame_of(data).take(cut)) == Framed::Truncated,
{
    let n = data.len() as u32;
    let bytes = frame_of(data).take(cut);
    assert(frame_of(data) =~= le_bytes(n) + (data + le_bytes(crc32(data))));
    lemma_le(n, data + le_bytes(crc32(data)));
    if cut >= 4 {
        assert(from_le(bytes) == from_le(frame_of(data))) by {
            assert(bytes[0] == frame_of(data)[0]);
            assert(bytes[1] == frame_of(data)[1]);
            assert(bytes[2] == frame_of(data)[2]);
            assert(bytes[3] == frame_of(data)[3]);
        }
    }
}

// ---------------------------------------------------------------------------
// Answers
// ---------------------------------------------------------------------------

/// What the position of a word says.
pub open spec fn position_model(p: WordPosition) -> WordModel {
    (p.page, p.x_min, p.y_min, p.x_max, p.y_max, p.text@)
}

/// What the answer of a worker says.
pub open spec fn frame_model(f: WorkerFrame) -> AnswerModel {
    match f {
        WorkerFrame::Success(wo) => Ok(
            (
                wo.path@,
                wo.checksum@,
                wo.ocr_flag,
                wo.text@,
                wo.word_positions@.map_values(|p: WordPosition| position_model(p)),
                wo.file_extraction_ms,
                wo.page_count,
            ),
        ),
        WorkerFrame::Error { path, message } => Err((path@, message@)),
    }
}

fn rows_of(words: Vec<WordPosition>) -> (rows: Vec<WordRow>)
    ensures
        rows@.map_values(|w: WordRow| word_model(w)) == words@.map_values(
            |p: WordPosition| position_model(p),
        ),
{
    let ghost given = words@;
    let mut rows: Vec<WordRow> = Vec::new();
    for p in it: words
        invariant
            it.seq() == given,
            rows@.len() == it.index(),
            forall|k: int|
                0 <= k < rows@.len() ==> word_model(#[trigger] rows@[k]) == position_model(given[k]),
    {
        rows.push((p.page, p.x_min, p.y_min, p.x_max, p.y_max, p.text));
    }
    assert(rows@.map_values(|w: WordRow| word_model(w)) =~= given.map_values(
        |p: WordPosition| position_model(p),
    ));
    rows
}

fn positions_of(rows: Vec<WordRow>) -> (words: Vec<WordPosition>)
    ensures
        rows@.map_values(|w: WordRow| word_model(w)) == words@.map_values(
            |p: WordPosition| position_model(p),
        ),
{
    let ghost given = rows@;
    let mut words: Vec<WordPosition> = Vec::new();
    for r in it: rows
        invariant
            it.seq() == given,
            words@.len() == it.index(),
            forall|k: int|
                0 <= k < words@.len() ==> word_model(given[k]) == position_model(#[trigger] words@[k]),
    {
        let (page, x_min, y_min, x_max, y_max, text) = r;
        words.push(WordPosition { page, x_min, y_min, x_max, y_max, text });
    }
    assert(given.map_values(|w: WordRow| word_model(w)) =~= words@.map_values(
        |p: WordPosition| position_model(p),
    ));
    words
}

/// The bytes of a worker's answer.
pub fn encode_answer(frame: WorkerFrame) -> (r: Result<Vec<u8>, String>)
    ensures
        r matches Ok(b) && b@ == answer_bytes(frame_model(frame)),
{
    let answer: AnswerRow = match frame {
        WorkerFrame::Success(wo) => Ok(
            (
                wo.path,
                wo.checksum,
                wo.ocr_flag,
                wo.text,
                rows_of(wo.word_positions),
                wo.file_extraction_ms,
                wo.page_count,
            ),
        ),
        WorkerFrame::Error { path, message } => Err((path, message)),
    };
    answer_to_bytes(&answer)
}

/// Reads a worker's answer. It succeeds exactly where the bytes begin with
/// those of an answer.
pub fn decode_answer(bytes: &[u8]) -> (r: Result<WorkerFrame, String>)
    ensures
        match r {
            Ok(f) => begins(bytes@, answer_bytes(frame_model(f))),
            Err(_) => forall|m: AnswerModel| !begins(bytes@, #[trigger] answer_bytes(m)),
        },
{
    match answer_from_bytes(bytes) {
        Ok(Ok((path, checksum, ocr_flag, text, rows, file_extraction_ms, page_count))) => {
            let word_positions = positions_of(rows);
            Ok(
                WorkerFrame::Success(
                    WorkerOutput {
                        path,
                        checksum,
                        ocr_flag,
                        text,
                        word_positions,
                        file_extraction_ms,
                        page_count,
                    },
                ),
            )
        },
        Ok(Err((path, message))) => Ok(WorkerFrame::Error { path, message }),
        Err(e) => Err(e),
    }
}

/// Whether `r` is what reading an answer from the front of `bytes` gives.
pub open spec fn is_answer_read(bytes: Seq<u8>, r: Result<WorkerFrame, FrameError>) -> bool {
    match framed(bytes) {
        Framed::Truncated => r matches Err(FrameError::Truncated),
        Framed::Corrupt { expected, actual, len } => r matches Err(
            FrameError::Corrupt { expected: e, actual: a, len: n },
        ) && e == expected && a == actual && n == len,
        Framed::Data(data) => match r {
            Ok(f) => begins(data, answer_bytes(frame_model(f))),
            Err(e) => e is Undecodable && forall|m: AnswerModel|
                !begins(data, #[trigger] answer_bytes(m)),
        },
    }
}

/// Reads the answer of a worker from the front of `bytes`.
pub fn read_frame(bytes: &[u8]) -> (r: Result<WorkerFrame, FrameError>)
    ensures
        is_answer_read(bytes@, r),
{
    match unframe(bytes) {
        Err(e) => Err(e),
        Ok(data) => match decode_answer(data.as_slice()) {
            Ok(f) => Ok(f),
            Err(m) => Err(FrameError::Undecodable(m)),
        },
    }
}

/// The answer of a worker as it goes over the wire. There is none where it has
/// more bytes than a frame can say.
pub fn write_frame(frame: WorkerFrame) -> (r: Result<Vec<u8>, String>)
    ensures
        match r {
            Ok(b) => answer_bytes(frame_model(frame)).len() <= u32::MAX && b@ == frame_of(
                answer_bytes(frame_model(frame)),
            ),
            Err(_) => answer_bytes(frame_model(frame)).len() > u32::MAX,
        },
{
    match encode_answer(frame) {
        Err(e) => Err(e),
        Ok(data) => if data.len() <= u32::MAX as usize {
            Ok(encode_frame(data.as_slice()))
        } else {
            Err("the answer is too long for a frame".to_owned())
        },
    }
}

/// An answer that goes over the wire is read, whatever follows it, and says
/// what was sent.
pub proof fn law_answer_round_trip(
    sent: WorkerFrame,
    rest: Seq<u8>,
    r: Result<WorkerFrame, FrameError>,
)
    requires
        answer_bytes(frame_model(sent)).len() <= u32::MAX,
        is_answer_read(frame_of(answer_bytes(frame_model(sent))) + rest, r),
    ensures
        r matches Ok(got) && frame_model(got) == frame_model(sent),
{
    let data = answer_bytes(frame_model(sent));
    law_frame_round_trip(data, rest);
    assert(data.take(data.len() as int) =~= data);
    assert(begins(data, answer_bytes(frame_model(sent))));
    if let Ok(got) = r {
        law_answer_readable(frame_model(sent), frame_model(got), data);
    }
}

/// Whether two words have the same page, the same edges and the same text.
pub open spec fn is_same_word(a: WordPosition, b: WordPosition) -> bool {
    &&& a.page == b.page
    &&& a.x_min == b.x_min
    &&& a.y_min == b.y_min
    &&& a.x_max == b.x_max
    &&& a.y_max == b.y_max
    &&& a.text@ == b.text@
}

/// Whether two answers say the same.
pub open spec fn is_same_answer(a: WorkerFrame, b: WorkerFrame) -> bool {
    match (a, b) {
        (WorkerFrame::Success(x), WorkerFrame::Success(y)) => {
            &&& x.path@ == y.path@
            &&& x.checksum@ == y.checksum@
            &&& x.ocr_flag == y.ocr_flag
            &&& x.text@ == y.text@
            &&& x.word_positions@.len() == y.word_positions@.len()
            &&& forall|i: int|
                0 <= i < x.word_positions@.len() ==> is_same_word(
                    #[trigger] x.word_positions@[i],
                    y.word_positions@[i],
                )
            &&& x.file_extraction_ms == y.file_extraction_ms
            &&& x.page_count == y.page_count
        },
        (
            WorkerFrame::Error { path: p, message: m },
            WorkerFrame::Error { path: q, message: n },
        ) => p@ == q@ && m@ == n@,
        _ => false,
    }
}

/// An answer that was sent is read back with all that it says: the file, its
/// text and every word with its place.
pub proof fn law_answer_comes_back(
    sent: WorkerFrame,
    rest: Seq<u8>,
    r: Result<WorkerFrame, FrameError>,
)
    requires
        answer_bytes(frame_model(sent)).len() <= u32::MAX,
        is_answer_read(frame_of(answer_bytes(frame_model(sent))) + rest, r),
    ensures
        r matches Ok(got) && is_same_answer(got, sent),
{
    law_answer_round_trip(sent, rest, r);
    let got = r->Ok_0;
    if let (WorkerFrame::Success(x), WorkerFrame::Success(y)) = (got, sent) {
        let f = |p: WordPosition| position_model(p);
        let a = x.word_positions@.map_values(f);
        let b = y.word_positions@.map_values(f);
        assert(a == b);
        assert(a.len() == x.word_positions@.len() && b.len() == y.word_positions@.len());
        assert forall|i: int| 0 <= i < x.word_positions@.len() implies is_same_word(
            #[trigger] x.word_positions@[i],
            y.word_positions@[i],
        ) by {
            assert(a[i] == position_model(x.word_positions@[i]));
            assert(b[i] == position_model(y.word_positions@[i]));
        }
    }
}

/// The record of a file has the id of its job and, for the rest, what the
/// worker said of the file.
pub proof fn law_record_of_answer(id: i64, wo: WorkerOutput)
    ensures
        ({
            let r = record_of(id, wo);
            &&& r.id == id
            &&& r.path@ == wo.path@
            &&& r.checksum@ == wo.checksum@
            &&& r.ocr_flag == wo.ocr_flag
            &&& r.text@ == wo.text@
            &&& r.word_positions@ == wo.word_positions@
            &&& r.file_extraction_ms == wo.file_extraction_ms
            &&& r.page_count == wo.page_count
        }),
{
}

/// A frame is eight bytes longer than its data: four bytes before it say how
/// long it is, lowest first, and four follow.
pub proof fn law_frame_layout(data: Seq<u8>)
    requires
        data.len() <= u32::MAX,
    ensures
        frame_of(data).len() == data.len() + 8,
        frame_of(data).subrange(4, 4 + data.len() as int) == data,
        frame_of(data)[0] + 0x100 * frame_of(data)[1] + 0x1_0000 * frame_of(data)[2] + 0x100_0000
            * frame_of(data)[3] == data.len(),
{
    let n = data.len() as u32;
    let f = frame_of(data);
    assert(f.subrange(4, 4 + data.len() as int) =~= data);
    assert((n & 0xff) as u8 + 0x100 * (((n >> 8) & 0xff) as u8) + 0x1_0000 * (((n >> 16) & 0xff)
        as u8) + 0x100_0000 * (((n >> 24) & 0xff) as u8) == n) by (bit_vector);
}

/// Data with another checksum behind it is never taken for good: the error has
/// the checksum that was sent, the one of the data, and the length.
pub proof fn law_corrupt_frame(
    data: Seq<u8>,
    wrong: u32,
    rest: Seq<u8>,
    r: Result<WorkerFrame, FrameError>,
)
    requires
        data.len() <= u32::MAX,
        wrong != crc32(data),
        is_answer_read(le_bytes(data.len() as u32) + data + le_bytes(wrong) + rest, r),
    ensures
        framed(le_bytes(data.len() as u32) + data + le_bytes(wrong) + rest) == (Framed::Corrupt {
            expected: wrong,
            actual: crc32(data),
            len: data.len() as int,
        }),
        r matches Err(FrameError::Corrupt { expected, actual, len }) && expected == wrong && actual
            == crc32(data) && len == data.len(),
{
    let n = data.len() as u32;
    let bytes = le_bytes(n) + data + le_bytes(wrong) + rest;
    assert(bytes =~= le_bytes(n) + (data + le_bytes(wrong) + rest));
    lemma_le(n, data + le_bytes(wrong) + rest);
    assert(bytes.subrange(4, 4 + n) =~= data);
    assert(bytes.skip(4 + n) =~= le_bytes(wrong) + rest);
    lemma_le(wrong, rest);
}

/// A stream that ends inside a frame is told as such, wherever it ends.
pub proof fn law_cut_answer(sent: WorkerFrame, cut: int, r: Result<WorkerFrame, FrameError>)
    requires
        answer_bytes(frame_model(sent)).len() <= u32::MAX,
        0 <= cut < frame_of(answer_bytes(frame_model(sent))).len(),
        is_answer_read(frame_of(answer_bytes(frame_model(sent))).take(cut), r),
    ensures
        r matches Err(FrameError::Truncated),
{
    law_cut_frame(answer_bytes(frame_model(sent)), cut);
}

/// The checksum is fed bit by bit, lowest first, and the register is inverted
/// at both ends: without data it is zero, and each byte changes the register by
/// eight steps.
pub proof fn law_checksum_by_bytes(data: Seq<u8>, byte: u8)
    ensures
        crc32(Seq::empty()) == 0,
        crc32(data.push(byte)) == crc_bits((crc32(data) ^ 0xffff_ffff) ^ (byte as u32), 8)
            ^ 0xffff_ffff,
{
    assert(data.push(byte).drop_last() =~= data);
    assert(0xffff_ffffu32 ^ 0xffff_ffffu32 == 0) by (bit_vector);
    let x = crc_register(data);
    assert((x ^ 0xffff_ffff) ^ 0xffff_ffff == x) by (bit_vector);
}

} // verus!
