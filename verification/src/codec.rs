//! Records as bytes: numbers with their low byte first, a flag as one byte,
//! text as its length and its UTF-8, lists as their length and their items.

use vstd::prelude::*;

verus! {

// ---------------------------------------------------------------------------
// Items
// ---------------------------------------------------------------------------

/// A value on the wire.
pub enum Item {
    Long(u64),
    Word(u32),
    Flag(bool),
    Text(Seq<char>),
}

/// The bytes of a value.
pub open spec fn item_bytes(item: Item) -> Seq<u8> {
    match item {
        Item::Long(n) => vstd::bytes::spec_u64_to_le_bytes(n),
        Item::Word(n) => vstd::bytes::spec_u32_to_le_bytes(n),
        Item::Flag(b) => seq![
            if b {
                1u8
            } else {
                0u8
            },
        ],
        Item::Text(s) => {
            let utf8 = vstd::utf8::encode_utf8(s);
            vstd::bytes::spec_u64_to_le_bytes(utf8.len() as u64) + utf8
        },
    }
}

/// The bytes of values, one behind the other.
pub open spec fn bytes_of(items: Seq<Item>) -> Seq<u8>
    decreases items.len(),
{
    if items.len() == 0 {
        Seq::empty()
    } else {
        item_bytes(items[0]) + bytes_of(items.drop_first())
    }
}

/// The values of the rows of a list, one row behind the other.
pub open spec fn flat(rows: Seq<Seq<Item>>) -> Seq<Item>
    decreases rows.len(),
{
    if rows.len() == 0 {
        Seq::empty()
    } else {
        rows[0] + flat(rows.drop_first())
    }
}

/// The values of a list: its length and its rows.
pub open spec fn list_items(rows: Seq<Seq<Item>>) -> Seq<Item> {
    seq![Item::Long(rows.len() as u64)] + flat(rows)
}

/// Whether two values are of one kind.
pub open spec fn same_kind(a: Item, b: Item) -> bool {
    match (a, b) {
        (Item::Long(_), Item::Long(_)) => true,
        (Item::Word(_), Item::Word(_)) => true,
        (Item::Flag(_), Item::Flag(_)) => true,
        (Item::Text(_), Item::Text(_)) => true,
        _ => false,
    }
}

/// Whether values are of the same kinds in the same order.
pub open spec fn same_shape(a: Seq<Item>, b: Seq<Item>) -> bool {
    a.len() == b.len() && forall|i: int| 0 <= i < a.len() ==> same_kind(#[trigger] a[i], b[i])
}

/// Whether `front` is the beginning of `bytes`.
pub open spec fn begins(bytes: Seq<u8>, front: Seq<u8>) -> bool {
    front.len() <= bytes.len() && bytes.take(front.len() as int) == front
}

proof fn lemma_item(a: Item, b: Item, x: Seq<u8>, y: Seq<u8>)
    requires
        same_kind(a, b),
        item_bytes(a) + x == item_bytes(b) + y,
        item_bytes(a).len() <= u64::MAX,
        item_bytes(b).len() <= u64::MAX,
    ensures
        a == b,
        x == y,
{
    vstd::bytes::lemma_auto_spec_u64_to_from_le_bytes();
    vstd::bytes::lemma_auto_spec_u32_to_from_le_bytes();
    let p = item_bytes(a) + x;
    let q = item_bytes(b) + y;
    match (a, b) {
        (Item::Long(n), Item::Long(m)) => {
            assert(p.take(8) =~= item_bytes(a));
            assert(q.take(8) =~= item_bytes(b));
        },
        (Item::Word(n), Item::Word(m)) => {
            assert(p.take(4) =~= item_bytes(a));
            assert(q.take(4) =~= item_bytes(b));
        },
        (Item::Flag(n), Item::Flag(m)) => {
            assert(p[0] == item_bytes(a)[0]);
            assert(q[0] == item_bytes(b)[0]);
        },
        (Item::Text(s), Item::Text(t)) => {
            let u = vstd::utf8::encode_utf8(s);
            let v = vstd::utf8::encode_utf8(t);
            assert(p.take(8) =~= vstd::bytes::spec_u64_to_le_bytes(u.len() as u64));
            assert(q.take(8) =~= vstd::bytes::spec_u64_to_le_bytes(v.len() as u64));
            assert(u.len() == v.len());
            assert(p.subrange(8, 8 + u.len() as int) =~= u);
            assert(q.subrange(8, 8 + v.len() as int) =~= v);
            vstd::utf8::encode_utf8_decode_utf8(s);
            vstd::utf8::encode_utf8_decode_utf8(t);
        },
        _ => {},
    }
    assert(item_bytes(a).len() == item_bytes(b).len());
    assert(p.skip(item_bytes(a).len() as int) =~= x);
    assert(q.skip(item_bytes(b).len() as int) =~= y);
}

/// Values of known kinds can be read back from their bytes in one way only.
pub proof fn law_items_readable(a: Seq<Item>, b: Seq<Item>, x: Seq<u8>, y: Seq<u8>)
    requires
        same_shape(a, b),
        bytes_of(a) + x == bytes_of(b) + y,
        bytes_of(a).len() <= u64::MAX,
        bytes_of(b).len() <= u64::MAX,
    ensures
        a == b,
        x == y,
    decreases a.len(),
{
    if a.len() == 0 {
        assert(bytes_of(a) + x =~= x);
        assert(bytes_of(b) + y =~= y);
        assert(a =~= b);
    } else {
        let ra = a.drop_first();
        let rb = b.drop_first();
        assert(same_kind(a[0], b[0]));
        assert(item_bytes(a[0]) + (bytes_of(ra) + x) =~= bytes_of(a) + x);
        assert(item_bytes(b[0]) + (bytes_of(rb) + y) =~= bytes_of(b) + y);
        lemma_item(a[0], b[0], bytes_of(ra) + x, bytes_of(rb) + y);
        assert forall|i: int| 0 <= i < ra.len() implies same_kind(#[trigger] ra[i], rb[i]) by {
            assert(same_kind(a[i + 1], b[i + 1]));
        }
        law_items_readable(ra, rb, x, y);
        assert(a =~= seq![a[0]] + ra);
        assert(b =~= seq![b[0]] + rb);
    }
}

proof fn lemma_bytes_add(a: Seq<Item>, b: Seq<Item>)
    ensures
        bytes_of(a + b) == bytes_of(a) + bytes_of(b),
    decreases a.len(),
{
    if a.len() == 0 {
        assert(a + b =~= b);
        assert(bytes_of(a) + bytes_of(b) =~= bytes_of(b));
    } else {
        lemma_bytes_add(a.drop_first(), b);
        assert((a + b).drop_first() =~= a.drop_first() + b);
        assert(bytes_of(a + b) =~= bytes_of(a) + bytes_of(b));
    }
}

/// Whether all rows are of the same shape as `shape`.
pub open spec fn shaped(rows: Seq<Seq<Item>>, shape: Seq<Item>) -> bool {
    forall|i: int| 0 <= i < rows.len() ==> same_shape(#[trigger] rows[i], shape)
}

proof fn lemma_flat(a: Seq<Seq<Item>>, b: Seq<Seq<Item>>, shape: Seq<Item>, x: Seq<u8>, y: Seq<u8>)
    requires
        shaped(a, shape),
        shaped(b, shape),
        a.len() == b.len(),
        bytes_of(flat(a)) + x == bytes_of(flat(b)) + y,
        bytes_of(flat(a)).len() <= u64::MAX,
        bytes_of(flat(b)).len() <= u64::MAX,
    ensures
        a == b,
        x == y,
    decreases a.len(),
{
    if a.len() == 0 {
        assert(bytes_of(flat(a)) + x =~= x);
        assert(bytes_of(flat(b)) + y =~= y);
        assert(a =~= b);
    } else {
        let ra = a.drop_first();
        let rb = b.drop_first();
        lemma_bytes_add(a[0], flat(ra));
        lemma_bytes_add(b[0], flat(rb));
        assert(bytes_of(a[0]) + (bytes_of(flat(ra)) + x) =~= bytes_of(flat(a)) + x);
        assert(bytes_of(b[0]) + (bytes_of(flat(rb)) + y) =~= bytes_of(flat(b)) + y);
        assert(same_shape(a[0], b[0])) by {
            assert(same_shape(a[0], shape));
            assert(same_shape(b[0], shape));
            assert forall|i: int| 0 <= i < a[0].len() implies same_kind(#[trigger] a[0][i], b[0][i]) by {
                assert(same_kind(b[0][i], shape[i]));
            }
        }
        law_items_readable(a[0], b[0], bytes_of(flat(ra)) + x, bytes_of(flat(rb)) + y);
        assert forall|i: int| 0 <= i < ra.len() implies same_shape(#[trigger] ra[i], shape) by {
            assert(same_shape(a[i + 1], shape));
        }
        assert forall|i: int| 0 <= i < rb.len() implies same_shape(#[trigger] rb[i], shape) by {
            assert(same_shape(b[i + 1], shape));
        }
        lemma_flat(ra, rb, shape, x, y);
        assert(a =~= seq![a[0]] + ra);
        assert(b =~= seq![b[0]] + rb);
    }
}

proof fn lemma_flat_len(rows: Seq<Seq<Item>>, shape: Seq<Item>)
    requires
        shaped(rows, shape),
        shape.len() > 0,
    ensures
        rows.len() <= bytes_of(flat(rows)).len(),
    decreases rows.len(),
{
    if rows.len() > 0 {
        vstd::bytes::lemma_auto_spec_u64_to_from_le_bytes();
        vstd::bytes::lemma_auto_spec_u32_to_from_le_bytes();
        let rest = rows.drop_first();
        assert forall|i: int| 0 <= i < rest.len() implies same_shape(#[trigger] rest[i], shape) by {
            assert(same_shape(rows[i + 1], shape));
        }
        lemma_flat_len(rest, shape);
        lemma_bytes_add(rows[0], flat(rest));
        assert(same_shape(rows[0], shape));
        assert(item_bytes(rows[0][0]).len() >= 1);
    }
}

/// A list with rows of one shape can be read back from its bytes in one way
/// only.
pub proof fn law_list_readable(
    a: Seq<Seq<Item>>,
    b: Seq<Seq<Item>>,
    shape: Seq<Item>,
    x: Seq<u8>,
    y: Seq<u8>,
)
    requires
        shape.len() > 0,
        shaped(a, shape),
        shaped(b, shape),
        bytes_of(list_items(a)) + x == bytes_of(list_items(b)) + y,
        bytes_of(list_items(a)).len() <= u64::MAX,
        bytes_of(list_items(b)).len() <= u64::MAX,
    ensures
        a == b,
        x == y,
{
    let la = Item::Long(a.len() as u64);
    let lb = Item::Long(b.len() as u64);
    assert(list_items(a).drop_first() =~= flat(a));
    assert(list_items(b).drop_first() =~= flat(b));
    assert(item_bytes(la) + (bytes_of(flat(a)) + x) =~= bytes_of(list_items(a)) + x);
    assert(item_bytes(lb) + (bytes_of(flat(b)) + y) =~= bytes_of(list_items(b)) + y);
    vstd::bytes::lemma_auto_spec_u64_to_from_le_bytes();
    lemma_item(la, lb, bytes_of(flat(a)) + x, bytes_of(flat(b)) + y);
    lemma_flat_len(a, shape);
    lemma_flat_len(b, shape);
    assert(a.len() == b.len());
    lemma_flat(a, b, shape, x, y);
}

// ---------------------------------------------------------------------------
// Stored words
// ---------------------------------------------------------------------------

/// A word with its place in the text and its box: offset, page, the four
/// coordinates and the text.
pub type StoredRow = (usize, u32, u32, u32, u32, u32, String);

/// What a stored word says.
pub type StoredModel = (usize, u32, u32, u32, u32, u32, Seq<char>);

/// What a stored word says.
pub open spec fn stored_model(r: StoredRow) -> StoredModel {
    (r.0, r.1, r.2, r.3, r.4, r.5, r.6@)
}

/// What stored words say.
pub open spec fn stored_models(rows: Seq<StoredRow>) -> Seq<StoredModel> {
    rows.map_values(|r: StoredRow| stored_model(r))
}

/// The values of a stored word.
pub open spec fn stored_items(m: StoredModel) -> Seq<Item> {
    seq![
        Item::Long(m.0 as u64),
        Item::Word(m.1),
        Item::Word(m.2),
        Item::Word(m.3),
        Item::Word(m.4),
        Item::Word(m.5),
        Item::Text(m.6),
    ]
}

/// The bytes of a list of stored words.
pub open spec fn stored_bytes(words: Seq<StoredModel>) -> Seq<u8> {
    bytes_of(list_items(words.map_values(|m: StoredModel| stored_items(m))))
}

/// `bincode::serialize` on stored words: numbers in little-endian order of
/// their full width, lengths as numbers of 64 bits, the fields of a row one
/// behind the other. Without a limit, and with lists that know their length,
/// it does not fail.
#[verifier::external_body]
pub(crate) fn stored_to_bytes(rows: &Vec<StoredRow>) -> (r: Result<Vec<u8>, String>)
    ensures
        r is Ok,
        r matches Ok(b) ==> b@ == stored_bytes(stored_models(rows@)),
{
    bincode::serialize(rows).map_err(|e| e.to_string())
}

/// `bincode::deserialize` to stored words: it succeeds exactly where the bytes
/// begin with those of a list of such words, and then gives that list.
#[verifier::external_body]
pub(crate) fn stored_from_bytes(bytes: &[u8]) -> (r: Result<Vec<StoredRow>, String>)
    ensures
        match r {
            Ok(rows) => begins(bytes@, stored_bytes(stored_models(rows@))),
            Err(_) => forall|m: Seq<StoredModel>| !begins(bytes@, #[trigger] stored_bytes(m)),
        },
{
    bincode::deserialize(bytes).map_err(|e| e.to_string())
}

/// Stored words can be read back from their bytes in one way only.
pub proof fn law_stored_readable(a: Seq<StoredModel>, b: Seq<StoredModel>, bytes: Seq<u8>)
    requires
        begins(bytes, stored_bytes(a)),
        begins(bytes, stored_bytes(b)),
        bytes.len() <= u64::MAX,
    ensures
        a == b,
{
    let f = |m: StoredModel| stored_items(m);
    let ia = a.map_values(f);
    let ib = b.map_values(f);
    let shape = stored_items((0, 0, 0, 0, 0, 0, Seq::empty()));
    let na = stored_bytes(a).len() as int;
    let nb = stored_bytes(b).len() as int;
    assert(stored_bytes(a) + bytes.skip(na) =~= bytes);
    assert(stored_bytes(b) + bytes.skip(nb) =~= bytes);
    assert forall|i: int| 0 <= i < ia.len() implies same_shape(#[trigger] ia[i], shape) by {
        assert(ia[i] == stored_items(a[i]));
    }
    assert forall|i: int| 0 <= i < ib.len() implies same_shape(#[trigger] ib[i], shape) by {
        assert(ib[i] == stored_items(b[i]));
    }
    law_list_readable(ia, ib, shape, bytes.skip(na), bytes.skip(nb));
    assert forall|i: int| 0 <= i < a.len() implies a[i] == b[i] by {
        assert(ia[i] == stored_items(a[i]));
        assert(ib[i] == stored_items(b[i]));
        lemma_stored_items(a[i], b[i]);
    }
    assert(a =~= b);
}

proof fn lemma_stored_items(a: StoredModel, b: StoredModel)
    requires
        stored_items(a) == stored_items(b),
    ensures
        a == b,
{
    let x = stored_items(a);
    let y = stored_items(b);
    assert(x[0] == y[0] && x[1] == y[1] && x[2] == y[2] && x[3] == y[3]);
    assert(x[4] == y[4] && x[5] == y[5] && x[6] == y[6]);
}

// ---------------------------------------------------------------------------
// Answers of workers
// ---------------------------------------------------------------------------

/// A word with its box: page, the four coordinates and the text.
pub type WordRow = (u32, u32, u32, u32, u32, String);

/// What a word says.
pub type WordModel = (u32, u32, u32, u32, u32, Seq<char>);

/// What a worker extracted: path, checksum, whether characters are to be
/// recognised, text, words, milliseconds and pages.
pub type OutputRow = (String, String, bool, String, Vec<WordRow>, u64, u32);

/// What an output says.
pub type OutputModel = (Seq<char>, Seq<char>, bool, Seq<char>, Seq<WordModel>, u64, u32);

/// The answer of a worker: what it extracted, or a path and a message.
pub type AnswerRow = Result<OutputRow, (String, String)>;

/// What an answer says.
pub type AnswerModel = Result<OutputModel, (Seq<char>, Seq<char>)>;

/// What a word says.
pub open spec fn word_model(r: WordRow) -> WordModel {
    (r.0, r.1, r.2, r.3, r.4, r.5@)
}

/// What an answer says.
pub open spec fn answer_model(r: AnswerRow) -> AnswerModel {
    match r {
        Ok(o) => Ok(
            (
                o.0@,
                o.1@,
                o.2,
                o.3@,
                o.4@.map_values(|w: WordRow| word_model(w)),
                o.5,
                o.6,
            ),
        ),
        Err(e) => Err((e.0@, e.1@)),
    }
}

/// The values of a word.
pub open spec fn word_items(m: WordModel) -> Seq<Item> {
    seq![
        Item::Word(m.0),
        Item::Word(m.1),
        Item::Word(m.2),
        Item::Word(m.3),
        Item::Word(m.4),
        Item::Text(m.5),
    ]
}

/// The values of words, row by row.
pub open spec fn word_rows(words: Seq<WordModel>) -> Seq<Seq<Item>> {
    words.map_values(|m: WordModel| word_items(m))
}

/// The values of an output before its words.
pub open spec fn output_head(o: OutputModel) -> Seq<Item> {
    seq![Item::Word(0), Item::Text(o.0), Item::Text(o.1), Item::Flag(o.2), Item::Text(o.3)]
}

/// The values of an output behind its words.
pub open spec fn output_tail(o: OutputModel) -> Seq<Item> {
    seq![Item::Long(o.5), Item::Word(o.6)]
}

/// The values of a failure.
pub open spec fn failure_items(e: (Seq<char>, Seq<char>)) -> Seq<Item> {
    seq![Item::Word(1), Item::Text(e.0), Item::Text(e.1)]
}

/// The bytes of an answer.
pub open spec fn answer_bytes(m: AnswerModel) -> Seq<u8> {
    match m {
        Ok(o) => bytes_of(output_head(o)) + bytes_of(list_items(word_rows(o.4))) + bytes_of(
            output_tail(o),
        ),
        Err(e) => bytes_of(failure_items(e)),
    }
}

/// `bincode::serialize` on an answer: the number of the variant in 32 bits,
/// then its fields as those of stored words. It does not fail either.
#[verifier::external_body]
pub(crate) fn answer_to_bytes(answer: &AnswerRow) -> (r: Result<Vec<u8>, String>)
    ensures
        r is Ok,
        r matches Ok(b) ==> b@ == answer_bytes(answer_model(*answer)),
{
    bincode::serialize(answer).map_err(|e| e.to_string())
}

/// `bincode::deserialize` to an answer: it succeeds exactly where the bytes
/// begin with those of an answer, and then gives that answer.
#[verifier::external_body]
pub(crate) fn answer_from_bytes(bytes: &[u8]) -> (r: Result<AnswerRow, String>)
    ensures
        match r {
            Ok(answer) => begins(bytes@, answer_bytes(answer_model(answer))),
            Err(_) => forall|m: AnswerModel| !begins(bytes@, #[trigger] answer_bytes(m)),
        },
{
    bincode::deserialize(bytes).map_err(|e| e.to_string())
}

/// The values of an answer up to the words of an output.
pub open spec fn answer_head(m: AnswerModel) -> Seq<Item> {
    match m {
        Ok(o) => output_head(o),
        Err(e) => failure_items(e),
    }
}

/// The bytes of an answer behind its first values.
pub open spec fn answer_rest(m: AnswerModel) -> Seq<u8> {
    match m {
        Ok(o) => bytes_of(list_items(word_rows(o.4))) + bytes_of(output_tail(o)),
        Err(_) => Seq::empty(),
    }
}

proof fn lemma_answer_first(m: AnswerModel, bytes: Seq<u8>)
    requires
        begins(bytes, answer_bytes(m)),
    ensures
        bytes.len() >= 4,
        bytes.take(4) == item_bytes(answer_head(m)[0]),
        answer_bytes(m) == bytes_of(answer_head(m)) + answer_rest(m),
{
    vstd::bytes::lemma_auto_spec_u32_to_from_le_bytes();
    let first = item_bytes(answer_head(m)[0]);
    assert(first.len() == 4);
    assert(answer_bytes(m) =~= bytes_of(answer_head(m)) + answer_rest(m));
    let front = answer_bytes(m);
    assert(front.take(4) =~= first);
    assert(bytes.take(4) =~= bytes.take(front.len() as int).take(4));
}

/// An answer can be read back from its bytes in one way only.
pub proof fn law_answer_readable(a: AnswerModel, b: AnswerModel, bytes: Seq<u8>)
    requires
        begins(bytes, answer_bytes(a)),
        begins(bytes, answer_bytes(b)),
        bytes.len() <= u64::MAX,
    ensures
        a == b,
{
    vstd::bytes::lemma_auto_spec_u32_to_from_le_bytes();
    lemma_answer_first(a, bytes);
    lemma_answer_first(b, bytes);
    let na = answer_bytes(a).len() as int;
    let nb = answer_bytes(b).len() as int;
    let x = answer_rest(a) + bytes.skip(na);
    let y = answer_rest(b) + bytes.skip(nb);
    assert(answer_bytes(a) + bytes.skip(na) =~= bytes);
    assert(answer_bytes(b) + bytes.skip(nb) =~= bytes);
    assert(bytes_of(answer_head(a)) + x =~= answer_bytes(a) + bytes.skip(na));
    assert(bytes_of(answer_head(b)) + y =~= answer_bytes(b) + bytes.skip(nb));
    let ha = answer_head(a);
    let hb = answer_head(b);
    assert(a is Ok == b is Ok) by {
        assert(item_bytes(ha[0]) == item_bytes(hb[0]));
    }
    law_items_readable(ha, hb, x, y);
    match (a, b) {
        (Ok(o), Ok(p)) => {
            assert(ha[1] == hb[1] && ha[2] == hb[2] && ha[3] == hb[3] && ha[4] == hb[4]);
            let xs = bytes_of(output_tail(o)) + bytes.skip(na);
            let ys = bytes_of(output_tail(p)) + bytes.skip(nb);
            let ra = word_rows(o.4);
            let rb = word_rows(p.4);
            assert(bytes_of(list_items(ra)) + xs =~= x);
            assert(bytes_of(list_items(rb)) + ys =~= y);
            let shape = word_items((0, 0, 0, 0, 0, Seq::empty()));
            assert forall|i: int| 0 <= i < ra.len() implies same_shape(#[trigger] ra[i], shape) by {
                assert(ra[i] == word_items(o.4[i]));
            }
            assert forall|i: int| 0 <= i < rb.len() implies same_shape(#[trigger] rb[i], shape) by {
                assert(rb[i] == word_items(p.4[i]));
            }
            law_list_readable(ra, rb, shape, xs, ys);
            assert forall|i: int| 0 <= i < o.4.len() implies o.4[i] == p.4[i] by {
                assert(ra[i] == word_items(o.4[i]));
                assert(rb[i] == word_items(p.4[i]));
                lemma_word_items(o.4[i], p.4[i]);
            }
            assert(o.4 =~= p.4);
            let ta = output_tail(o);
            let tb = output_tail(p);
            law_items_readable(ta, tb, bytes.skip(na), bytes.skip(nb));
            assert(ta[0] == tb[0] && ta[1] == tb[1]);
        },
        (Err(e), Err(f)) => {
            assert(ha[1] == hb[1] && ha[2] == hb[2]);
        },
        _ => {},
    }
}

proof fn lemma_word_items(a: WordModel, b: WordModel)
    requires
        word_items(a) == word_items(b),
    ensures
        a == b,
{
    let x = word_items(a);
    let y = word_items(b);
    assert(x[0] == y[0] && x[1] == y[1] && x[2] == y[2] && x[3] == y[3]);
    assert(x[4] == y[4] && x[5] == y[5]);
}

} // verus!
