//! The viewer: thumbnails that were rendered, kinds of queries, and where the
//! parts of the window go.

use vstd::prelude::*;

use crate::text::{
    byte_prefix, chars_of, is_boundary, is_white, join, joined, prefix_within, same_text, string_of,
    texts, trim, trimmed, utf8_len,
};

verus! {

// ---------------------------------------------------------------------------
// Paths
// ---------------------------------------------------------------------------

/// Whether a character stands between the parts of a path.
pub open spec fn is_separator(c: char) -> bool {
    c == '/' || c == '\\'
}

/// The pieces of a path between separators.
pub open spec fn path_pieces(s: Seq<char>) -> Seq<Seq<char>>
    decreases s.len(),
{
    if s.len() == 0 {
        seq![Seq::empty()]
    } else {
        let front = path_pieces(s.drop_last());
        if is_separator(s.last()) {
            front.push(Seq::empty())
        } else {
            front.drop_last().push(front.last().push(s.last()))
        }
    }
}

/// The pieces that are parts of the path: not the empty ones, and `.` only at
/// the beginning of a path without a root.
pub open spec fn path_parts(pieces: Seq<Seq<char>>, rooted: bool) -> Seq<Seq<char>>
    decreases pieces.len(),
{
    if pieces.len() == 0 {
        Seq::empty()
    } else {
        let front = path_parts(pieces.drop_last(), rooted);
        let last = pieces.last();
        if last.len() == 0 || (last == "."@ && (rooted || pieces.len() > 1)) {
            front
        } else {
            front.push(last)
        }
    }
}

/// Whether a path is one that is left to the device that it names.
pub open spec fn is_device_path(s: Seq<char>) -> bool {
    &&& s.len() >= 4
    &&& is_separator(s[0])
    &&& is_separator(s[1])
    &&& s[2] == '?' || s[2] == '.'
    &&& is_separator(s[3])
}

/// Whether a character is a letter of ASCII.
pub open spec fn is_letter(c: char) -> bool {
    'a' <= c <= 'z' || 'A' <= c <= 'Z'
}

/// Whether a path begins with a drive.
pub open spec fn has_drive(s: Seq<char>) -> bool {
    s.len() >= 2 && is_letter(s[0]) && s[1] == ':'
}

/// A letter of a drive, in upper case.
pub open spec fn drive_letter(c: char) -> char {
    if 'a' <= c <= 'z' {
        (c as u32 - 32) as char
    } else {
        c
    }
}

/// The length of the first piece of a path.
pub open spec fn piece_len(s: Seq<char>) -> nat
    decreases s.len(),
{
    if s.len() == 0 || is_separator(s[0]) {
        0
    } else {
        1 + piece_len(s.drop_first())
    }
}

/// Whether a path begins with two separators, a server and a share.
pub open spec fn has_share(s: Seq<char>) -> bool {
    &&& s.len() >= 2
    &&& is_separator(s[0])
    &&& is_separator(s[1])
    &&& 0 < piece_len(s.skip(2)) < s.len() - 3
    &&& !is_separator(s[3 + piece_len(s.skip(2)) as int])
}

/// Whether a separator stands at the beginning of a path, or behind its drive.
pub open spec fn has_root(s: Seq<char>) -> bool {
    if has_drive(s) {
        s.len() > 2 && is_separator(s[2])
    } else {
        s.len() > 0 && is_separator(s[0])
    }
}

/// What stands before the parts of a path: its drive, and its root.
pub open spec fn path_start(s: Seq<char>) -> Seq<char> {
    let root = if has_share(s) {
        "//"@
    } else if has_root(s) {
        "/"@
    } else {
        Seq::empty()
    };
    if has_drive(s) {
        seq![drive_letter(s[0]), ':'] + root
    } else {
        root
    }
}

/// A path in a form that is the same for all ways to write it with more or other
/// separators, with `.` in the middle, with a separator at its end, or with its
/// drive in lower case.
pub open spec fn path_key(s: Seq<char>) -> Seq<char> {
    if is_device_path(s) {
        s
    } else {
        let rest = if has_drive(s) {
            s.skip(2)
        } else {
            s
        };
        path_start(s) + join(path_parts(path_pieces(rest), has_root(s)), "/"@)
    }
}

fn separates(c: char) -> (b: bool)
    ensures
        b == is_separator(c),
{
    c == '/' || c == '\\'
}

/// Whether `v` begins with two separators, a server and a share.
fn names_share(v: &Vec<char>) -> (b: bool)
    ensures
        b == has_share(v@),
{
    if v.len() < 2 || !separates(v[0]) || !separates(v[1]) {
        return false;
    }
    let ghost s = v@.skip(2);
    let mut k: usize = 2;
    assert(v@.skip(2).skip(0) =~= s);
    while k < v.len() && !separates(v[k])
        invariant
            2 <= k <= v@.len(),
            s == v@.skip(2),
            piece_len(s) == k - 2 + piece_len(s.skip(k - 2)),
        decreases v@.len() - k,
    {
        assert(s.skip(k - 2)[0] == v@[k as int]);
        assert(s.skip(k - 2).drop_first() =~= s.skip(k - 1));
        k += 1;
    }
    if k < v.len() {
        assert(s.skip(k - 2)[0] == v@[k as int]);
    }
    assert(piece_len(s) == k - 2);
    2 < k && v.len() - k > 1 && !separates(v[k + 1])
}

/// The parts of `v[from..]`.
fn parts_of(v: &Vec<char>, from: usize, rooted: bool) -> (r: Vec<String>)
    requires
        from <= v@.len(),
    ensures
        texts(r@) == path_parts(path_pieces(v@.skip(from as int)), rooted),
{
    let ghost s = v@.skip(from as int);
    let mut r: Vec<String> = Vec::new();
    let mut start: usize = from;
    let mut first = true;
    let mut i: usize = from;
    proof {
        assert(s.take(0) =~= Seq::empty());
        assert(v@.subrange(from as int, from as int) =~= Seq::empty());
        assert(path_pieces(s.take(0)) =~= seq![v@.subrange(from as int, from as int)]);
        assert(path_pieces(s.take(0)).drop_last() =~= Seq::empty());
        assert(texts(r@) =~= Seq::empty());
    }
    while i < v.len()
        invariant
            from <= start <= i <= v@.len(),
            s == v@.skip(from as int),
            path_pieces(s.take(i - from)).len() > 0,
            first == (path_pieces(s.take(i - from)).len() == 1),
            path_pieces(s.take(i - from)).last() == v@.subrange(start as int, i as int),
            texts(r@) == path_parts(path_pieces(s.take(i - from)).drop_last(), rooted),
        decreases v@.len() - i,
    {
        let ghost p = path_pieces(s.take(i - from));
        let ghost q = path_pieces(s.take(i + 1 - from));
        proof {
            assert(s.take(i + 1 - from).drop_last() =~= s.take(i - from));
            assert(s.take(i + 1 - from).last() == v@[i as int]);
        }
        if separates(v[i]) {
            add_part(&mut r, string_of(v, start, i), rooted || !first, Ghost(p), rooted);
            proof {
                assert(q.drop_last() =~= p);
                assert(q.last() =~= v@.subrange(i + 1, i + 1));
            }
            start = i + 1;
            first = false;
        } else {
            proof {
                assert(q.drop_last() =~= p.drop_last());
                assert(q.last() =~= v@.subrange(start as int, i + 1));
            }
        }
        i += 1;
    }
    let ghost p = path_pieces(s.take(i - from));
    add_part(&mut r, string_of(v, start, i), rooted || !first, Ghost(p), rooted);
    assert(s.take(i - from) =~= s);
    r
}

/// Adds the last of `pieces`, unless it is no part of the path.
fn add_part(
    parts: &mut Vec<String>,
    piece: String,
    inner: bool,
    Ghost(pieces): Ghost<Seq<Seq<char>>>,
    rooted: bool,
)
    requires
        pieces.len() > 0,
        pieces.last() == piece@,
        inner == (rooted || pieces.len() > 1),
        texts(old(parts)@) == path_parts(pieces.drop_last(), rooted),
    ensures
        texts(final(parts)@) == path_parts(pieces, rooted),
{
    let ghost before = parts@;
    let empty = piece.as_str().is_empty();
    if !empty && !(inner && same_text(piece.as_str(), ".")) {
        parts.push(piece);
        assert(texts(parts@) =~= texts(before).push(pieces.last()));
    }
}

/// A path in a form that is the same for all ways to write it.
pub fn path_form(path: &str) -> (r: String)
    ensures
        r@ == path_key(path@),
{
    let v = chars_of(path);
    let n = v.len();
    if n >= 4 && separates(v[0]) && separates(v[1]) && (v[2] == '?' || v[2] == '.') && separates(
        v[3],
    ) {
        return path.to_owned();
    }
    let mut r = String::new();
    let mut from: usize = 0;
    if n >= 2 && (('a' <= v[0] && v[0] <= 'z') || ('A' <= v[0] && v[0] <= 'Z')) && v[1] == ':' {
        let c = v[0];
        let mut upper = c;
        if 'a' <= c && c <= 'z' {
            if let Some(u) = char::from_u32(c as u32 - 32) {
                upper = u;
            }
        }
        r.push(upper);
        r.push(':');
        from = 2;
    }
    let ghost drive = r@;
    let rooted = from < n && separates(v[from]);
    if from == 0 && names_share(&v) {
        r.push_str("//");
    } else if rooted {
        r.push_str("/");
    }
    let parts = parts_of(&v, from, rooted);
    let tail = joined(&parts, "/");
    proof {
        assert(v@.skip(0) =~= v@);
        assert(has_drive(v@) ==> !has_share(v@));
        assert(r@ =~= path_start(v@));
    }
    r.push_str(tail.as_str());
    r
}

// ---------------------------------------------------------------------------
// Thumbnails
// ---------------------------------------------------------------------------

/// The key of a thumbnail: the path of its file, in the form that is the same
/// for all ways to write it, and its page.
pub type ThumbnailKey = (String, u32);

/// A thumbnail: its bytes, width and height.
pub type Thumbnail = (Vec<u8>, u32, u32);

/// What a key says.
pub type KeyModel = (Seq<char>, u32);

/// What a thumbnail says.
pub type ThumbnailModel = (Seq<u8>, u32, u32);

/// A cache of entries of which the one used longest ago leaves first.
#[verifier::external_type_specification]
#[verifier::external_body]
#[verifier::reject_recursive_types(K)]
#[verifier::reject_recursive_types(V)]
#[verifier::reject_recursive_types(S)]
pub struct ExLruCache<K, V, S>(lru::LruCache<K, V, S>);

/// How such a cache hashes its keys.
#[verifier::external_type_specification]
#[verifier::external_body]
pub struct ExDefaultHasher(lru::DefaultHasher);

/// What a cache holds, what was used last first.
pub uninterp spec fn lru_entries(c: lru::LruCache<ThumbnailKey, Thumbnail>) -> Seq<
    (KeyModel, ThumbnailModel),
>;

/// The most entries of a cache.
pub uninterp spec fn lru_capacity(c: lru::LruCache<ThumbnailKey, Thumbnail>) -> nat;

/// Whether there is an entry for a key.
pub open spec fn has_key(e: Seq<(KeyModel, ThumbnailModel)>, key: KeyModel) -> bool {
    exists|i: int| 0 <= i < e.len() && (#[trigger] e[i]).0 == key
}

/// The index of the entry for a key.
pub open spec fn key_at(e: Seq<(KeyModel, ThumbnailModel)>, key: KeyModel) -> int {
    choose|i: int| 0 <= i < e.len() && (#[trigger] e[i]).0 == key
}

/// The entries after the one for a key was used.
pub open spec fn touched(e: Seq<(KeyModel, ThumbnailModel)>, key: KeyModel) -> Seq<
    (KeyModel, ThumbnailModel),
> {
    seq![e[key_at(e, key)]] + e.remove(key_at(e, key))
}

/// The entries after a thumbnail was put in place of the one for its key, or
/// of the one used longest ago where the cache is full.
pub open spec fn with_thumbnail(
    e: Seq<(KeyModel, ThumbnailModel)>,
    capacity: nat,
    key: KeyModel,
    t: ThumbnailModel,
) -> Seq<(KeyModel, ThumbnailModel)> {
    if has_key(e, key) {
        seq![(key, t)] + e.remove(key_at(e, key))
    } else if e.len() == capacity {
        seq![(key, t)] + e.drop_last()
    } else {
        seq![(key, t)] + e
    }
}

/// Whether no key has two entries.
pub open spec fn distinct_keys(e: Seq<(KeyModel, ThumbnailModel)>) -> bool {
    forall|i: int, j: int| 0 <= i < j < e.len() ==> (#[trigger] e[i]).0 != (#[trigger] e[j]).0
}

/// `lru::LruCache::new`: a cache without entries for at most `cap` of them. It
/// makes room for all of them at once, for which there has to be an address.
#[verifier::external_body]
fn lru_new(cap: usize) -> (c: lru::LruCache<ThumbnailKey, Thumbnail>)
    requires
        0 < cap,
        cap * 64 <= isize::MAX,
    ensures
        lru_entries(c).len() == 0,
        lru_capacity(c) == cap,
{
    lru::LruCache::new(std::num::NonZeroUsize::new(cap).unwrap())
}

/// `lru::LruCache::get`, with a copy of what it finds: the entry for the key
/// comes to the front.
#[verifier::external_body]
fn lru_get(c: &mut lru::LruCache<ThumbnailKey, Thumbnail>, path: String, page: u32) -> (r: Option<
    Thumbnail,
>)
    ensures
        lru_capacity(*final(c)) == lru_capacity(*old(c)),
        match r {
            Some(t) => {
                &&& has_key(lru_entries(*old(c)), (path@, page))
                &&& (t.0@, t.1, t.2) == lru_entries(*old(c))[key_at(
                    lru_entries(*old(c)),
                    (path@, page),
                )].1
                &&& lru_entries(*final(c)) == touched(lru_entries(*old(c)), (path@, page))
            },
            None => {
                &&& !has_key(lru_entries(*old(c)), (path@, page))
                &&& lru_entries(*final(c)) == lru_entries(*old(c))
            },
        },
{
    c.get(&(path, page)).cloned()
}

/// `lru::LruCache::put`: the entry is at the front, that of the same key is
/// gone, and where there was none, the last one of a full cache.
#[verifier::external_body]
fn lru_put(c: &mut lru::LruCache<ThumbnailKey, Thumbnail>, path: String, page: u32, t: Thumbnail)
    ensures
        lru_capacity(*final(c)) == lru_capacity(*old(c)),
        lru_entries(*final(c)) == with_thumbnail(
            lru_entries(*old(c)),
            lru_capacity(*old(c)),
            (path@, page),
            (t.0@, t.1, t.2),
        ),
{
    c.put((path, page), t);
}

/// `lru::LruCache::len`: the number of entries.
#[verifier::external_body]
fn lru_len(c: &lru::LruCache<ThumbnailKey, Thumbnail>) -> (n: usize)
    ensures
        n == lru_entries(*c).len(),
{
    c.len()
}

/// `lru::LruCache::clear`: no entry is left.
#[verifier::external_body]
fn lru_clear(c: &mut lru::LruCache<ThumbnailKey, Thumbnail>)
    ensures
        lru_capacity(*final(c)) == lru_capacity(*old(c)),
        lru_entries(*final(c)).len() == 0,
{
    c.clear();
}

/// Thumbnails that were rendered, up to a number.
pub struct ThumbnailCache {
    cache: lru::LruCache<ThumbnailKey, Thumbnail>,
}

impl ThumbnailCache {
    /// The thumbnails, what was used last first.
    pub closed spec fn entries(self) -> Seq<(KeyModel, ThumbnailModel)> {
        lru_entries(self.cache)
    }

    /// The most thumbnails.
    pub closed spec fn capacity(self) -> nat {
        lru_capacity(self.cache)
    }

    /// Whether there are no more thumbnails than fit, each for a key of its
    /// own.
    pub open spec fn wf(self) -> bool {
        &&& distinct_keys(self.entries())
        &&& self.entries().len() <= self.capacity()
        &&& self.capacity() >= 1
    }

    /// A cache for a number of thumbnails, and at least one.
    pub fn new(capacity: usize) -> (c: Self)
        requires
            capacity * 64 <= isize::MAX,
        ensures
            c.wf(),
            c.entries() == Seq::<(KeyModel, ThumbnailModel)>::empty(),
            c.capacity() == (if capacity == 0 {
                1
            } else {
                capacity as nat
            }),
    {
        let cap = if capacity == 0 {
            1
        } else {
            capacity
        };
        let c = ThumbnailCache { cache: lru_new(cap) };
        assert(c.entries() =~= Seq::empty());
        c
    }

    /// The thumbnail of a page, which is used by this.
    pub fn get(&mut self, path: &str, page: u32) -> (r: Option<Thumbnail>)
        requires
            old(self).wf(),
        ensures
            final(self).wf(),
            final(self).capacity() == old(self).capacity(),
            match r {
                Some(t) => {
                    &&& has_key(old(self).entries(), (path_key(path@), page))
                    &&& (t.0@, t.1, t.2) == old(self).entries()[key_at(
                        old(self).entries(),
                        (path_key(path@), page),
                    )].1
                    &&& final(self).entries() == touched(old(self).entries(), (path_key(path@), page))
                },
                None => {
                    &&& !has_key(old(self).entries(), (path_key(path@), page))
                    &&& final(self).entries() == old(self).entries()
                },
            },
    {
        let ghost before = self.entries();
        let r = lru_get(&mut self.cache, path_form(path), page);
        proof {
            if has_key(before, (path_key(path@), page)) {
                let i = key_at(before, (path_key(path@), page));
                lemma_moved(before, i, before[i]);
            }
        }
        r
    }

    /// Puts the thumbnail of a page into the cache.
    pub fn put(&mut self, path: &str, page: u32, data: Vec<u8>, width: u32, height: u32)
        requires
            old(self).wf(),
        ensures
            final(self).wf(),
            final(self).capacity() == old(self).capacity(),
            final(self).entries() == with_thumbnail(
                old(self).entries(),
                old(self).capacity(),
                (path_key(path@), page),
                (data@, width, height),
            ),
    {
        let ghost before = self.entries();
        let ghost key = (path_key(path@), page);
        let ghost t = (data@, width, height);
        lru_put(&mut self.cache, path_form(path), page, (data, width, height));
        proof {
            let after = self.entries();
            if has_key(before, key) {
                lemma_moved(before, key_at(before, key), (key, t));
            } else {
                assert forall|i: int, j: int| 0 <= i < j < after.len() implies (
                #[trigger] after[i]).0 != (#[trigger] after[j]).0 by {
                    assert(after[j] == before[j - 1]);
                    if i > 0 {
                        assert(after[i] == before[i - 1]);
                    }
                }
            }
        }
    }

    /// How many thumbnails there are.
    pub fn len(&self) -> (n: usize)
        ensures
            n == self.entries().len(),
    {
        lru_len(&self.cache)
    }

    /// Drops all thumbnails.
    pub fn clear(&mut self)
        requires
            old(self).wf(),
        ensures
            final(self).wf(),
            final(self).capacity() == old(self).capacity(),
            final(self).entries() == Seq::<(KeyModel, ThumbnailModel)>::empty(),
    {
        lru_clear(&mut self.cache);
        assert(self.entries() =~= Seq::empty());
    }
}

proof fn lemma_moved(
    e: Seq<(KeyModel, ThumbnailModel)>,
    i: int,
    x: (KeyModel, ThumbnailModel),
)
    requires
        distinct_keys(e),
        0 <= i < e.len(),
        x.0 == e[i].0,
    ensures
        distinct_keys(seq![x] + e.remove(i)),
        (seq![x] + e.remove(i)).len() == e.len(),
{
    let after = seq![x] + e.remove(i);
    assert forall|a: int, b: int| 0 <= a < b < after.len() implies (#[trigger] after[a]).0 != (
    #[trigger] after[b]).0 by {
        let y = if b - 1 < i {
            b - 1
        } else {
            b
        };
        assert(after[b] == e[y]);
        if a > 0 {
            let z = if a - 1 < i {
                a - 1
            } else {
                a
            };
            assert(after[a] == e[z]);
        }
    }
}

/// A thumbnail that was put into the cache is found.
pub proof fn law_put_then_found(
    e: Seq<(KeyModel, ThumbnailModel)>,
    capacity: nat,
    key: KeyModel,
    t: ThumbnailModel,
)
    requires
        distinct_keys(e),
        e.len() <= capacity,
        capacity >= 1,
    ensures
        has_key(with_thumbnail(e, capacity, key, t), key),
        with_thumbnail(e, capacity, key, t)[key_at(with_thumbnail(e, capacity, key, t), key)].1 == t,
        with_thumbnail(e, capacity, key, t).len() <= capacity,
{
    let after = with_thumbnail(e, capacity, key, t);
    assert(after[0] == (key, t));
    if has_key(e, key) {
        lemma_moved(e, key_at(e, key), (key, t));
    } else {
        assert forall|j: int| 0 < j < after.len() implies (#[trigger] after[j]).0 != key by {
            assert(after[j] == e[j - 1]);
        }
    }
    assert(key_at(after, key) == 0);
}

/// Putting a thumbnail into a full cache drops the one that was used longest
/// ago, and no other one.
pub proof fn law_oldest_leaves(
    e: Seq<(KeyModel, ThumbnailModel)>,
    capacity: nat,
    key: KeyModel,
    t: ThumbnailModel,
)
    requires
        distinct_keys(e),
        e.len() == capacity,
        capacity >= 1,
        !has_key(e, key),
    ensures
        !has_key(with_thumbnail(e, capacity, key, t), e.last().0),
        forall|i: int|
            0 <= i < e.len() - 1 ==> has_key(
                with_thumbnail(e, capacity, key, t),
                (#[trigger] e[i]).0,
            ),
{
    let after = with_thumbnail(e, capacity, key, t);
    assert forall|j: int| 0 <= j < after.len() implies (#[trigger] after[j]).0 != e.last().0 by {
        if j > 0 {
            assert(after[j] == e[j - 1]);
            assert(e[j - 1].0 != e[e.len() - 1].0);
        } else {
            assert(e[e.len() - 1].0 != key);
        }
    }
    assert forall|i: int| 0 <= i < e.len() - 1 implies has_key(after, (#[trigger] e[i]).0) by {
        assert(after[i + 1] == e[i]);
    }
}

// ---------------------------------------------------------------------------
// Queries
// ---------------------------------------------------------------------------

/// How a query is meant.
#[derive(Clone, Copy, PartialEq, Eq, Structural, Debug)]
pub enum QueryType {
    Standard,
    Fuzzy,
    Regex,
    Phrase,
}

/// What a kind of query is called.
pub open spec fn query_label(t: QueryType) -> Seq<char> {
    match t {
        QueryType::Standard => "Standard"@,
        QueryType::Fuzzy => "Fuzzy"@,
        QueryType::Regex => "Regex"@,
        QueryType::Phrase => "Phrase"@,
    }
}

impl QueryType {
    /// All kinds, in the order in which they are offered.
    pub fn variants() -> (v: Vec<QueryType>)
        ensures
            v@ == seq![
                QueryType::Standard,
                QueryType::Fuzzy,
                QueryType::Regex,
                QueryType::Phrase,
            ],
    {
        let mut v: Vec<QueryType> = Vec::new();
        v.push(QueryType::Standard);
        v.push(QueryType::Fuzzy);
        v.push(QueryType::Regex);
        v.push(QueryType::Phrase);
        v
    }

    /// What the kind is called.
    pub fn label(&self) -> (s: &'static str)
        ensures
            s@ == query_label(*self),
    {
        match self {
            QueryType::Standard => "Standard",
            QueryType::Fuzzy => "Fuzzy",
            QueryType::Regex => "Regex",
            QueryType::Phrase => "Phrase",
        }
    }

    /// The kind at an index of the offered ones; the first where there is none.
    pub fn at(index: isize) -> (t: QueryType)
        ensures
            t == kind_at(index as int),
    {
        match index {
            1 => QueryType::Fuzzy,
            2 => QueryType::Regex,
            3 => QueryType::Phrase,
            _ => QueryType::Standard,
        }
    }
}

/// The kind at an index of the offered ones; the first where there is none.
pub open spec fn kind_at(index: int) -> QueryType {
    if index == 1 {
        QueryType::Fuzzy
    } else if index == 2 {
        QueryType::Regex
    } else if index == 3 {
        QueryType::Phrase
    } else {
        QueryType::Standard
    }
}

/// What the index is asked.
#[derive(Debug)]
pub enum QueryPlan {
    /// What the text says as a query.
    Parse { query: String },
    /// Words that differ from the term in at most this many letters, where two
    /// that changed places count as one.
    Fuzzy { term: String, distance: u8 },
    /// Words that match the pattern.
    Pattern { pattern: String },
    /// All documents.
    All,
}

/// A text in quotation marks.
pub open spec fn quoted_text(s: Seq<char>) -> Seq<char> {
    seq!['"'] + s + seq!['"']
}

/// Whether `p` is what the index is asked for a query of a kind.
pub open spec fn is_plan_for(kind: QueryType, query: Seq<char>, p: QueryPlan) -> bool {
    match kind {
        QueryType::Standard => p matches QueryPlan::Parse { query: q } && q@ == query,
        QueryType::Fuzzy => p matches QueryPlan::Fuzzy { term, distance } && term@ == query
            && distance == 1,
        QueryType::Regex => p matches QueryPlan::Pattern { pattern } && pattern@ == query,
        QueryType::Phrase => if trim(query).len() == 0 {
            p is All
        } else {
            p matches QueryPlan::Parse { query: q } && q@ == quoted_text(query)
        },
    }
}

/// Makes questions to the index of queries.
#[derive(Clone, Copy)]
pub struct QueryFactory;

impl QueryFactory {
    /// What the index is asked for a query of a kind.
    pub fn build(query_type: QueryType, query_str: &str) -> (p: QueryPlan)
        ensures
            is_plan_for(query_type, query_str@, p),
    {
        match query_type {
            QueryType::Standard => QueryPlan::Parse { query: query_str.to_owned() },
            QueryType::Fuzzy => QueryPlan::Fuzzy { term: query_str.to_owned(), distance: 1 },
            QueryType::Regex => QueryPlan::Pattern { pattern: query_str.to_owned() },
            QueryType::Phrase => {
                let t = trimmed(query_str);
                if t.as_str().is_empty() {
                    return QueryPlan::All;
                }
                let mut query = String::new();
                query.push('"');
                query.push_str(query_str);
                query.push('"');
                assert(query@ =~= quoted_text(query_str@));
                QueryPlan::Parse { query }
            },
        }
    }
}

// ---------------------------------------------------------------------------
// The window
// ---------------------------------------------------------------------------

/// The most bytes of a text that are shown in the list.
pub const SNIPPET_BYTES: usize = 100;

/// The beginning of a text for the list.
pub open spec fn snippet_of(raw: Seq<char>) -> Seq<char> {
    if utf8_len(raw) > SNIPPET_BYTES {
        byte_prefix(raw, SNIPPET_BYTES as nat) + "..."@
    } else {
        raw
    }
}

/// Whether the beginning of a text for the list ends between two characters.
pub open spec fn snippet_fits(raw: Seq<char>) -> bool {
    utf8_len(raw) > SNIPPET_BYTES ==> is_boundary(raw, SNIPPET_BYTES as nat)
}

/// The beginning of a text for the list, `None` where it would end inside a
/// character.
pub fn list_snippet(raw: &str) -> (r: Option<String>)
    ensures
        match r {
            Some(s) => snippet_fits(raw@) && s@ == snippet_of(raw@),
            None => !snippet_fits(raw@),
        },
{
    let v = chars_of(raw);
    let (k, n) = prefix_within(&v, 0, v.len(), SNIPPET_BYTES);
    assert(v@.subrange(0, v@.len() as int) =~= v@);
    if k == v.len() {
        return Some(raw.to_owned());
    }
    if n != SNIPPET_BYTES {
        return None;
    }
    let mut s = string_of(&v, 0, k);
    s.push_str("...");
    Some(s)
}

/// A rectangle of a window: its left and upper edge, width and height.
#[derive(Clone, Copy, PartialEq, Eq, Structural, Debug)]
pub struct Area {
    pub x: i32,
    pub y: i32,
    pub width: i32,
    pub height: i32,
}

/// Where the parts of the window go.
#[derive(Clone, Copy, PartialEq, Eq, Structural, Debug)]
pub struct Layout {
    pub page: Area,
    pub edit: Area,
    pub button: Area,
    pub combo: Area,
    pub list: Area,
}

/// The smaller of two numbers.
pub open spec fn least(a: int, b: int) -> int {
    if a < b {
        a
    } else {
        b
    }
}

/// The larger of two numbers.
pub open spec fn most(a: int, b: int) -> int {
    if a > b {
        a
    } else {
        b
    }
}

/// Where the parts of a window of a size go: the list at the right, the query
/// at the bottom, the page in the rest.
pub fn layout(w: i32, h: i32) -> (r: Layout)
    requires
        0 <= w <= 0xffff,
        0 <= h <= 0xffff,
    ensures
        ({
            let bar = least(40, h / 4);
            let side = least(250, w / 3);
            let row = h - bar + 5;
            &&& r.page == (Area {
                x: 0,
                y: 0,
                width: (w - side) as i32,
                height: (h - bar) as i32,
            })
            &&& r.edit == (Area {
                x: 5,
                y: row as i32,
                width: most(w - side - 210, 50) as i32,
                height: 24,
            })
            &&& r.button == (Area {
                x: most(w - side - 200, 5) as i32,
                y: row as i32,
                width: 80,
                height: 24,
            })
            &&& r.combo == (Area {
                x: most(w - side - 110, 5) as i32,
                y: row as i32,
                width: 100,
                height: 200,
            })
            &&& r.list == (Area {
                x: (w - side) as i32,
                y: 0,
                width: side as i32,
                height: (h - bar) as i32,
            })
        }),
{
    let bar = if h / 4 < 40 {
        h / 4
    } else {
        40
    };
    let side = if w / 3 < 250 {
        w / 3
    } else {
        250
    };
    let row = h - bar + 5;
    let edit = if w - side - 210 > 50 {
        w - side - 210
    } else {
        50
    };
    let button = if w - side - 200 > 5 {
        w - side - 200
    } else {
        5
    };
    let combo = if w - side - 110 > 5 {
        w - side - 110
    } else {
        5
    };
    Layout {
        page: Area { x: 0, y: 0, width: w - side, height: h - bar },
        edit: Area { x: 5, y: row, width: edit, height: 24 },
        button: Area { x: button, y: row, width: 80, height: 24 },
        combo: Area { x: combo, y: row, width: 100, height: 200 },
        list: Area { x: w - side, y: 0, width: side, height: h - bar },
    }
}

// ---------------------------------------------------------------------------
// What the window does
// ---------------------------------------------------------------------------

/// The number of the field for the query.
pub const ID_EDIT: i32 = 101;

/// The number of the button that starts a search.
pub const ID_BUTTON: i32 = 102;

/// The number of the box with the kinds of query.
pub const ID_COMBO: i32 = 103;

/// The number of the list of hits.
pub const ID_LIST: i32 = 104;

/// The most hits that are shown.
pub const MOST_HITS: usize = 50;

/// A hit in the list. The score is a bit pattern of 32 bits.
#[derive(Debug)]
pub struct AppResult {
    pub path: String,
    pub score: u32,
    pub snippet: String,
}

/// What was done in the window.
#[derive(Clone, Copy, PartialEq, Eq, Structural, Debug)]
pub enum WindowCommand {
    /// A search is started.
    Search,
    /// A hit is chosen.
    Choose,
    /// Nothing that matters here.
    Other,
}

/// What a message of a part of the window means, by the number of the part.
pub fn window_command(id: i32) -> (c: WindowCommand)
    ensures
        c == if id == ID_BUTTON {
            WindowCommand::Search
        } else if id == ID_LIST {
            WindowCommand::Choose
        } else {
            WindowCommand::Other
        },
{
    if id == ID_BUTTON {
        WindowCommand::Search
    } else if id == ID_LIST {
        WindowCommand::Choose
    } else {
        WindowCommand::Other
    }
}

/// What the window shows: the query, the hits and the document.
#[derive(Debug)]
pub struct AppState {
    pub results: Vec<AppResult>,
    pub query_string: String,
    pub query_type: QueryType,
    pub current_pdf: Option<String>,
}

impl AppState {
    /// A window without query, hits and document.
    pub fn new() -> (s: Self)
        ensures
            s.results@.len() == 0,
            s.query_string@.len() == 0,
            s.query_type == QueryType::Standard,
            s.current_pdf is None,
    {
        AppState {
            results: Vec::new(),
            query_string: String::new(),
            query_type: QueryType::Standard,
            current_pdf: None,
        }
    }

    /// Starts a search for the text of the field with the kind at an index of
    /// the box; the hits before are gone. Nothing is asked of the index for an
    /// empty text, nor without an index.
    pub fn on_search(&mut self, text: &str, index: isize, has_index: bool) -> (plan: Option<
        QueryPlan,
    >)
        ensures
            final(self).results@.len() == 0,
            final(self).query_string@ == text@,
            final(self).query_type == kind_at(index as int),
            final(self).current_pdf == old(self).current_pdf,
            match plan {
                Some(p) => {
                    &&& has_index && text@.len() > 0
                    &&& is_plan_for(kind_at(index as int), text@, p)
                },
                None => !has_index || text@.len() == 0,
            },
    {
        self.query_string = text.to_owned();
        self.query_type = QueryType::at(index);
        self.results.clear();
        if has_index && !text.is_empty() {
            Some(QueryFactory::build(self.query_type, text))
        } else {
            None
        }
    }

    /// Adds a hit, with the beginning of its text. It is left out where the
    /// beginning would end inside a character.
    pub fn add_hit(&mut self, score: u32, path: &str, raw: &str) -> (added: bool)
        ensures
            added == snippet_fits(raw@),
            final(self).query_string == old(self).query_string,
            final(self).query_type == old(self).query_type,
            final(self).current_pdf == old(self).current_pdf,
            added ==> {
                &&& final(self).results@.len() == old(self).results@.len() + 1
                &&& final(self).results@.drop_last() == old(self).results@
                &&& final(self).results@.last().score == score
                &&& final(self).results@.last().path@ == path@
                &&& final(self).results@.last().snippet@ == snippet_of(raw@)
            },
            !added ==> final(self).results@ == old(self).results@,
    {
        match list_snippet(raw) {
            Some(snippet) => {
                self.results.push(AppResult { path: path.to_owned(), score, snippet });
                assert(self.results@.drop_last() =~= old(self).results@);
                true
            },
            None => false,
        }
    }

    /// Chooses the hit at an index of the list, and gives the path of its
    /// document. Where there is none, nothing changes.
    pub fn on_choose(&mut self, index: isize) -> (path: Option<String>)
        ensures
            final(self).results == old(self).results,
            final(self).query_string == old(self).query_string,
            final(self).query_type == old(self).query_type,
            match path {
                Some(p) => {
                    &&& 0 <= index < old(self).results@.len()
                    &&& p@ == old(self).results@[index as int].path@
                    &&& final(self).current_pdf matches Some(c) && c@ == p@
                },
                None => {
                    &&& !(0 <= index < old(self).results@.len())
                    &&& final(self).current_pdf == old(self).current_pdf
                },
            },
    {
        if index < 0 {
            return None;
        }
        let at = index as usize;
        if at < self.results.len() {
            let path = self.results[at].path.clone();
            self.current_pdf = Some(path.clone());
            Some(path)
        } else {
            None
        }
    }
}

/// Pixels of red, green, blue and alpha with red and blue in each other's
/// place.
pub open spec fn swapped(rgba: Seq<u8>) -> Seq<u8> {
    Seq::new(
        rgba.len(),
        |i: int|
            if i % 4 == 0 {
                rgba[i + 2]
            } else if i % 4 == 2 {
                rgba[i - 2]
            } else {
                rgba[i]
            },
    )
}

/// Puts red and blue of pixels in each other's place.
pub fn bgra_of(rgba: &[u8]) -> (out: Vec<u8>)
    requires
        rgba@.len() % 4 == 0,
    ensures
        out@ == swapped(rgba@),
{
    let mut out: Vec<u8> = Vec::new();
    let n = rgba.len();
    let mut i: usize = 0;
    while i < n
        invariant
            n == rgba@.len(),
            n % 4 == 0,
            i <= n,
            i % 4 == 0,
            out@ == swapped(rgba@).take(i as int),
        decreases n - i,
    {
        assert(n - i >= 4);
        out.push(rgba[i + 2]);
        out.push(rgba[i + 1]);
        out.push(rgba[i]);
        out.push(rgba[i + 3]);
        assert(out@ =~= swapped(rgba@).take(i + 4));
        i += 4;
    }
    assert(swapped(rgba@).take(n as int) =~= swapped(rgba@));
    out
}

/// Putting red and blue in each other's place twice changes nothing.
pub proof fn law_swap_twice(rgba: Seq<u8>)
    requires
        rgba.len() % 4 == 0,
    ensures
        swapped(swapped(rgba)) == rgba,
{
    assert(swapped(swapped(rgba)) =~= rgba);
}

/// A picture: its width, its height, and its pixels of red, green, blue and
/// alpha.
pub uninterp spec fn picture_pixels(bytes: Seq<u8>) -> Option<(u32, u32, Seq<u8>)>;

/// `image::load_from_memory`, and of the picture its size and
/// `image::DynamicImage::to_rgba8`: four bytes for each pixel. There is none where
/// the bytes are no picture.
#[verifier::external_body]
fn decode_rgba(bytes: &[u8]) -> (r: Option<(u32, u32, Vec<u8>)>)
    ensures
        match r {
            Some(p) => {
                &&& picture_pixels(bytes@) == Some((p.0, p.1, p.2@))
                &&& p.2@.len() == 4 * (p.0 * p.1)
            },
            None => picture_pixels(bytes@) is None,
        },
{
    let img = image::load_from_memory(bytes).ok()?;
    Some((img.width(), img.height(), img.to_rgba8().into_raw()))
}

/// The pixels of a picture as a window draws them, blue before red, with its
/// width and height.
pub fn png_to_bgra(png: &[u8]) -> (r: Option<(u32, u32, Vec<u8>)>)
    ensures
        match r {
            Some(p) => picture_pixels(png@) matches Some(q) && p.0 == q.0 && p.1 == q.1 && p.2@
                == swapped(q.2),
            None => picture_pixels(png@) is None,
        },
{
    match decode_rgba(png) {
        Some((w, h, rgba)) => Some((w, h, bgra_of(rgba.as_slice()))),
        None => None,
    }
}

/// The width and the height of a picture.
pub fn picture_size(png: &[u8]) -> (r: Option<(u32, u32)>)
    ensures
        match r {
            Some(p) => picture_pixels(png@) matches Some(q) && p == (q.0, q.1),
            None => picture_pixels(png@) is None,
        },
{
    match decode_rgba(png) {
        Some((w, h, _)) => Some((w, h)),
        None => None,
    }
}

// ---------------------------------------------------------------------------
// What is done to a path, a query and a picture
// ---------------------------------------------------------------------------

/// A path is cut at each separator, and nowhere else: the pieces of two paths
/// with a separator between them are the pieces of the one and of the other,
/// and a path without a separator is one piece.
pub proof fn law_path_pieces(a: Seq<char>, sep: char, b: Seq<char>)
    requires
        sep == '/' || sep == '\\',
    ensures
        path_pieces(a.push(sep) + b) == path_pieces(a) + path_pieces(b),
        (forall|i: int| 0 <= i < b.len() ==> #[trigger] b[i] != '/' && b[i] != '\\')
            ==> path_pieces(b) == seq![b],
        path_pieces(b).len() > 0,
    decreases b.len(),
{
    let s = a.push(sep) + b;
    if b.len() == 0 {
        assert(s =~= a.push(sep));
        assert(s.drop_last() =~= a);
        assert(path_pieces(s) =~= path_pieces(a) + path_pieces(b));
        assert(b =~= Seq::empty());
        assert(path_pieces(b) =~= seq![b]);
    } else {
        let d = b.drop_last();
        law_path_pieces(a, sep, d);
        assert(s.drop_last() =~= a.push(sep) + d);
        assert(s.last() == b.last());
        let front = path_pieces(a) + path_pieces(d);
        if is_separator(b.last()) {
            assert(path_pieces(s) =~= path_pieces(a) + path_pieces(b));
            assert(b[b.len() - 1] == b.last());
        } else {
            assert(front.last() == path_pieces(d).last());
            assert(path_pieces(s) =~= path_pieces(a) + path_pieces(b));
            if forall|i: int| 0 <= i < b.len() ==> #[trigger] b[i] != '/' && b[i] != '\\' {
                assert forall|i: int| 0 <= i < d.len() implies #[trigger] d[i] != '/' && d[i]
                    != '\\' by {
                    assert(b[i] == d[i]);
                }
                assert(path_pieces(d) == seq![d]);
                assert(d.push(b.last()) =~= b);
                assert(path_pieces(b) =~= seq![b]);
            }
        }
    }
}

/// Of the pieces of a path those that are empty or a single dot do not count,
/// but for a dot that a path begins with. All others stay, in their order.
pub proof fn law_path_parts(pieces: Seq<Seq<char>>, rooted: bool)
    ensures
        path_parts(pieces, true) == pieces.filter(
            |p: Seq<char>| p != Seq::<char>::empty() && p != seq!['.'],
        ),
        pieces.len() > 0 && pieces[0] != seq!['.'] ==> path_parts(pieces, rooted) == path_parts(
            pieces,
            true,
        ),
        pieces.len() > 0 && pieces[0] == seq!['.'] ==> path_parts(pieces, false) == seq![
            seq!['.'],
        ] + path_parts(pieces, true),
    decreases pieces.len(),
{
    reveal(Seq::filter);
    reveal_strlit(".");
    assert("."@ =~= seq!['.']);
    let keep = |p: Seq<char>| p != Seq::<char>::empty() && p != seq!['.'];
    if pieces.len() > 0 {
        let d = pieces.drop_last();
        let l = pieces.last();
        law_path_parts(d, rooted);
        assert(l.len() == 0 ==> l =~= Seq::empty());
        if d.len() > 0 {
            assert(d[0] == pieces[0]);
            if pieces[0] == seq!['.'] {
                assert(path_parts(pieces, false) =~= seq![seq!['.']] + path_parts(pieces, true));
            }
        } else {
            assert(pieces[0] == l);
            assert(path_parts(d, true) =~= Seq::empty());
            assert(path_parts(d, false) =~= Seq::empty());
            if l == seq!['.'] {
                assert(l.len() == 1);
                assert(path_parts(pieces, true) =~= Seq::empty());
                assert(path_parts(pieces, false) =~= seq![seq!['.']]);
                assert(path_parts(pieces, false) =~= seq![seq!['.']] + path_parts(pieces, true));
            }
        }
    } else {
        assert(path_parts(pieces, true) =~= pieces.filter(keep));
    }
}

proof fn lemma_piece_end(s: Seq<char>)
    ensures
        piece_len(s) <= s.len(),
        forall|i: int| 0 <= i < piece_len(s) ==> !is_separator(#[trigger] s[i]),
        piece_len(s) < s.len() ==> is_separator(s[piece_len(s) as int]),
    decreases s.len(),
{
    if s.len() > 0 && !is_separator(s[0]) {
        let d = s.drop_first();
        lemma_piece_end(d);
        assert forall|i: int| 0 <= i < piece_len(s) implies !is_separator(#[trigger] s[i]) by {
            if i > 0 {
                assert(d[i - 1] == s[i]);
            }
        }
        if piece_len(s) < s.len() {
            assert(d[piece_len(d) as int] == s[piece_len(s) as int]);
        }
    }
}

/// A path names a share exactly where it begins with two separators, the name
/// of a server, one separator, and a character that is none.
pub proof fn law_share(s: Seq<char>)
    ensures
        has_share(s) <==> exists|k: int|
            #![trigger s[k]]
            2 < k < s.len() - 1 && is_separator(s[0]) && is_separator(s[1]) && is_separator(s[k])
                && !is_separator(s[k + 1]) && forall|i: int|
                2 <= i < k ==> !is_separator(#[trigger] s[i]),
{
    if s.len() >= 2 {
        let t = s.skip(2);
        lemma_piece_end(t);
        let n = piece_len(t) as int;
        assert(forall|i: int| 0 <= i < t.len() ==> t[i] == s[i + 2]);
        if has_share(s) {
            assert(t[n] == s[n + 2]);
            assert forall|i: int| 2 <= i < n + 2 implies !is_separator(#[trigger] s[i]) by {
                assert(t[i - 2] == s[i]);
            }
            assert(is_separator(s[n + 2]));
        }
        if exists|k: int|
            #![trigger s[k]]
            2 < k < s.len() - 1 && is_separator(s[0]) && is_separator(s[1]) && is_separator(s[k])
                && !is_separator(s[k + 1]) && forall|i: int|
                2 <= i < k ==> !is_separator(#[trigger] s[i]) {
            let k = choose|k: int|
                #![trigger s[k]]
                2 < k < s.len() - 1 && is_separator(s[0]) && is_separator(s[1]) && is_separator(
                    s[k],
                ) && !is_separator(s[k + 1]) && forall|i: int|
                    2 <= i < k ==> !is_separator(#[trigger] s[i]);
            assert(t[k - 2] == s[k]);
            if n < k - 2 {
                assert(t[n] == s[n + 2]);
            }
            assert(n == k - 2);
        }
    }
}

/// What a path begins with goes into its form: a drive by its letter in upper
/// case and a colon, a share by two slashes, any other root by one. A path of
/// a device keeps its form.
pub proof fn law_path_start(s: Seq<char>)
    ensures
        ({
            let drive = s.len() >= 2 && s[1] == ':' && ('a' <= s[0] <= 'z' || 'A' <= s[0] <= 'Z');
            let rest = if drive { s.skip(2) } else { s };
            let root = rest.len() > 0 && (rest[0] == '/' || rest[0] == '\\');
            let p = path_start(s);
            &&& drive ==> p.len() >= 2 && p[1] == ':' && 'A' <= p[0] <= 'Z' && (p[0] == s[0] || p[0]
                as u32 + 32 == s[0] as u32)
            &&& p.skip(if drive { 2 } else { 0 }) == if !drive && has_share(s) {
                seq!['/', '/']
            } else if root {
                seq!['/']
            } else {
                Seq::empty()
            }
            &&& !is_device_path(s) ==> path_key(s) == p + join(
                path_parts(path_pieces(rest), root),
                seq!['/'],
            )
            &&& is_device_path(s) ==> path_key(s) == s
        }),
{
    reveal_strlit("//");
    reveal_strlit("/");
    assert("//"@ =~= seq!['/', '/']);
    assert("/"@ =~= seq!['/']);
    let p = path_start(s);
    if has_drive(s) {
        assert(!is_separator(s[0]));
        assert(!has_share(s));
        if s.len() > 2 {
            assert(s.skip(2)[0] == s[2]);
        }
        let root = if has_root(s) { seq!['/'] } else { Seq::empty() };
        assert(p.skip(2) =~= root);
    } else {
        assert(p.skip(0) =~= p);
        if has_share(s) {
            assert(has_root(s));
        }
    }
}

/// The two separators count the same in all pieces of a path.
pub proof fn law_separators_alike(s: Seq<char>, t: Seq<char>)
    requires
        s.len() == t.len(),
        forall|i: int|
            0 <= i < s.len() ==> #[trigger] s[i] == t[i] || (is_separator(s[i]) && is_separator(
                t[i],
            )),
    ensures
        path_pieces(s) == path_pieces(t),
    decreases s.len(),
{
    if s.len() > 0 {
        let (a, b) = (s.drop_last(), t.drop_last());
        assert forall|i: int| 0 <= i < a.len() implies #[trigger] a[i] == b[i] || (is_separator(
            a[i],
        ) && is_separator(b[i])) by {
            assert(s[i] == a[i]);
        }
        law_separators_alike(a, b);
        assert(s[s.len() - 1] == s.last());
    }
}

/// The kinds of queries stand in a list in the order in which they are shown;
/// an index outside of the list stands for the first.
pub proof fn law_kind_at(index: int)
    ensures
        0 <= index < 4 ==> kind_at(index) == seq![
            QueryType::Standard,
            QueryType::Fuzzy,
            QueryType::Regex,
            QueryType::Phrase,
        ][index],
        !(0 <= index < 4) ==> kind_at(index) == QueryType::Standard,
{
}

/// Kinds of queries are told apart by their labels.
pub proof fn law_labels_differ(a: QueryType, b: QueryType)
    requires
        query_label(a) == query_label(b),
    ensures
        a == b,
{
    reveal_strlit("Standard");
    reveal_strlit("Fuzzy");
    reveal_strlit("Regex");
    reveal_strlit("Phrase");
    let x = query_label(a);
    let y = query_label(b);
    assert(x[0] == y[0]);
    assert("Standard"@[0] == 'S' && "Fuzzy"@[0] == 'F' && "Regex"@[0] == 'R' && "Phrase"@[0] == 'P');
}

/// What is asked for a query depends on its kind: a standard query is parsed
/// as it is, a fuzzy one looks for the term with one change, a pattern is
/// matched as it is, and a phrase is parsed in quotes. A phrase of whitespace
/// finds all documents, and no other query does.
pub proof fn law_plan_of_kind(kind: QueryType, query: Seq<char>, p: QueryPlan)
    requires
        is_plan_for(kind, query, p),
    ensures
        match p {
            QueryPlan::Parse { query: q } => (kind == QueryType::Standard && q@ == query) || (kind
                == QueryType::Phrase && q@ == seq!['"'] + query + seq!['"'] && exists|i: int|
                0 <= i < query.len() && !is_white(#[trigger] query[i])),
            QueryPlan::Fuzzy { term, distance } => kind == QueryType::Fuzzy && term@ == query
                && distance == 1,
            QueryPlan::Pattern { pattern } => kind == QueryType::Regex && pattern@ == query,
            QueryPlan::All => kind == QueryType::Phrase && forall|i: int|
                0 <= i < query.len() ==> is_white(#[trigger] query[i]),
        },
{
    let (a, b) = crate::text::law_trim(query);
    if a < b {
        assert(!is_white(query[a]));
    }
}

/// What a list shows of a text is the text itself where it has at most a
/// hundred bytes, and otherwise its first hundred bytes, or as many as make
/// whole characters, with three dots behind them.
pub proof fn law_snippet(raw: Seq<char>)
    ensures
        vstd::utf8::encode_utf8(raw).len() <= 100 ==> snippet_of(raw) == raw && snippet_fits(raw),
        vstd::utf8::encode_utf8(raw).len() > 100 ==> {
            let k = snippet_of(raw).len() - 3;
            &&& 0 <= k < raw.len()
            &&& snippet_of(raw) == raw.take(k) + seq!['.', '.', '.']
            &&& vstd::utf8::encode_utf8(raw.take(k)).len() <= 100
            &&& vstd::utf8::encode_utf8(raw.take(k + 1)).len() > 100
            &&& snippet_fits(raw) <==> exists|n: int|
                0 <= n <= raw.len() && vstd::utf8::encode_utf8(#[trigger] raw.take(n)).len() == 100
        },
{
    reveal_strlit("...");
    assert("..."@ =~= seq!['.', '.', '.']);
    crate::text::law_utf8_len(raw);
    crate::text::law_byte_prefix(raw, 100);
    assert forall|n: int| 0 <= n <= raw.len() implies utf8_len(#[trigger] raw.take(n))
        == vstd::utf8::encode_utf8(raw.take(n)).len() by {
        crate::text::law_utf8_len(raw.take(n));
    }
}

/// Of each pixel the first and the third byte change places, and the second
/// and the fourth stay.
pub proof fn law_pixels_swapped(rgba: Seq<u8>, k: int)
    requires
        0 <= k,
        4 * k + 3 < rgba.len(),
    ensures
        swapped(rgba).len() == rgba.len(),
        swapped(rgba)[4 * k] == rgba[4 * k + 2],
        swapped(rgba)[4 * k + 1] == rgba[4 * k + 1],
        swapped(rgba)[4 * k + 2] == rgba[4 * k],
        swapped(rgba)[4 * k + 3] == rgba[4 * k + 3],
{
}

/// A path is that of a device exactly where it begins with two separators, a
/// question mark or a dot, and one separator more, whatever follows.
pub proof fn law_device_path(a: char, b: char, c: char, d: char, rest: Seq<char>)
    ensures
        is_device_path(seq![a, b, c, d] + rest) <==> is_separator(a) && is_separator(b)
            && is_separator(d) && (c == '?' || c == '.'),
{
    let s = seq![a, b, c, d] + rest;
    assert(s[0] == a && s[1] == b && s[2] == c && s[3] == d);
}

/// The page and the list of hits share the width of the window, side by side,
/// and have one height; below them the field, the button and the choice stand
/// in one row. The list has at most a third of the width, and the row at most
/// a fourth of the height.
pub proof fn law_layout(w: i32, h: i32, r: Layout)
    requires
        0 <= w <= 0xffff,
        0 <= h <= 0xffff,
        call_ensures(layout, (w, h), r),
    ensures
        r.page.x == 0 && r.page.y == 0 && r.list.y == 0,
        r.list.x == r.page.width,
        r.page.width + r.list.width == w,
        r.page.height == r.list.height,
        3 * r.list.width <= w,
        r.list.width <= 250,
        4 * (h - r.page.height) <= h,
        h - r.page.height <= 40,
        w >= 750 ==> r.list.width == 250,
        h >= 160 ==> r.page.height == h - 40,
        r.edit.y == r.button.y == r.combo.y == r.page.height + 5,
        r.page.width >= 260 ==> r.edit.x + r.edit.width + 5 == r.button.x && r.button.x
            + r.button.width + 10 == r.combo.x && r.combo.x + r.combo.width + 10 == r.page.width,
{
}

} // verus!
