//! Operations on text as sequences of characters.

use vstd::prelude::*;

verus! {

/// Appending one character (`String::push`).
pub assume_specification[ String::push ](s: &mut String, c: char)
    ensures
        final(s)@ == old(s)@.push(c),
;

/// Appending a string slice (`String::push_str`).
pub assume_specification[ String::push_str ](s: &mut String, other: &str)
    ensures
        final(s)@ == old(s)@ + other@,
;

/// The Unicode property `White_Space`.
pub open spec fn is_white(c: char) -> bool {
    ||| '\u{9}' <= c <= '\u{d}'
    ||| c == ' '
    ||| c == '\u{85}'
    ||| c == '\u{a0}'
    ||| c == '\u{1680}'
    ||| '\u{2000}' <= c <= '\u{200a}'
    ||| c == '\u{2028}'
    ||| c == '\u{2029}'
    ||| c == '\u{202f}'
    ||| c == '\u{205f}'
    ||| c == '\u{3000}'
}

/// The Unicode general category `Cc`.
pub open spec fn is_cc(c: char) -> bool {
    c <= '\u{1f}' || '\u{7f}' <= c <= '\u{9f}'
}

/// Whether a character has the property `White_Space`.
pub fn is_whitespace(c: char) -> (b: bool)
    ensures
        b == is_white(c),
{
    ('\u{9}' <= c && c <= '\u{d}') || c == ' ' || c == '\u{85}' || c == '\u{a0}' || c == '\u{1680}'
        || ('\u{2000}' <= c && c <= '\u{200a}') || c == '\u{2028}' || c == '\u{2029}'
        || c == '\u{202f}' || c == '\u{205f}' || c == '\u{3000}'
}

/// Whether a character has the general category `Cc`.
pub fn is_control(c: char) -> (b: bool)
    ensures
        b == is_cc(c),
{
    c <= '\u{1f}' || ('\u{7f}' <= c && c <= '\u{9f}')
}

/// The characters of a string.
pub fn chars_of(s: &str) -> (v: Vec<char>)
    ensures
        v@ == s@,
{
    let mut v: Vec<char> = Vec::new();
    for c in it: s.chars()
        invariant
            it.seq() == s@,
            v@ == s@.take(it.index()),
    {
        v.push(c);
        assert(v@ =~= s@.take(it.index() + 1));
    }
    assert(s@.take(s@.len() as int) =~= s@);
    v
}

/// The string made of the characters `v[from..to]`.
pub fn string_of(v: &Vec<char>, from: usize, to: usize) -> (s: String)
    requires
        from <= to <= v.len(),
    ensures
        s@ == v@.subrange(from as int, to as int),
{
    let mut s = String::new();
    let mut i: usize = from;
    while i < to
        invariant
            from <= i <= to <= v.len(),
            s@ == v@.subrange(from as int, i as int),
        decreases to - i,
    {
        s.push(v[i]);
        assert(v@.subrange(from as int, i + 1) =~= v@.subrange(from as int, i as int).push(
            v@[i as int],
        ));
        i += 1;
    }
    s
}

// ---------------------------------------------------------------------------
// Numbers
// ---------------------------------------------------------------------------

/// The digit of a value below ten.
pub open spec fn digit(d: int) -> char {
    ('0' as int + d) as char
}

/// A number in decimal notation, without leading zeros.
pub open spec fn decimal(n: nat) -> Seq<char>
    decreases n,
{
    if n < 10 {
        seq![digit(n as int)]
    } else {
        decimal(n / 10).push(digit((n % 10) as int))
    }
}

/// A signed number in decimal notation.
pub open spec fn signed_decimal(n: int) -> Seq<char> {
    if n < 0 {
        seq!['-'] + decimal((-n) as nat)
    } else {
        decimal(n as nat)
    }
}

/// The hexadecimal digit of a value below sixteen.
pub open spec fn hex_digit(d: int, upper: bool) -> char {
    if d < 10 {
        digit(d)
    } else if upper {
        ('A' as int + d - 10) as char
    } else {
        ('a' as int + d - 10) as char
    }
}

/// The last `width` digits of a number in hexadecimal notation.
pub open spec fn hex(n: nat, width: nat, upper: bool) -> Seq<char>
    decreases width,
{
    if width == 0 {
        Seq::empty()
    } else {
        hex(n / 16, (width - 1) as nat, upper).push(hex_digit((n % 16) as int, upper))
    }
}

/// The digit of a value below ten.
fn digit_char(d: u64) -> (c: char)
    requires
        d < 10,
    ensures
        c == digit(d as int),
{
    match d {
        0 => '0',
        1 => '1',
        2 => '2',
        3 => '3',
        4 => '4',
        5 => '5',
        6 => '6',
        7 => '7',
        8 => '8',
        _ => '9',
    }
}

/// The hexadecimal digit of a value below sixteen.
fn hex_digit_char(d: u64, upper: bool) -> (c: char)
    requires
        d < 16,
    ensures
        c == hex_digit(d as int, upper),
{
    if d < 10 {
        digit_char(d)
    } else if upper {
        match d {
            10 => 'A',
            11 => 'B',
            12 => 'C',
            13 => 'D',
            14 => 'E',
            _ => 'F',
        }
    } else {
        match d {
            10 => 'a',
            11 => 'b',
            12 => 'c',
            13 => 'd',
            14 => 'e',
            _ => 'f',
        }
    }
}

/// Appends a number in decimal notation.
pub fn push_decimal(s: &mut String, n: u64)
    ensures
        final(s)@ == old(s)@ + decimal(n as nat),
    decreases n,
{
    if n >= 10 {
        push_decimal(s, n / 10);
    }
    s.push(digit_char(n % 10));
    proof {
        if n >= 10 {
            assert(old(s)@ + decimal(n as nat) =~= (old(s)@ + decimal((n / 10) as nat)).push(
                digit((n % 10) as int),
            ));
        } else {
            assert(old(s)@ + decimal(n as nat) =~= old(s)@.push(digit(n as int)));
        }
    }
}

/// Appends a signed number in decimal notation.
pub fn push_signed(s: &mut String, n: i64)
    ensures
        final(s)@ == old(s)@ + signed_decimal(n as int),
{
    if n < 0 {
        s.push('-');
        let m: u64 = if n == i64::MIN {
            0x8000_0000_0000_0000u64
        } else {
            (-n) as u64
        };
        push_decimal(s, m);
        assert(old(s)@ + signed_decimal(n as int) =~= old(s)@.push('-') + decimal((-n) as nat));
    } else {
        push_decimal(s, n as u64);
    }
}

/// Appends the last `width` digits of a number in hexadecimal notation.
pub fn push_hex(s: &mut String, n: u64, width: u64, upper: bool)
    ensures
        final(s)@ == old(s)@ + hex(n as nat, width as nat, upper),
    decreases width,
{
    if width > 0 {
        push_hex(s, n / 16, width - 1, upper);
        s.push(hex_digit_char(n % 16, upper));
        assert(old(s)@ + hex(n as nat, width as nat, upper) =~= (old(s)@ + hex(
            (n / 16) as nat,
            (width - 1) as nat,
            upper,
        )).push(hex_digit((n % 16) as int, upper)));
    } else {
        assert(old(s)@ + hex(n as nat, width as nat, upper) =~= old(s)@);
    }
}

/// The value of decimal digits, `None` where there is none, another
/// character, or more than `max`.
pub open spec fn digits_value(s: Seq<char>, max: nat) -> Option<nat>
    decreases s.len(),
{
    if s.len() == 0 {
        None
    } else if !('0' <= s.last() <= '9') {
        None
    } else {
        let low = (s.last() as int - '0' as int) as nat;
        let high = if s.len() == 1 {
            Some(0nat)
        } else {
            digits_value(s.drop_last(), max)
        };
        match high {
            Some(h) => if h * 10 + low <= max {
                Some(h * 10 + low)
            } else {
                None
            },
            None => None,
        }
    }
}

proof fn lemma_digits_prefix(s: Seq<char>, max: nat, k: int)
    requires
        0 < k <= s.len(),
        digits_value(s.take(k), max) is None,
    ensures
        digits_value(s, max) is None,
    decreases s.len() - k,
{
    if k < s.len() {
        assert(s.take(k + 1).drop_last() =~= s.take(k));
        lemma_digits_prefix(s, max, k + 1);
    } else {
        assert(s.take(k) =~= s);
    }
}

/// Reads decimal digits into a number of 32 bits.
pub fn parse_u32(s: &Vec<char>) -> (r: Option<u32>)
    ensures
        match r {
            Some(v) => digits_value(s@, u32::MAX as nat) == Some(v as nat),
            None => digits_value(s@, u32::MAX as nat) is None,
        },
{
    if s.len() == 0 {
        return None;
    }
    let mut v: u64 = 0;
    let mut i: usize = 0;
    while i < s.len()
        invariant
            i <= s.len(),
            s.len() > 0,
            v <= u32::MAX,
            i > 0 ==> digits_value(s@.take(i as int), u32::MAX as nat) == Some(v as nat),
            i == 0 ==> v == 0,
        decreases s.len() - i,
    {
        let c = s[i];
        proof {
            assert(s@.take(i + 1).drop_last() =~= s@.take(i as int));
            assert(s@.take(i + 1).last() == c);
        }
        if c < '0' || '9' < c {
            proof {
                lemma_digits_prefix(s@, u32::MAX as nat, i + 1);
            }
            return None;
        }
        let low: u64 = (c as u64) - 48;
        let next: u64 = v * 10 + low;
        if next > u32::MAX as u64 {
            proof {
                lemma_digits_prefix(s@, u32::MAX as nat, i + 1);
            }
            return None;
        }
        v = next;
        i += 1;
    }
    assert(s@.take(s@.len() as int) =~= s@);
    Some(v as u32)
}

// ---------------------------------------------------------------------------
// Trimming
// ---------------------------------------------------------------------------

/// A text without leading whitespace.
pub open spec fn trim_start(s: Seq<char>) -> Seq<char>
    decreases s.len(),
{
    if s.len() > 0 && is_white(s[0]) {
        trim_start(s.drop_first())
    } else {
        s
    }
}

/// A text without trailing whitespace.
pub open spec fn trim_end(s: Seq<char>) -> Seq<char>
    decreases s.len(),
{
    if s.len() > 0 && is_white(s.last()) {
        trim_end(s.drop_last())
    } else {
        s
    }
}

/// A text without leading and trailing whitespace.
pub open spec fn trim(s: Seq<char>) -> Seq<char> {
    trim_end(trim_start(s))
}

/// A text without leading whitespace is an end of it.
pub proof fn lemma_trim_start(s: Seq<char>)
    ensures
        trim_start(s).len() <= s.len(),
        trim_start(s) == s.skip(s.len() - trim_start(s).len()),
        trim_start(s).len() > 0 ==> !is_white(trim_start(s)[0]),
        forall|i: int| 0 <= i < s.len() - trim_start(s).len() ==> is_white(#[trigger] s[i]),
    decreases s.len(),
{
    if s.len() > 0 && is_white(s[0]) {
        let d = s.drop_first();
        lemma_trim_start(d);
        assert(d.skip(d.len() - trim_start(d).len()) =~= s.skip(s.len() - trim_start(d).len()));
        assert forall|i: int| 0 <= i < s.len() - trim_start(s).len() implies is_white(
            #[trigger] s[i],
        ) by {
            if i > 0 {
                assert(d[i - 1] == s[i]);
            }
        }
    } else {
        assert(s.skip(0) =~= s);
    }
}

/// A text without trailing whitespace is a beginning of it.
pub proof fn lemma_trim_end(s: Seq<char>)
    ensures
        trim_end(s).len() <= s.len(),
        trim_end(s) == s.take(trim_end(s).len() as int),
        trim_end(s).len() > 0 ==> !is_white(trim_end(s).last()),
        forall|i: int| trim_end(s).len() <= i < s.len() ==> is_white(#[trigger] s[i]),
    decreases s.len(),
{
    if s.len() > 0 && is_white(s.last()) {
        let d = s.drop_last();
        lemma_trim_end(d);
        assert(d.take(trim_end(d).len() as int) =~= s.take(trim_end(d).len() as int));
        assert forall|i: int| trim_end(s).len() <= i < s.len() implies is_white(
            #[trigger] s[i],
        ) by {
            if i < s.len() - 1 {
                assert(d[i] == s[i]);
            }
        }
    } else {
        assert(s.take(s.len() as int) =~= s);
    }
}

/// A trimmed text is a part of the text that neither begins nor ends with
/// whitespace.
pub proof fn lemma_trim(s: Seq<char>) -> (r: (int, int))
    ensures
        0 <= r.0 <= r.1 <= s.len(),
        trim(s) == s.subrange(r.0, r.1),
        r.0 < r.1 ==> !is_white(s[r.0]) && !is_white(s[r.1 - 1]),
{
    lemma_trim_start(s);
    let t = trim_start(s);
    lemma_trim_end(t);
    let a = s.len() - t.len();
    let b = a + trim(s).len();
    assert(trim(s) =~= s.subrange(a, b));
    if a < b {
        assert(t[0] == trim(s)[0]);
        assert(trim(s)[0] == s[a]);
        assert(trim(s).last() == s[b - 1]);
    }
    (a, b)
}

/// The index behind leading whitespace of `v[from..to]`.
pub fn skip_white(v: &Vec<char>, from: usize, to: usize) -> (i: usize)
    requires
        from <= to <= v.len(),
    ensures
        from <= i <= to,
        trim_start(v@.subrange(from as int, to as int)) == v@.subrange(i as int, to as int),
        i < to ==> !is_white(v@[i as int]),
        forall|k: int| from <= k < i ==> is_white(#[trigger] v@[k]),
{
    let mut i: usize = from;
    while i < to && is_whitespace(v[i])
        invariant
            from <= i <= to <= v.len(),
            trim_start(v@.subrange(from as int, to as int)) == trim_start(
                v@.subrange(i as int, to as int),
            ),
            forall|k: int| from <= k < i ==> is_white(#[trigger] v@[k]),
        decreases to - i,
    {
        assert(v@.subrange(i as int, to as int).drop_first() =~= v@.subrange(i + 1, to as int));
        i += 1;
    }
    i
}

/// The index before trailing whitespace of `v[from..to]`.
pub fn skip_white_back(v: &Vec<char>, from: usize, to: usize) -> (j: usize)
    requires
        from <= to <= v.len(),
    ensures
        from <= j <= to,
        trim_end(v@.subrange(from as int, to as int)) == v@.subrange(from as int, j as int),
        j > from ==> !is_white(v@[j - 1]),
        forall|k: int| j <= k < to ==> is_white(#[trigger] v@[k]),
{
    let mut j: usize = to;
    while j > from && is_whitespace(v[j - 1])
        invariant
            from <= j <= to <= v.len(),
            trim_end(v@.subrange(from as int, to as int)) == trim_end(
                v@.subrange(from as int, j as int),
            ),
            forall|k: int| j <= k < to ==> is_white(#[trigger] v@[k]),
        decreases j,
    {
        assert(v@.subrange(from as int, j as int).drop_last() =~= v@.subrange(
            from as int,
            j - 1,
        ));
        j -= 1;
    }
    j
}

/// The bounds of `v[from..to]` without leading and trailing whitespace.
pub fn trim_bounds(v: &Vec<char>, from: usize, to: usize) -> (r: (usize, usize))
    requires
        from <= to <= v.len(),
    ensures
        from <= r.0 <= r.1 <= to,
        trim(v@.subrange(from as int, to as int)) == v@.subrange(r.0 as int, r.1 as int),
{
    let i = skip_white(v, from, to);
    let j = skip_white_back(v, i, to);
    (i, j)
}

/// A trimmed string.
pub fn trimmed(s: &str) -> (r: String)
    ensures
        r@ == trim(s@),
{
    let v = chars_of(s);
    let (i, j) = trim_bounds(&v, 0, v.len());
    assert(v@.subrange(0, v@.len() as int) =~= v@);
    string_of(&v, i, j)
}

// ---------------------------------------------------------------------------
// Lengths in bytes
// ---------------------------------------------------------------------------

/// The bytes that a character takes in UTF-8.
pub open spec fn char_width(c: char) -> nat {
    if c as u32 <= 0x7f {
        1
    } else if c as u32 <= 0x7ff {
        2
    } else if c as u32 <= 0xffff {
        3
    } else {
        4
    }
}

/// The bytes that a text takes in UTF-8.
pub open spec fn utf8_len(s: Seq<char>) -> nat
    decreases s.len(),
{
    if s.len() == 0 {
        0
    } else {
        utf8_len(s.drop_last()) + char_width(s.last())
    }
}

/// Whether `n` bytes of a text end between two of its characters, or at one
/// of its ends.
pub open spec fn is_boundary(s: Seq<char>, n: nat) -> bool {
    exists|k: int| 0 <= k <= s.len() && utf8_len(#[trigger] s.take(k)) == n
}

/// The longest beginning of a text that takes at most `n` bytes.
pub open spec fn byte_prefix(s: Seq<char>, n: nat) -> Seq<char>
    decreases s.len(),
{
    if utf8_len(s) <= n {
        s
    } else {
        byte_prefix(s.drop_last(), n)
    }
}

/// The length of a concatenation is the sum of the lengths.
pub proof fn lemma_utf8_len_add(a: Seq<char>, b: Seq<char>)
    ensures
        utf8_len(a + b) == utf8_len(a) + utf8_len(b),
    decreases b.len(),
{
    if b.len() == 0 {
        assert(a + b =~= a);
    } else {
        lemma_utf8_len_add(a, b.drop_last());
        assert((a + b).drop_last() =~= a + b.drop_last());
    }
}

/// Longer beginnings take more bytes.
pub proof fn lemma_utf8_len_take(s: Seq<char>, i: int, j: int)
    requires
        0 <= i <= j <= s.len(),
    ensures
        utf8_len(s.take(i)) + (j - i) <= utf8_len(s.take(j)),
    decreases j - i,
{
    if i < j {
        lemma_utf8_len_take(s, i, j - 1);
        assert(s.take(j).drop_last() =~= s.take(j - 1));
    }
}

/// A beginning that is as long as possible is the one that `byte_prefix`
/// gives, and it ends where a boundary would be.
pub proof fn lemma_byte_prefix(s: Seq<char>, k: int, n: nat)
    requires
        0 <= k <= s.len(),
        utf8_len(s.take(k)) <= n,
        k < s.len() ==> utf8_len(s.take(k)) + char_width(s[k]) > n,
    ensures
        byte_prefix(s, n) == s.take(k),
        is_boundary(s, n) <==> utf8_len(s.take(k)) == n,
        k < s.len() <==> utf8_len(s) > n,
    decreases s.len(),
{
    assert(s.take(s.len() as int) =~= s);
    if k < s.len() {
        assert(s.take(k + 1).drop_last() =~= s.take(k));
        lemma_utf8_len_take(s, k + 1, s.len() as int);
        let d = s.drop_last();
        assert(d.take(k) =~= s.take(k));
        lemma_byte_prefix(d, k, n);
    }
    if is_boundary(s, n) {
        let b = choose|b: int| 0 <= b <= s.len() && utf8_len(#[trigger] s.take(b)) == n;
        if b > k {
            assert(s.take(k + 1).drop_last() =~= s.take(k));
            lemma_utf8_len_take(s, k + 1, b);
        } else if b < k {
            lemma_utf8_len_take(s, b, k);
        }
    }
}

/// The bytes that a character takes in UTF-8.
pub fn width_of(c: char) -> (n: usize)
    ensures
        n == char_width(c),
        1 <= n <= 4,
{
    let u: u32 = c as u32;
    if u <= 0x7f {
        1
    } else if u <= 0x7ff {
        2
    } else if u <= 0xffff {
        3
    } else {
        4
    }
}

/// The end of the longest beginning of `v[from..to]` that takes at most
/// `limit` bytes, and the bytes that it takes.
pub fn prefix_within(v: &Vec<char>, from: usize, to: usize, limit: usize) -> (r: (usize, usize))
    requires
        from <= to <= v.len(),
    ensures
        from <= r.0 <= to,
        r.1 <= limit,
        r.1 == utf8_len(v@.subrange(from as int, r.0 as int)),
        byte_prefix(v@.subrange(from as int, to as int), limit as nat) == v@.subrange(
            from as int,
            r.0 as int,
        ),
        is_boundary(v@.subrange(from as int, to as int), limit as nat) <==> r.1 == limit,
        r.0 < to <==> utf8_len(v@.subrange(from as int, to as int)) > limit,
{
    let mut k: usize = from;
    let mut n: usize = 0;
    let ghost s = v@.subrange(from as int, to as int);
    assert(v@.subrange(from as int, from as int).len() == 0);
    while k < to && width_of(v[k]) <= limit - n
        invariant
            from <= k <= to <= v.len(),
            n <= limit,
            n == utf8_len(v@.subrange(from as int, k as int)),
        decreases to - k,
    {
        assert(v@.subrange(from as int, k + 1).drop_last() =~= v@.subrange(from as int, k as int));
        n += width_of(v[k]);
        k += 1;
    }
    proof {
        assert(s.take(k - from) =~= v@.subrange(from as int, k as int));
        lemma_byte_prefix(s, k - from, limit as nat);
    }
    (k, n)
}

// ---------------------------------------------------------------------------
// Lists of texts
// ---------------------------------------------------------------------------

/// The characters of each of a list of strings.
pub open spec fn texts(v: Seq<String>) -> Seq<Seq<char>> {
    v.map_values(|s: String| s@)
}

/// A list of texts with `sep` between each two of them.
pub open spec fn join(parts: Seq<Seq<char>>, sep: Seq<char>) -> Seq<char>
    decreases parts.len(),
{
    if parts.len() == 0 {
        Seq::empty()
    } else if parts.len() == 1 {
        parts[0]
    } else {
        join(parts.drop_last(), sep) + sep + parts.last()
    }
}

/// Joins strings with `sep` between each two of them.
pub fn joined(parts: &Vec<String>, sep: &str) -> (r: String)
    ensures
        r@ == join(texts(parts@), sep@),
{
    let mut r = String::new();
    let mut i: usize = 0;
    let ghost all = texts(parts@);
    while i < parts.len()
        invariant
            i <= parts.len(),
            all == texts(parts@),
            r@ == join(all.take(i as int), sep@),
        decreases parts.len() - i,
    {
        if i > 0 {
            r.push_str(sep);
        }
        r.push_str(parts[i].as_str());
        proof {
            assert(all.take(i + 1).drop_last() =~= all.take(i as int));
            assert(all.take(i + 1).last() == parts@[i as int]@);
            assert(r@ =~= join(all.take(i + 1), sep@));
        }
        i += 1;
    }
    assert(all.take(i as int) =~= all);
    r
}

// ---------------------------------------------------------------------------
// Words
// ---------------------------------------------------------------------------

/// How many characters stand before the first whitespace.
pub open spec fn word_len(s: Seq<char>) -> nat
    decreases s.len(),
{
    if s.len() == 0 || is_white(s[0]) {
        0
    } else {
        1 + word_len(s.drop_first())
    }
}

/// Leading whitespace makes a text no longer.
pub proof fn lemma_trim_start_len(s: Seq<char>)
    ensures
        trim_start(s).len() <= s.len(),
        trim_start(s).len() > 0 ==> !is_white(trim_start(s)[0]),
    decreases s.len(),
{
    if s.len() > 0 && is_white(s[0]) {
        lemma_trim_start_len(s.drop_first());
    }
}

/// A word is no longer than its text.
pub proof fn lemma_word_len(s: Seq<char>)
    ensures
        word_len(s) <= s.len(),
        s.len() > 0 && !is_white(s[0]) ==> word_len(s) > 0,
    decreases s.len(),
{
    if s.len() > 0 && !is_white(s[0]) {
        lemma_word_len(s.drop_first());
    }
}

/// The words of a text: what stands between whitespace.
pub open spec fn words(s: Seq<char>) -> Seq<Seq<char>>
    decreases s.len(),
    via words_decreases
{
    let t = trim_start(s);
    if t.len() == 0 {
        Seq::empty()
    } else {
        let n = word_len(t) as int;
        seq![t.take(n)] + words(t.skip(n))
    }
}

#[via_fn]
proof fn words_decreases(s: Seq<char>) {
    lemma_trim_start_len(s);
    lemma_word_len(trim_start(s));
}

/// The end of the word that begins at `from`.
pub fn word_end(v: &Vec<char>, from: usize, to: usize) -> (i: usize)
    requires
        from <= to <= v.len(),
    ensures
        from <= i <= to,
        i - from == word_len(v@.subrange(from as int, to as int)),
{
    let mut i: usize = from;
    while i < to && !is_whitespace(v[i])
        invariant
            from <= i <= to <= v.len(),
            word_len(v@.subrange(from as int, to as int)) == i - from + word_len(
                v@.subrange(i as int, to as int),
            ),
        decreases to - i,
    {
        assert(v@.subrange(i as int, to as int).drop_first() =~= v@.subrange(i + 1, to as int));
        i += 1;
    }
    i
}

/// The words of `v[from..to]`.
pub fn split_words(v: &Vec<char>, from: usize, to: usize) -> (r: Vec<String>)
    requires
        from <= to <= v.len(),
    ensures
        texts(r@) == words(v@.subrange(from as int, to as int)),
{
    let mut r: Vec<String> = Vec::new();
    let mut at: usize = skip_white(v, from, to);
    let ghost all = words(v@.subrange(from as int, to as int));
    assert(texts(r@) + words(v@.subrange(from as int, to as int)) =~= all);
    proof {
        let s = v@.subrange(from as int, to as int);
        let t = v@.subrange(at as int, to as int);
        lemma_trim_start_len(s);
        lemma_trim_twice(s);
        assert(words(t) == words(s));
    }
    while at < to
        invariant
            from <= at <= to <= v.len(),
            at < to ==> !is_white(v@[at as int]),
            texts(r@) + words(v@.subrange(at as int, to as int)) == all,
        decreases to - at,
    {
        let ghost t = v@.subrange(at as int, to as int);
        let end = word_end(v, at, to);
        proof {
            lemma_word_len(t);
            assert(trim_start(t) == t);
        }
        let ghost before = r@;
        r.push(string_of(v, at, end));
        let next = skip_white(v, end, to);
        proof {
            assert(t.take(end - at) =~= v@.subrange(at as int, end as int));
            assert(t.skip(end - at) =~= v@.subrange(end as int, to as int));
            lemma_trim_twice(t.skip(end - at));
            assert(words(t.skip(end - at)) == words(v@.subrange(next as int, to as int)));
            assert(texts(r@) =~= texts(before).push(v@.subrange(at as int, end as int)));
            assert(texts(r@) + words(v@.subrange(next as int, to as int)) =~= texts(before) + (
            seq![t.take(end - at)] + words(t.skip(end - at))));
        }
        at = next;
    }
    assert(words(v@.subrange(at as int, to as int)) =~= Seq::empty());
    assert(texts(r@) =~= all);
    r
}

/// Trimming the start a second time changes nothing.
pub proof fn lemma_trim_twice(s: Seq<char>)
    ensures
        trim_start(trim_start(s)) == trim_start(s),
{
    lemma_trim_start_len(s);
}

/// Whether a text holds a character.
pub fn holds_char(v: &Vec<char>, from: usize, to: usize, c: char) -> (b: bool)
    requires
        from <= to <= v.len(),
    ensures
        b == v@.subrange(from as int, to as int).contains(c),
{
    let mut i: usize = from;
    while i < to
        invariant
            from <= i <= to <= v.len(),
            forall|k: int| from <= k < i ==> v@[k] != c,
        decreases to - i,
    {
        if v[i] == c {
            assert(v@.subrange(from as int, to as int)[i - from] == c);
            return true;
        }
        i += 1;
    }
    false
}

/// Whether a list holds a string.
pub fn holds_text(list: &Vec<String>, s: &String) -> (b: bool)
    ensures
        b == texts(list@).contains(s@),
{
    let mut i: usize = 0;
    while i < list.len()
        invariant
            i <= list.len(),
            forall|k: int| 0 <= k < i ==> (#[trigger] list@[k])@ != s@,
        decreases list.len() - i,
    {
        if list[i] == *s {
            assert(texts(list@)[i as int] == s@);
            return true;
        }
        i += 1;
    }
    assert forall|k: int| 0 <= k < texts(list@).len() implies texts(list@)[k] != s@ by {
        assert(list@[k]@ != s@);
    }
    false
}

/// A copy of a list of strings.
pub fn copy_texts(list: &Vec<String>) -> (r: Vec<String>)
    ensures
        texts(r@) == texts(list@),
{
    let mut r: Vec<String> = Vec::new();
    let mut i: usize = 0;
    while i < list.len()
        invariant
            i <= list.len(),
            texts(r@) == texts(list@).take(i as int),
        decreases list.len() - i,
    {
        let ghost before = r@;
        r.push(list[i].clone());
        assert(texts(r@) =~= texts(before).push(list@[i as int]@));
        assert(texts(list@).take(i + 1) =~= texts(list@).take(i as int).push(list@[i as int]@));
        i += 1;
    }
    assert(texts(list@).take(i as int) =~= texts(list@));
    r
}

/// Whether two strings are equal.
pub fn same_text(a: &str, b: &str) -> (r: bool)
    ensures
        r == (a@ == b@),
{
    let x = chars_of(a);
    let y = chars_of(b);
    if x.len() != y.len() {
        return false;
    }
    let mut i: usize = 0;
    while i < x.len()
        invariant
            i <= x.len() == y.len(),
            x@ == a@,
            y@ == b@,
            forall|k: int| 0 <= k < i ==> x@[k] == y@[k],
        decreases x.len() - i,
    {
        if x[i] != y[i] {
            assert(x@[i as int] != y@[i as int]);
            return false;
        }
        i += 1;
    }
    assert(x@ =~= y@);
    true
}

// ---------------------------------------------------------------------------
// What trimming, splitting and cutting keep
// ---------------------------------------------------------------------------

/// Trimming takes whitespace off the two ends and nothing else: what is left is
/// a part of the text with no whitespace at its ends, and only whitespace
/// stands before and behind it.
pub proof fn law_trim(s: Seq<char>) -> (r: (int, int))
    ensures
        0 <= r.0 <= r.1 <= s.len(),
        trim(s) == s.subrange(r.0, r.1),
        r.0 < r.1 ==> !is_white(s[r.0]) && !is_white(s[r.1 - 1]),
        forall|i: int| 0 <= i < r.0 || r.1 <= i < s.len() ==> is_white(#[trigger] s[i]),
{
    lemma_trim_start(s);
    let t = trim_start(s);
    lemma_trim_end(t);
    let a = s.len() - t.len();
    let b = a + trim(s).len();
    assert(trim(s) =~= s.subrange(a, b));
    if a < b {
        assert(t[0] == trim(s)[0]);
        assert(trim(s)[0] == s[a]);
        assert(trim(s).last() == s[b - 1]);
    }
    assert forall|i: int| 0 <= i < a || b <= i < s.len() implies is_white(#[trigger] s[i]) by {
        if i >= b {
            assert(t[i - a] == s[i]);
        }
    }
    (a, b)
}

/// What is not whitespace survives trimming, in its order.
pub proof fn law_trim_keeps(s: Seq<char>)
    ensures
        trim(s).filter(|c: char| !is_white(c)) == s.filter(|c: char| !is_white(c)),
{
    let keep = |c: char| !is_white(c);
    let (a, b) = law_trim(s);
    let (x, y, z) = (s.subrange(0, a), s.subrange(a, b), s.subrange(b, s.len() as int));
    assert(s =~= (x + y) + z);
    Seq::filter_distributes_over_add(x + y, z, keep);
    Seq::filter_distributes_over_add(x, y, keep);
    lemma_filter_none(x, keep);
    lemma_filter_none(z, keep);
    assert(x.filter(keep) + y.filter(keep) + z.filter(keep) =~= y.filter(keep));
}

/// Where no element is kept, nothing is left.
pub proof fn lemma_filter_none<A>(s: Seq<A>, keep: spec_fn(A) -> bool)
    requires
        forall|i: int| 0 <= i < s.len() ==> !keep(#[trigger] s[i]),
    ensures
        s.filter(keep) == Seq::<A>::empty(),
    decreases s.len(),
{
    reveal(Seq::filter);
    if s.len() > 0 {
        lemma_filter_none(s.drop_last(), keep);
    }
}

/// Where every element is kept, all is left.
pub proof fn lemma_filter_all<A>(s: Seq<A>, keep: spec_fn(A) -> bool)
    requires
        forall|i: int| 0 <= i < s.len() ==> keep(#[trigger] s[i]),
    ensures
        s.filter(keep) == s,
    decreases s.len(),
{
    reveal(Seq::filter);
    if s.len() > 0 {
        lemma_filter_all(s.drop_last(), keep);
        assert(s.drop_last().push(s.last()) =~= s);
    } else {
        assert(s.filter(keep) =~= s);
    }
}

/// A word ends before the first whitespace.
proof fn lemma_word_end(s: Seq<char>)
    ensures
        word_len(s) <= s.len(),
        forall|i: int| 0 <= i < word_len(s) ==> !is_white(#[trigger] s[i]),
        word_len(s) < s.len() ==> is_white(s[word_len(s) as int]),
    decreases s.len(),
{
    if s.len() > 0 && !is_white(s[0]) {
        let d = s.drop_first();
        lemma_word_end(d);
        assert forall|i: int| 0 <= i < word_len(s) implies !is_white(#[trigger] s[i]) by {
            if i > 0 {
                assert(d[i - 1] == s[i]);
            }
        }
        if word_len(s) < s.len() {
            assert(d[word_len(d) as int] == s[word_len(s) as int]);
        }
    }
}

/// Whether the characters from `i` to `j` are a word: they are not whitespace,
/// and what stands before and behind them is whitespace or an end of the text.
pub open spec fn is_word_at(s: Seq<char>, i: int, j: int) -> bool {
    &&& 0 <= i < j <= s.len()
    &&& forall|k: int| i <= k < j ==> !is_white(#[trigger] s[k])
    &&& i == 0 || is_white(s[i - 1])
    &&& j == s.len() || is_white(s[j])
}

/// Each run of characters between whitespace is among the words of a text.
pub proof fn law_word_is_found(s: Seq<char>, i: int, j: int)
    requires
        is_word_at(s, i, j),
    ensures
        words(s).contains(s.subrange(i, j)),
    decreases s.len(),
{
    lemma_trim_start(s);
    let t = trim_start(s);
    let a = s.len() - t.len();
    lemma_trim_start_len(s);
    assert(t == s.skip(a));
    if i < a {
        assert(is_white(s[i]));
    }
    lemma_word_end(t);
    let n = word_len(t) as int;
    assert(t.len() > 0);
    lemma_word_len(t);
    assert(t[0] == s[a]);
    let rest = words(t.skip(n));
    if i == a {
        if j - a < n {
            assert(t[j - a] == s[j]);
        }
        if n < j - a {
            assert(t[n] == s[a + n]);
        }
        assert(s.subrange(i, j) =~= t.take(n));
        assert(words(s)[0] == t.take(n));
    } else {
        if i - 1 < a + n {
            assert(t[i - 1 - a] == s[i - 1]);
        }
        let u = t.skip(n);
        assert(forall|k: int| 0 <= k < u.len() ==> u[k] == s[k + a + n]);
        assert(is_word_at(u, i - a - n, j - a - n)) by {
            assert forall|k: int| i - a - n <= k < j - a - n implies !is_white(
                #[trigger] u[k],
            ) by {
                assert(u[k] == s[k + a + n]);
            }
        }
        law_word_is_found(u, i - a - n, j - a - n);
        assert(u.subrange(i - a - n, j - a - n) =~= s.subrange(i, j));
        let k = choose|k: int| 0 <= k < rest.len() && rest[k] == s.subrange(i, j);
        assert(words(s)[k + 1] == rest[k]);
    }
}

/// Each word of a text is a run of its characters between whitespace.
pub proof fn law_word_is_there(s: Seq<char>, n: int) -> (r: (int, int))
    requires
        0 <= n < words(s).len(),
    ensures
        is_word_at(s, r.0, r.1),
        words(s)[n] == s.subrange(r.0, r.1),
    decreases s.len(),
{
    lemma_trim_start(s);
    let t = trim_start(s);
    let a = s.len() - t.len();
    lemma_trim_start_len(s);
    assert(t == s.skip(a));
    lemma_word_end(t);
    lemma_word_len(t);
    let w = word_len(t) as int;
    assert(t[0] == s[a]);
    if n == 0 {
        assert(t.take(w) =~= s.subrange(a, a + w));
        assert forall|k: int| a <= k < a + w implies !is_white(#[trigger] s[k]) by {
            assert(t[k - a] == s[k]);
        }
        if w < t.len() {
            assert(t[w] == s[a + w]);
        }
        (a, a + w)
    } else {
        let u = t.skip(w);
        let (i, j) = law_word_is_there(u, n - 1);
        assert(forall|k: int| 0 <= k < u.len() ==> u[k] == s[k + a + w]);
        assert(u.subrange(i, j) =~= s.subrange(i + a + w, j + a + w));
        assert forall|k: int| i + a + w <= k < j + a + w implies !is_white(#[trigger] s[k]) by {
            assert(u[k - a - w] == s[k]);
        }
        if i == 0 {
            assert(u[0] == t[w]);
            assert(is_white(t[w]));
        }
        (i + a + w, j + a + w)
    }
}

/// The words of a text are what it holds besides whitespace, in order: written
/// one behind the other they are the text without its whitespace.
pub proof fn law_words_are_the_text(s: Seq<char>)
    ensures
        words(s).flatten() == s.filter(|c: char| !is_white(c)),
    decreases s.len(),
{
    let keep = |c: char| !is_white(c);
    lemma_trim_start(s);
    let t = trim_start(s);
    let a = s.len() - t.len();
    lemma_trim_start_len(s);
    let x = s.take(a);
    assert(s =~= x + t);
    Seq::filter_distributes_over_add(x, t, keep);
    lemma_filter_none(x, keep);
    assert(x.filter(keep) + t.filter(keep) =~= t.filter(keep));
    if t.len() > 0 {
        lemma_word_end(t);
        lemma_word_len(t);
        let n = word_len(t) as int;
        let u = t.skip(n);
        law_words_are_the_text(u);
        assert(t =~= t.take(n) + u);
        Seq::filter_distributes_over_add(t.take(n), u, keep);
        lemma_filter_all(t.take(n), keep);
        assert(words(s).drop_first() =~= words(u));
        assert(words(s).first() == t.take(n));
        assert(words(s).flatten() == t.take(n) + words(u).flatten());
    } else {
        assert(t.filter(keep) =~= Seq::empty()) by {
            reveal(Seq::filter);
        }
        assert(words(s).flatten() =~= Seq::empty());
    }
}

/// The bytes counted for a text are those of its UTF-8 form.
pub proof fn law_utf8_len(s: Seq<char>)
    ensures
        utf8_len(s) == vstd::utf8::encode_utf8(s).len(),
    decreases s.len(),
{
    if s.len() > 0 {
        let d = s.drop_first();
        law_utf8_len(d);
        assert(s =~= seq![s[0]] + d);
        lemma_utf8_len_add(seq![s[0]], d);
        assert(seq![s[0]].drop_last() =~= Seq::empty());
        assert(seq![s[0]].last() == s[0]);
        reveal_with_fuel(utf8_len, 2);
        assert(utf8_len(seq![s[0]]) == char_width(s[0]));
        vstd::utf8::char_is_scalar(s[0]);
        assert(vstd::utf8::encode_utf8(s) == vstd::utf8::encode_scalar(s[0] as u32)
            + vstd::utf8::encode_utf8(d));
    }
}

/// A text of at most `n` bytes is kept whole; of a longer one the beginning
/// that is kept has at most `n` bytes, and with the next character it would
/// have more.
pub proof fn law_byte_prefix(s: Seq<char>, n: nat)
    ensures
        vstd::utf8::encode_utf8(s).len() <= n ==> byte_prefix(s, n) == s,
        vstd::utf8::encode_utf8(s).len() > n ==> {
            let k = byte_prefix(s, n).len() as int;
            &&& k < s.len()
            &&& byte_prefix(s, n) == s.take(k)
            &&& vstd::utf8::encode_utf8(s.take(k)).len() <= n
            &&& vstd::utf8::encode_utf8(s.take(k + 1)).len() > n
        },
    decreases s.len(),
{
    law_utf8_len(s);
    if utf8_len(s) > n {
        let d = s.drop_last();
        law_byte_prefix(d, n);
        law_utf8_len(d);
        let k = byte_prefix(s, n).len() as int;
        if utf8_len(d) > n {
            assert(d.take(k) =~= s.take(k));
            assert(d.take(k + 1) =~= s.take(k + 1));
        } else {
            assert(s.take(k) =~= d);
            assert(s.take(k + 1) =~= s);
        }
    }
}

/// Where an element that is kept stands among the elements that are kept.
pub proof fn lemma_filter_place<A>(s: Seq<A>, keep: spec_fn(A) -> bool, i: int)
    requires
        0 <= i < s.len(),
        keep(s[i]),
    ensures
        s.take(i).filter(keep).len() < s.filter(keep).len(),
        s.filter(keep)[s.take(i).filter(keep).len() as int] == s[i],
    decreases s.len(),
{
    reveal(Seq::filter);
    let d = s.drop_last();
    if i < d.len() {
        lemma_filter_place(d, keep, i);
        assert(d.take(i) =~= s.take(i));
    } else {
        assert(s.take(i) =~= d);
    }
}

/// Which element stands at a place among the elements that are kept.
pub proof fn lemma_filter_source<A>(s: Seq<A>, keep: spec_fn(A) -> bool, n: int) -> (i: int)
    requires
        0 <= n < s.filter(keep).len(),
    ensures
        0 <= i < s.len(),
        keep(s[i]),
        s.take(i).filter(keep).len() == n,
        s.filter(keep)[n] == s[i],
    decreases s.len(),
{
    reveal(Seq::filter);
    let d = s.drop_last();
    if n < d.filter(keep).len() {
        let i = lemma_filter_source(d, keep, n);
        assert(d.take(i) =~= s.take(i));
        i
    } else {
        assert(s.take(s.len() - 1) =~= d);
        s.len() - 1
    }
}

/// What is kept depends only on which elements of a sequence are kept.
pub proof fn lemma_filter_same<A>(
    s: Seq<A>,
    a: spec_fn(A) -> bool,
    b: spec_fn(A) -> bool,
)
    requires
        forall|i: int| 0 <= i < s.len() ==> a(#[trigger] s[i]) == b(s[i]),
    ensures
        s.filter(a) == s.filter(b),
    decreases s.len(),
{
    reveal(Seq::filter);
    if s.len() > 0 {
        lemma_filter_same(s.drop_last(), a, b);
    }
}

// ---------------------------------------------------------------------------
// What a number in digits says
// ---------------------------------------------------------------------------

/// The value of digits in a base, where a digit is one of `0` to `9`, and a
/// letter from `a` or `A` on counts from ten on.
pub open spec fn value_in_base(s: Seq<char>, base: int) -> int
    decreases s.len(),
{
    if s.len() == 0 {
        0
    } else {
        let c = s.last();
        value_in_base(s.drop_last(), base) * base + if '0' <= c <= '9' {
            c as int - 0x30
        } else if 'a' <= c <= 'z' {
            c as int - 0x57
        } else {
            c as int - 0x37
        }
    }
}

/// A number in decimal notation consists of digits, has that value, and begins
/// with zero only where it is zero.
pub proof fn law_decimal(n: nat)
    ensures
        value_in_base(decimal(n), 10) == n,
        decimal(n).len() > 0,
        forall|i: int| 0 <= i < decimal(n).len() ==> '0' <= #[trigger] decimal(n)[i] <= '9',
        n > 0 ==> decimal(n)[0] != '0',
        n == 0 ==> decimal(n) == seq!['0'],
    decreases n,
{
    let s = decimal(n);
    if n < 10 {
        reveal_with_fuel(value_in_base, 2);
        assert(s.drop_last() =~= Seq::empty());
        assert(s.last() == digit(n as int));
    } else {
        law_decimal(n / 10);
        assert(s.drop_last() =~= decimal(n / 10));
        assert(s.last() == digit((n % 10) as int));
        assert(s[0] == decimal(n / 10)[0]);
        assert forall|i: int| 0 <= i < s.len() implies '0' <= #[trigger] s[i] <= '9' by {
            if i < s.len() - 1 {
                assert(s[i] == decimal(n / 10)[i]);
            }
        }
    }
}

/// A signed number has a minus sign before its digits exactly where it is
/// below zero.
pub proof fn law_signed_decimal(n: int)
    ensures
        n >= 0 ==> value_in_base(signed_decimal(n), 10) == n && signed_decimal(n)[0] != '-',
        n < 0 ==> signed_decimal(n)[0] == '-' && value_in_base(signed_decimal(n).skip(1), 10)
            == -n,
{
    if n < 0 {
        law_decimal((-n) as nat);
        assert(signed_decimal(n).skip(1) =~= decimal((-n) as nat));
    } else {
        law_decimal(n as nat);
    }
}

/// A number in hexadecimal notation has the digits that are asked for, in the
/// case that is asked for, and their value is the number where it fits.
pub proof fn law_hex(n: nat, width: nat, upper: bool)
    ensures
        hex(n, width, upper).len() == width,
        forall|i: int|
            0 <= i < width ==> {
                let c = #[trigger] hex(n, width, upper)[i];
                '0' <= c <= '9' || if upper { 'A' <= c <= 'F' } else { 'a' <= c <= 'f' }
            },
        value_in_base(hex(n, width, upper), 16) == n % vstd::arithmetic::power::pow(
            16,
            width,
        ) as nat,
    decreases width,
{
    reveal(vstd::arithmetic::power::pow);
    if width > 0 {
        let w = (width - 1) as nat;
        law_hex(n / 16, w, upper);
        let s = hex(n, width, upper);
        assert(s.drop_last() =~= hex(n / 16, w, upper));
        assert(s.last() == hex_digit((n % 16) as int, upper));
        assert forall|i: int| 0 <= i < width implies ({
            let c = #[trigger] s[i];
            '0' <= c <= '9' || if upper { 'A' <= c <= 'F' } else { 'a' <= c <= 'f' }
        }) by {
            if i < w {
                assert(s[i] == hex(n / 16, w, upper)[i]);
            }
        }
        vstd::arithmetic::power::lemma_pow_positive(16, w);
        let p = vstd::arithmetic::power::pow(16, w);
        vstd::arithmetic::div_mod::lemma_breakdown(n as int, 16, p);
        assert(16 * p == vstd::arithmetic::power::pow(16, width));
    } else {
        assert(vstd::arithmetic::power::pow(16, 0) == 1);
    }
}

/// Digits are read as the number that they say. Nothing is read of an empty
/// text, of one with another character, and of a number above the largest
/// that is allowed.
pub proof fn law_digits_read(s: Seq<char>, max: nat)
    ensures
        digits_value(s, max) matches Some(n) ==> n == value_in_base(s, 10) && n <= max,
        digits_value(s, max) is Some <==> s.len() > 0 && (forall|i: int|
            0 <= i < s.len() ==> '0' <= #[trigger] s[i] <= '9') && value_in_base(s, 10) <= max,
    decreases s.len(),
{
    if s.len() > 0 {
        let d = s.drop_last();
        law_digits_read(d, max);
        let all = forall|i: int| 0 <= i < s.len() ==> '0' <= #[trigger] s[i] <= '9';
        if s.len() == 1 {
            assert(d =~= Seq::empty());
            assert(value_in_base(d, 10) == 0);
            assert(s.last() == s[0]);
        } else {
            assert(all <==> (forall|i: int| 0 <= i < d.len() ==> '0' <= #[trigger] d[i] <= '9')
                && '0' <= s.last() <= '9') by {
                if all {
                    assert forall|i: int| 0 <= i < d.len() implies '0' <= #[trigger] d[i] <= '9' by {
                        assert(d[i] == s[i]);
                    }
                    assert('0' <= s[s.len() - 1] <= '9');
                } else {
                    let i = choose|i: int| 0 <= i < s.len() && !('0' <= #[trigger] s[i] <= '9');
                    if i < d.len() {
                        assert(!('0' <= d[i] <= '9'));
                    }
                }
            }
        }
    }
}

/// What is written in digits is read as the number that was written.
pub proof fn law_decimal_read_back(n: nat, max: nat)
    requires
        n <= max,
    ensures
        digits_value(decimal(n), max) == Some(n),
{
    law_decimal(n);
    law_digits_read(decimal(n), max);
}

/// Joined texts stand one behind the other with the separator between each
/// two: joining two lists is joining each and then the two.
pub proof fn law_join(a: Seq<Seq<char>>, b: Seq<Seq<char>>, one: Seq<char>, sep: Seq<char>)
    ensures
        join(seq![one], sep) == one,
        a.len() > 0 && b.len() > 0 ==> join(a + b, sep) == join(a, sep) + sep + join(b, sep),
        a.len() == 0 ==> join(a, sep) == Seq::<char>::empty(),
    decreases b.len(),
{
    if a.len() > 0 && b.len() > 0 {
        let d = b.drop_last();
        assert((a + b).drop_last() =~= a + d);
        assert((a + b).last() == b.last());
        if b.len() == 1 {
            assert(a + d =~= a);
        } else {
            law_join(a, d, one, sep);
            assert(join(a, sep) + sep + join(d, sep) + sep + b.last() =~= join(a, sep) + sep + (
            join(d, sep) + sep + b.last()));
        }
    }
}

} // verus!
