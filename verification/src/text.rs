//! Character-level helpers shared by the query, kind and schema modules.
//!
//! Strings are modelled by their character sequences (`s@`); byte lengths are the
//! length of the UTF-8 encoding of those characters.

use vstd::prelude::*;

verus! {

// ---------------------------------------------------------------- specifications

/// Unicode `White_Space`, the set that `char::is_whitespace` tests.
pub open spec fn is_ws(c: char) -> bool {
    ||| ('\u{9}' <= c && c <= '\u{d}')
    ||| c == ' '
    ||| c == '\u{85}'
    ||| c == '\u{a0}'
    ||| c == '\u{1680}'
    ||| ('\u{2000}' <= c && c <= '\u{200a}')
    ||| c == '\u{2028}'
    ||| c == '\u{2029}'
    ||| c == '\u{202f}'
    ||| c == '\u{205f}'
    ||| c == '\u{3000}'
}

pub open spec fn is_digit(c: char) -> bool {
    '0' <= c && c <= '9'
}

pub open spec fn is_alnum(c: char) -> bool {
    ||| is_digit(c)
    ||| ('a' <= c && c <= 'z')
    ||| ('A' <= c && c <= 'Z')
}

/// ASCII lower-casing of one character (`char::to_ascii_lowercase`).
pub open spec fn lower(c: char) -> char {
    if 'A' <= c && c <= 'Z' {
        ((c as u32) + 32) as char
    } else {
        c
    }
}

pub open spec fn lower_seq(s: Seq<char>) -> Seq<char> {
    s.map_values(|c: char| lower(c))
}

/// Number of bytes in the UTF-8 encoding of one character.
pub open spec fn char_width(c: char) -> nat {
    if (c as u32) < 0x80 {
        1
    } else if (c as u32) < 0x800 {
        2
    } else if (c as u32) < 0x10000 {
        3
    } else {
        4
    }
}

/// Number of bytes in the UTF-8 encoding of a character sequence (`str::len`).
pub open spec fn byte_len(s: Seq<char>) -> nat
    decreases s.len(),
{
    if s.len() == 0 {
        0
    } else {
        byte_len(s.drop_last()) + char_width(s.last())
    }
}

/// `s` with leading white space removed.
pub open spec fn trim_start(s: Seq<char>) -> Seq<char>
    decreases s.len(),
{
    if s.len() > 0 && is_ws(s[0]) {
        trim_start(s.drop_first())
    } else {
        s
    }
}

/// `s` with trailing white space removed.
pub open spec fn trim_end(s: Seq<char>) -> Seq<char>
    decreases s.len(),
{
    if s.len() > 0 && is_ws(s.last()) {
        trim_end(s.drop_last())
    } else {
        s
    }
}

/// `str::trim`.
pub open spec fn trim(s: Seq<char>) -> Seq<char> {
    trim_end(trim_start(s))
}

/// The pieces of `s` between separator characters, as `str::split` yields them
/// (`n` separators give `n + 1` pieces, empty ones included).
pub open spec fn split_by(s: Seq<char>, sep: spec_fn(char) -> bool) -> Seq<Seq<char>>
    decreases s.len(),
{
    if s.len() == 0 {
        seq![Seq::<char>::empty()]
    } else {
        let r = split_by(s.drop_last(), sep);
        if sep(s.last()) {
            r.push(Seq::<char>::empty())
        } else {
            r.update(r.len() - 1, r.last().push(s.last()))
        }
    }
}

/// Which characters separate the pieces of a split.
pub enum Sep {
    /// One given character.
    Char(char),
    /// Any character that is not an ASCII digit.
    NonDigit,
}

pub open spec fn sep_fn(sep: Sep) -> spec_fn(char) -> bool {
    match sep {
        Sep::Char(x) => |c: char| c == x,
        Sep::NonDigit => |c: char| !is_digit(c),
    }
}

pub open spec fn is_sep(x: char) -> spec_fn(char) -> bool {
    sep_fn(Sep::Char(x))
}

/// Joins pieces with a separator between consecutive ones (`[T]::join`).
pub open spec fn join(parts: Seq<Seq<char>>, sep: Seq<char>) -> Seq<char>
    decreases parts.len(),
{
    if parts.len() == 0 {
        Seq::empty()
    } else if parts.len() == 1 {
        parts[0]
    } else {
        join(parts.drop_last(), sep) + sep + parts.last()
    }
}

pub open spec fn nonempty(p: Seq<char>) -> bool {
    p.len() > 0
}

/// `str::split_whitespace`: the non-empty pieces between white space.
pub open spec fn words(s: Seq<char>) -> Seq<Seq<char>> {
    split_by(s, |c: char| is_ws(c)).filter(|p: Seq<char>| nonempty(p))
}

/// First index of `x` in `s`, if any.
pub open spec fn find_char(s: Seq<char>, x: char) -> Option<int>
    decreases s.len(),
{
    if s.len() == 0 {
        None
    } else {
        match find_char(s.drop_last(), x) {
            Some(i) => Some(i),
            None => if s.last() == x {
                Some(s.len() - 1)
            } else {
                None
            },
        }
    }
}

/// `str::split_once(x)`.
pub open spec fn split_once(s: Seq<char>, x: char) -> Option<(Seq<char>, Seq<char>)> {
    match find_char(s, x) {
        Some(i) => Some((s.take(i), s.skip(i + 1))),
        None => None,
    }
}

pub open spec fn all_digits(s: Seq<char>) -> bool {
    forall|i: int| 0 <= i < s.len() ==> is_digit(#[trigger] s[i])
}

/// Decimal value of a digit sequence.
pub open spec fn digits_value(s: Seq<char>) -> nat
    decreases s.len(),
{
    if s.len() == 0 {
        0
    } else {
        digits_value(s.drop_last()) * 10 + ((s.last() as u32) - ('0' as u32)) as nat
    }
}

/// `<u64 as FromStr>::from_str`: an optional `+`, then one or more decimal digits whose
/// value fits in 64 bits.
pub open spec fn parse_u64(s: Seq<char>) -> Option<u64> {
    let d = if s.len() > 0 && s[0] == '+' {
        s.drop_first()
    } else {
        s
    };
    if d.len() > 0 && all_digits(d) && digits_value(d) <= u64::MAX {
        Some(digits_value(d) as u64)
    } else {
        None
    }
}

/// Lexicographic order on sequences of integers (`Vec<u64>` / `[T]` ordering).
pub open spec fn seq_u64_lt(a: Seq<u64>, b: Seq<u64>) -> bool
    decreases a.len(),
{
    if a.len() == 0 {
        b.len() > 0
    } else if b.len() == 0 {
        false
    } else if a[0] != b[0] {
        a[0] < b[0]
    } else {
        seq_u64_lt(a.drop_first(), b.drop_first())
    }
}

/// Lexicographic order on character sequences, by code point (`str`/`String` ordering,
/// which compares UTF-8 bytes and so agrees with code point order).
pub open spec fn chars_lt(a: Seq<char>, b: Seq<char>) -> bool
    decreases a.len(),
{
    if a.len() == 0 {
        b.len() > 0
    } else if b.len() == 0 {
        false
    } else if a[0] != b[0] {
        a[0] < b[0]
    } else {
        chars_lt(a.drop_first(), b.drop_first())
    }
}

// ---------------------------------------------------------------- lemmas

pub proof fn lemma_seq_u64_lt_irreflexive(a: Seq<u64>)
    ensures
        !seq_u64_lt(a, a),
    decreases a.len(),
{
    if a.len() > 0 {
        lemma_seq_u64_lt_irreflexive(a.drop_first());
    }
}

/// Two sequences neither of which is below the other are equal.
pub proof fn lemma_seq_u64_lt_total(a: Seq<u64>, b: Seq<u64>)
    requires
        !seq_u64_lt(a, b),
        !seq_u64_lt(b, a),
    ensures
        a == b,
    decreases a.len(),
{
    if a.len() > 0 && b.len() > 0 {
        lemma_seq_u64_lt_total(a.drop_first(), b.drop_first());
        assert(a =~= seq![a[0]] + a.drop_first());
        assert(b =~= seq![b[0]] + b.drop_first());
    } else {
        assert(a =~= b);
    }
}

/// The lexicographic order on integer sequences is transitive.
pub proof fn lemma_seq_u64_lt_transitive(a: Seq<u64>, b: Seq<u64>, c: Seq<u64>)
    requires
        seq_u64_lt(a, b),
        seq_u64_lt(b, c),
    ensures
        seq_u64_lt(a, c),
    decreases a.len(),
{
    if a.len() > 0 && b.len() > 0 && c.len() > 0 && a[0] == b[0] && b[0] == c[0] {
        lemma_seq_u64_lt_transitive(a.drop_first(), b.drop_first(), c.drop_first());
    }
}

/// The lexicographic order on character sequences is transitive.
pub proof fn lemma_chars_lt_transitive(a: Seq<char>, b: Seq<char>, c: Seq<char>)
    requires
        chars_lt(a, b),
        chars_lt(b, c),
    ensures
        chars_lt(a, c),
    decreases a.len(),
{
    if a.len() > 0 && b.len() > 0 && c.len() > 0 && a[0] == b[0] && b[0] == c[0] {
        lemma_chars_lt_transitive(a.drop_first(), b.drop_first(), c.drop_first());
    }
}

pub proof fn lemma_chars_lt_irreflexive(a: Seq<char>)
    ensures
        !chars_lt(a, a),
    decreases a.len(),
{
    if a.len() > 0 {
        lemma_chars_lt_irreflexive(a.drop_first());
    }
}

/// Two character sequences neither of which is below the other are equal.
pub proof fn lemma_chars_lt_total(a: Seq<char>, b: Seq<char>)
    requires
        !chars_lt(a, b),
        !chars_lt(b, a),
    ensures
        a == b,
    decreases a.len(),
{
    if a.len() > 0 && b.len() > 0 {
        lemma_chars_lt_total(a.drop_first(), b.drop_first());
        assert(a =~= seq![a[0]] + a.drop_first());
        assert(b =~= seq![b[0]] + b.drop_first());
    } else {
        assert(a =~= b);
    }
}

/// Byte length is additive over concatenation.
pub proof fn lemma_byte_len_concat(a: Seq<char>, b: Seq<char>)
    ensures
        byte_len(a + b) == byte_len(a) + byte_len(b),
    decreases b.len(),
{
    if b.len() > 0 {
        lemma_byte_len_concat(a, b.drop_last());
        assert((a + b).drop_last() =~= a + b.drop_last());
    } else {
        assert(a + b =~= a);
    }
}

/// Longer prefixes have strictly more bytes.
pub proof fn lemma_byte_len_take_strict(s: Seq<char>, i: int, j: int)
    requires
        0 <= i < j <= s.len(),
    ensures
        byte_len(s.take(i)) < byte_len(s.take(j)),
    decreases j - i,
{
    assert(s.take(j).drop_last() =~= s.take(j - 1));
    if i < j - 1 {
        lemma_byte_len_take_strict(s, i, j - 1);
    }
}

pub proof fn lemma_split_by_nonempty(s: Seq<char>, sep: spec_fn(char) -> bool)
    ensures
        split_by(s, sep).len() >= 1,
    decreases s.len(),
{
    if s.len() > 0 {
        lemma_split_by_nonempty(s.drop_last(), sep);
    }
}

pub proof fn lemma_trim_start_skip(s: Seq<char>, i: int)
    requires
        0 <= i <= s.len(),
        forall|j: int| 0 <= j < i ==> is_ws(#[trigger] s[j]),
    ensures
        trim_start(s) == trim_start(s.skip(i)),
    decreases i,
{
    if i > 0 {
        assert(s.skip(1) == s.drop_first());
        lemma_trim_start_skip(s.drop_first(), i - 1);
        assert(s.drop_first().skip(i - 1) == s.skip(i));
    } else {
        assert(s.skip(0) == s);
    }
}

pub proof fn lemma_trim_end_take(s: Seq<char>, i: int)
    requires
        0 <= i <= s.len(),
        forall|j: int| i <= j < s.len() ==> is_ws(#[trigger] s[j]),
    ensures
        trim_end(s) == trim_end(s.take(i)),
    decreases s.len() - i,
{
    if i < s.len() {
        lemma_trim_end_take(s.drop_last(), i);
        assert(s.drop_last().take(i) == s.take(i));
    } else {
        assert(s.take(i) == s);
    }
}

proof fn lemma_digits_value_push(s: Seq<char>, c: char)
    ensures
        digits_value(s.push(c)) == digits_value(s) * 10 + ((c as u32) - ('0' as u32)) as nat,
{
    assert(s.push(c).drop_last() == s);
}

// ---------------------------------------------------------------- executable helpers

/// Appends one character to a `String` (std's `String::push`).
#[verifier::external_body]
pub(crate) fn push_char(s: &mut String, c: char)
    ensures
        final(s)@ == old(s)@.push(c),
{
    s.push(c);
}

/// The characters of a string slice, in order.
pub fn chars_of(s: &str) -> (r: Vec<char>)
    ensures
        r@ == s@,
{
    let mut r: Vec<char> = Vec::new();
    for c in it: s.chars()
        invariant
            r@ == it.seq().take(it.index() as int),
            it.seq() == s@,
    {
        r.push(c);
    }
    r
}

/// A `String` holding the given characters.
pub fn string_of(v: &Vec<char>) -> (r: String)
    ensures
        r@ == v@,
{
    let mut r = String::new();
    let mut i: usize = 0;
    while i < v.len()
        invariant
            i <= v.len(),
            r@ == v@.take(i as int),
        decreases v.len() - i,
    {
        push_char(&mut r, v[i]);
        i = i + 1;
        assert(r@ == v@.take(i as int));
    }
    assert(v@.take(v.len() as int) == v@);
    r
}

/// Appends characters to a `String`.
pub fn push_all(r: &mut String, v: &Vec<char>)
    ensures
        final(r)@ == old(r)@ + v@,
{
    let mut i: usize = 0;
    while i < v.len()
        invariant
            i <= v.len(),
            r@ == old(r)@ + v@.take(i as int),
        decreases v.len() - i,
    {
        push_char(r, v[i]);
        i = i + 1;
        assert(r@ == old(r)@ + v@.take(i as int));
    }
    assert(v@.take(v.len() as int) == v@);
}

/// Appends characters to a character vector.
pub fn extend_chars(r: &mut Vec<char>, v: &Vec<char>)
    ensures
        final(r)@ == old(r)@ + v@,
{
    let ghost start = r@;
    let mut i: usize = 0;
    while i < v.len()
        invariant
            i <= v.len(),
            r@ == start + v@.take(i as int),
        decreases v.len() - i,
    {
        r.push(v[i]);
        i = i + 1;
        assert(r@ =~= start + v@.take(i as int));
    }
    assert(v@.take(v.len() as int) =~= v@);
}

/// Number of bytes in the UTF-8 encoding of `v`.
pub fn byte_count(v: &Vec<char>) -> (n: u128)
    ensures
        n == byte_len(v@),
{
    let mut total: u128 = 0;
    let mut i: usize = 0;
    while i < v.len()
        invariant
            i <= v.len(),
            total == byte_len(v@.take(i as int)),
            total <= 4 * i,
        decreases v.len() - i,
    {
        let c = v[i];
        let w: u128 = if (c as u32) < 0x80 {
            1
        } else if (c as u32) < 0x800 {
            2
        } else if (c as u32) < 0x10000 {
            3
        } else {
            4
        };
        assert(v@.take(i + 1).drop_last() == v@.take(i as int));
        total = total + w;
        i = i + 1;
    }
    assert(v@.take(v.len() as int) == v@);
    total
}

/// Whether the UTF-8 encoding of `v` is longer than `limit` bytes.
pub fn byte_len_exceeds(v: &Vec<char>, limit: usize) -> (r: bool)
    ensures
        r == (byte_len(v@) > limit),
{
    let mut total: usize = 0;
    let mut i: usize = 0;
    while i < v.len()
        invariant
            i <= v.len(),
            total == byte_len(v@.take(i as int)),
            total <= limit,
        decreases v.len() - i,
    {
        let c = v[i];
        let w: usize = if (c as u32) < 0x80 {
            1
        } else if (c as u32) < 0x800 {
            2
        } else if (c as u32) < 0x10000 {
            3
        } else {
            4
        };
        assert(v@.take(i + 1).drop_last() == v@.take(i as int));
        if w > limit - total {
            proof { lemma_byte_len_prefix(v@, i as int + 1); }
            return true;
        }
        total = total + w;
        i = i + 1;
    }
    assert(v@.take(v.len() as int) == v@);
    false
}

/// The byte length of a sequence is at least that of any of its prefixes.
pub proof fn lemma_byte_len_prefix(s: Seq<char>, n: int)
    requires
        0 <= n <= s.len(),
    ensures
        byte_len(s) >= byte_len(s.take(n)),
    decreases s.len() - n,
{
    if n < s.len() {
        lemma_byte_len_prefix(s, n + 1);
        assert(s.take(n + 1).drop_last() == s.take(n));
    } else {
        assert(s.take(n) == s);
    }
}

pub fn is_ws_char(c: char) -> (b: bool)
    ensures
        b == is_ws(c),
{
    ('\u{9}' <= c && c <= '\u{d}') || c == ' ' || c == '\u{85}' || c == '\u{a0}' || c
        == '\u{1680}' || ('\u{2000}' <= c && c <= '\u{200a}') || c == '\u{2028}' || c
        == '\u{2029}' || c == '\u{202f}' || c == '\u{205f}' || c == '\u{3000}'
}

pub fn is_digit_char(c: char) -> (b: bool)
    ensures
        b == is_digit(c),
{
    '0' <= c && c <= '9'
}

pub fn is_alnum_char(c: char) -> (b: bool)
    ensures
        b == is_alnum(c),
{
    ('0' <= c && c <= '9') || ('a' <= c && c <= 'z') || ('A' <= c && c <= 'Z')
}

pub fn lower_char(c: char) -> (r: char)
    ensures
        r == lower(c),
{
    if 'A' <= c && c <= 'Z' {
        let u: u32 = (c as u32) + 32;
        assert(u < 0xD800);
        char_from_u32(u)
    } else {
        c
    }
}

/// `char::from_u32` for a value that is a scalar value.
#[verifier::external_body]
fn char_from_u32(u: u32) -> (c: char)
    requires
        u < 0xD800,
    ensures
        c == u as char,
{
    match char::from_u32(u) {
        Some(c) => c,
        None => '\0',
    }
}

/// `str::trim` on a character sequence.
pub fn trim_chars(v: &Vec<char>) -> (r: Vec<char>)
    ensures
        r@ == trim(v@),
{
    let n = v.len();
    let mut i: usize = 0;
    while i < n && is_ws_char(v[i])
        invariant
            n == v.len(),
            i <= n,
            forall|j: int| 0 <= j < i ==> is_ws(#[trigger] v@[j]),
        decreases n - i,
    {
        i = i + 1;
    }
    proof {
        lemma_trim_start_skip(v@, i as int);
        assert(i < n ==> !is_ws(v@.skip(i as int)[0]));
    }
    let ghost t = v@.skip(i as int);
    assert(trim_start(v@) == t);
    let mut j: usize = n;
    while j > i && is_ws_char(v[j - 1])
        invariant
            n == v.len(),
            i <= j <= n,
            t == v@.skip(i as int),
            forall|k: int| j - i <= k < t.len() ==> is_ws(#[trigger] t[k]),
        decreases j,
    {
        j = j - 1;
    }
    proof {
        lemma_trim_end_take(t, (j - i) as int);
        let u = t.take((j - i) as int);
        assert(u.len() > 0 ==> u.last() == v@[j - 1]);
    }
    let mut r: Vec<char> = Vec::new();
    let mut k: usize = i;
    while k < j
        invariant
            i <= k <= j <= n,
            n == v.len(),
            r@ == v@.subrange(i as int, k as int),
        decreases j - k,
    {
        r.push(v[k]);
        k = k + 1;
    }
    assert(r@ == t.take((j - i) as int));
    r
}

/// `str::split` on a character sequence.
pub fn split_on(v: &Vec<char>, sep: Sep) -> (r: Vec<Vec<char>>)
    ensures
        r.deep_view() == split_by(v@, sep_fn(sep)),
{
    let ghost f = sep_fn(sep);
    let mut r: Vec<Vec<char>> = Vec::new();
    let mut cur: Vec<char> = Vec::new();
    let mut i: usize = 0;
    assert(r.deep_view().push(cur@) =~= split_by(v@.take(0), f));
    while i < v.len()
        invariant
            i <= v.len(),
            f == sep_fn(sep),
            r.deep_view().push(cur@) == split_by(v@.take(i as int), f),
        decreases v.len() - i,
    {
        let c = v[i];
        let is_cut = match sep {
            Sep::Char(x) => c == x,
            Sep::NonDigit => !is_digit_char(c),
        };
        assert(is_cut == f(c));
        let ghost dv = r.deep_view();
        let ghost cv = cur@;
        proof {
            let t = v@.take(i + 1);
            assert(t.drop_last() =~= v@.take(i as int));
            assert(t.last() == c);
            let pieces = split_by(v@.take(i as int), f);
            assert(split_by(t, f) == if is_cut {
                pieces.push(Seq::<char>::empty())
            } else {
                pieces.update(pieces.len() - 1, pieces.last().push(c))
            });
        }
        if is_cut {
            let done = cur;
            assert(done.deep_view() =~= done@);
            r.push(done);
            cur = Vec::new();
            assert(r.deep_view() =~= dv.push(cv));
            assert(r.deep_view().push(cur@) =~= dv.push(cv).push(Seq::<char>::empty()));
        } else {
            cur.push(c);
            assert(r.deep_view() =~= dv);
            assert(r.deep_view().push(cur@) =~= dv.push(cv).update(dv.len() as int, cv.push(c)));
        }
        i = i + 1;
    }
    assert(v@.take(v.len() as int) =~= v@);
    let ghost dv = r.deep_view();
    let ghost cv = cur@;
    assert(cur.deep_view() =~= cur@);
    r.push(cur);
    assert(r.deep_view() =~= dv.push(cv));
    r
}

/// `str::split_whitespace` on a character sequence.
pub fn split_words(v: &Vec<char>) -> (r: Vec<Vec<char>>)
    ensures
        r.deep_view() == words(v@),
{
    let ghost ws = |c: char| is_ws(c);
    let ghost ne = |p: Seq<char>| nonempty(p);
    let mut r: Vec<Vec<char>> = Vec::new();
    let mut cur: Vec<char> = Vec::new();
    let mut i: usize = 0;
    proof {
        reveal(Seq::filter);
        assert(split_by(v@.take(0), ws) =~= seq![Seq::<char>::empty()]);
        assert(split_by(v@.take(0), ws).drop_last() =~= Seq::<Seq<char>>::empty());
        assert(Seq::<Seq<char>>::empty().filter(ne) =~= Seq::<Seq<char>>::empty());
    }
    while i < v.len()
        invariant
            i <= v.len(),
            ws == (|c: char| is_ws(c)),
            ne == (|p: Seq<char>| nonempty(p)),
            split_by(v@.take(i as int), ws).len() >= 1,
            split_by(v@.take(i as int), ws).last() == cur@,
            r.deep_view() == split_by(v@.take(i as int), ws).drop_last().filter(ne),
        decreases v.len() - i,
    {
        let c = v[i];
        let ghost pieces = split_by(v@.take(i as int), ws);
        let ghost dv = r.deep_view();
        let ghost cv = cur@;
        proof {
            let t = v@.take(i + 1);
            assert(t.drop_last() =~= v@.take(i as int));
            assert(t.last() == c);
            assert(split_by(t, ws) == if is_ws(c) {
                pieces.push(Seq::<char>::empty())
            } else {
                pieces.update(pieces.len() - 1, pieces.last().push(c))
            });
            assert(pieces =~= pieces.drop_last().push(cv));
        }
        if is_ws_char(c) {
            proof {
                reveal(Seq::filter);
                let np = pieces.push(Seq::<char>::empty());
                assert(np.drop_last() =~= pieces);
                assert(pieces.drop_last().push(cv).drop_last() =~= pieces.drop_last());
                assert(pieces.filter(ne) == if nonempty(cv) {
                    dv.push(cv)
                } else {
                    dv
                });
            }
            if cur.len() > 0 {
                let done = cur;
                assert(done.deep_view() =~= done@);
                r.push(done);
                assert(r.deep_view() =~= dv.push(cv));
            }
            cur = Vec::new();
        } else {
            cur.push(c);
            proof {
                let np = pieces.update(pieces.len() - 1, pieces.last().push(c));
                assert(np.drop_last() =~= pieces.drop_last());
                assert(r.deep_view() =~= dv);
            }
        }
        i = i + 1;
    }
    assert(v@.take(v.len() as int) =~= v@);
    let ghost dv = r.deep_view();
    let ghost cv = cur@;
    proof {
        reveal(Seq::filter);
        let pieces = split_by(v@, ws);
        assert(pieces =~= pieces.drop_last().push(cv));
        assert(pieces.filter(ne) == if nonempty(cv) {
            dv.push(cv)
        } else {
            dv
        });
    }
    if cur.len() > 0 {
        assert(cur.deep_view() =~= cur@);
        r.push(cur);
        assert(r.deep_view() =~= dv.push(cv));
    }
    r
}

/// Lexicographic comparison of two integer sequences: `true` when `a < b`.
pub fn u64_seq_lt(a: &Vec<u64>, b: &Vec<u64>) -> (r: bool)
    ensures
        r == seq_u64_lt(a@, b@),
{
    let mut i: usize = 0;
    assert(a@.skip(0) == a@ && b@.skip(0) == b@);
    while i < a.len() && i < b.len() && a[i] == b[i]
        invariant
            i <= a.len(),
            i <= b.len(),
            seq_u64_lt(a@, b@) == seq_u64_lt(a@.skip(i as int), b@.skip(i as int)),
        decreases a.len() - i,
    {
        proof {
            let sa = a@.skip(i as int);
            let sb = b@.skip(i as int);
            assert(sa.drop_first() == a@.skip(i + 1));
            assert(sb.drop_first() == b@.skip(i + 1));
        }
        i = i + 1;
    }
    if i == a.len() {
        i < b.len()
    } else if i == b.len() {
        false
    } else {
        a[i] < b[i]
    }
}

/// Lexicographic comparison of two character sequences: `true` when `a < b`.
pub fn chars_less(a: &Vec<char>, b: &Vec<char>) -> (r: bool)
    ensures
        r == chars_lt(a@, b@),
{
    let mut i: usize = 0;
    assert(a@.skip(0) == a@ && b@.skip(0) == b@);
    while i < a.len() && i < b.len() && a[i] == b[i]
        invariant
            i <= a.len(),
            i <= b.len(),
            chars_lt(a@, b@) == chars_lt(a@.skip(i as int), b@.skip(i as int)),
        decreases a.len() - i,
    {
        proof {
            let sa = a@.skip(i as int);
            let sb = b@.skip(i as int);
            assert(sa.drop_first() == a@.skip(i + 1));
            assert(sb.drop_first() == b@.skip(i + 1));
        }
        i = i + 1;
    }
    if i == a.len() {
        i < b.len()
    } else if i == b.len() {
        false
    } else {
        a[i] < b[i]
    }
}

/// Equality of two character sequences.
pub fn chars_eq(a: &Vec<char>, b: &Vec<char>) -> (r: bool)
    ensures
        r == (a@ == b@),
{
    if a.len() != b.len() {
        return false;
    }
    let mut i: usize = 0;
    while i < a.len()
        invariant
            i <= a.len(),
            a.len() == b.len(),
            a@.take(i as int) == b@.take(i as int),
        decreases a.len() - i,
    {
        if a[i] != b[i] {
            return false;
        }
        assert(a@.take(i + 1) == a@.take(i as int).push(a@[i as int]));
        assert(b@.take(i + 1) == b@.take(i as int).push(b@[i as int]));
        i = i + 1;
    }
    assert(a@ == a@.take(a.len() as int));
    assert(b@ == b@.take(b.len() as int));
    true
}

/// Position of the first `x` in `v`.
pub fn find_in(v: &Vec<char>, x: char) -> (r: Option<usize>)
    ensures
        r matches Some(i) ==> i < v.len() && find_char(v@, x) == Some(i as int),
        r is None ==> find_char(v@, x) is None,
{
    let mut i: usize = 0;
    while i < v.len()
        invariant
            i <= v.len(),
            find_char(v@.take(i as int), x) is None,
        decreases v.len() - i,
    {
        assert(v@.take(i + 1).drop_last() == v@.take(i as int));
        if v[i] == x {
            assert(find_char(v@.take(i + 1), x) == Some(i as int));
            proof { lemma_find_char_prefix(v@, i as int + 1, x); }
            return Some(i);
        }
        i = i + 1;
    }
    assert(v@.take(v.len() as int) == v@);
    None
}

/// Whether `x` occurs in `v`.
pub fn has_char(v: &Vec<char>, x: char) -> (r: bool)
    ensures
        r == v@.contains(x),
{
    let mut i: usize = 0;
    while i < v.len()
        invariant
            i <= v.len(),
            forall|j: int| 0 <= j < i ==> v@[j] != x,
        decreases v.len() - i,
    {
        if v[i] == x {
            return true;
        }
        i = i + 1;
    }
    false
}

/// Every character takes at least one byte.
pub proof fn lemma_len_le_byte_len(s: Seq<char>)
    ensures
        s.len() <= byte_len(s),
    decreases s.len(),
{
    if s.len() > 0 {
        lemma_len_le_byte_len(s.drop_last());
    }
}

/// A found position in a prefix is the position in the whole sequence.
pub proof fn lemma_find_char_prefix(s: Seq<char>, n: int, x: char)
    requires
        0 <= n <= s.len(),
        find_char(s.take(n), x) is Some,
    ensures
        find_char(s, x) == find_char(s.take(n), x),
    decreases s.len() - n,
{
    if n < s.len() {
        assert(s.take(n + 1).drop_last() == s.take(n));
        lemma_find_char_prefix(s, n + 1, x);
    } else {
        assert(s.take(n) == s);
    }
}

/// A character that does not occur is not found.
pub proof fn lemma_find_char_absent(a: Seq<char>, x: char)
    requires
        !a.contains(x),
    ensures
        find_char(a, x) is None,
    decreases a.len(),
{
    if a.len() > 0 {
        assert(a.last() == a[a.len() - 1]);
        assert(!a.drop_last().contains(x)) by {
            if a.drop_last().contains(x) {
                let k = choose|k: int| 0 <= k < a.drop_last().len() && a.drop_last()[k] == x;
                assert(a[k] == x);
            }
        }
        lemma_find_char_absent(a.drop_last(), x);
    }
}

/// Splitting at the first `x` of `a + x + b`, where `a` has no `x`, gives `a` and `b`.
pub proof fn lemma_split_once_at(a: Seq<char>, x: char, b: Seq<char>)
    requires
        !a.contains(x),
    ensures
        split_once(a + seq![x] + b, x) == Some((a, b)),
{
    let s = a + seq![x] + b;
    lemma_find_char_absent(a, x);
    let n = a.len() as int;
    assert(s.take(n + 1).drop_last() =~= a);
    assert(s.take(n + 1).last() == x);
    assert(find_char(s.take(n + 1), x) == Some(n));
    lemma_find_char_prefix(s, n + 1, x);
    assert(s.take(n) =~= a);
    assert(s.skip(n + 1) =~= b);
}

/// With no separator in `s`, splitting gives `s` alone.
pub proof fn lemma_split_by_no_sep(s: Seq<char>, sep: spec_fn(char) -> bool)
    requires
        forall|i: int| 0 <= i < s.len() ==> !sep(#[trigger] s[i]),
    ensures
        split_by(s, sep) == seq![s],
    decreases s.len(),
{
    if s.len() > 0 {
        assert(forall|i: int| 0 <= i < s.drop_last().len() ==> s.drop_last()[i] == s[i]);
        lemma_split_by_no_sep(s.drop_last(), sep);
        assert(!sep(s[s.len() - 1]));
        assert(s.drop_last().push(s.last()) =~= s);
        assert(seq![s.drop_last()].update(0, s) =~= seq![s]);
    } else {
        assert(s =~= Seq::<char>::empty());
    }
}

/// Splitting `a`, a separator and `b` gives the pieces of `a` followed by those of `b`.
pub proof fn lemma_split_by_at_sep(a: Seq<char>, x: char, b: Seq<char>, sep: spec_fn(char) -> bool)
    requires
        sep(x),
    ensures
        split_by(a + seq![x] + b, sep) == split_by(a, sep) + split_by(b, sep),
    decreases b.len(),
{
    let s = a + seq![x] + b;
    if b.len() == 0 {
        assert(s == a + seq![x]);
        assert(s.drop_last() =~= a);
        assert(split_by(a, sep).push(Seq::<char>::empty()) =~= split_by(a, sep) + seq![Seq::<char>::empty()]);
    } else {
        let b0 = b.drop_last();
        assert(s.drop_last() =~= a + seq![x] + b0);
        assert(s.last() == b.last());
        lemma_split_by_at_sep(a, x, b0, sep);
        lemma_split_by_nonempty(b0, sep);
        let ra = split_by(a, sep);
        let rb = split_by(b0, sep);
        if sep(b.last()) {
            assert((ra + rb).push(Seq::<char>::empty()) =~= ra + rb.push(Seq::<char>::empty()));
        } else {
            let r = ra + rb;
            assert(r.last() == rb.last());
            assert(r.update(r.len() - 1, r.last().push(b.last())) =~= ra + rb.update(
                rb.len() - 1,
                rb.last().push(b.last()),
            ));
        }
    }
}

/// Trimming the start leaves nothing or a non-space first character.
proof fn lemma_trim_start_head(s: Seq<char>)
    ensures
        trim_start(s).len() > 0 ==> !is_ws(trim_start(s)[0]),
    decreases s.len(),
{
    if s.len() > 0 && is_ws(s[0]) {
        lemma_trim_start_head(s.drop_first());
    }
}

/// Trimming the end keeps a prefix, and leaves nothing or a non-space last character.
proof fn lemma_trim_end_shape(s: Seq<char>)
    ensures
        trim_end(s) =~= s.take(trim_end(s).len() as int),
        trim_end(s).len() <= s.len(),
        trim_end(s).len() > 0 ==> !is_ws(trim_end(s).last()),
    decreases s.len(),
{
    if s.len() > 0 && is_ws(s.last()) {
        lemma_trim_end_shape(s.drop_last());
        assert(s.drop_last().take(trim_end(s).len() as int) =~= s.take(trim_end(s).len() as int));
    } else {
        assert(s.take(s.len() as int) =~= s);
    }
}

/// Trimming twice is trimming once (`s.trim().trim() == s.trim()`).
pub proof fn lemma_trim_idempotent(s: Seq<char>)
    ensures
        trim(trim(s)) == trim(s),
{
    let t = trim_start(s);
    let u = trim_end(t);
    lemma_trim_start_head(s);
    lemma_trim_end_shape(t);
    if u.len() > 0 {
        assert(u[0] == t[0]);
    }
    assert(trim_start(u) == u);
    assert(trim_end(u) == u);
}

/// Trimming the start drops a run of leading white space.
proof fn lemma_trim_start_drops_ws(s: Seq<char>)
    ensures
        trim_start(s).len() <= s.len(),
        trim_start(s) =~= s.skip(s.len() - trim_start(s).len()),
        forall|j: int| 0 <= j < s.len() - trim_start(s).len() ==> is_ws(#[trigger] s[j]),
    decreases s.len(),
{
    if s.len() > 0 && is_ws(s[0]) {
        lemma_trim_start_drops_ws(s.drop_first());
        assert forall|j: int| 0 <= j < s.len() - trim_start(s).len() implies is_ws(#[trigger] s[j]) by {
            if j > 0 {
                assert(s[j] == s.drop_first()[j - 1]);
            }
        }
    }
}

/// Trimming the end drops a run of trailing white space.
proof fn lemma_trim_end_drops_ws(s: Seq<char>)
    ensures
        forall|j: int| trim_end(s).len() <= j < s.len() ==> is_ws(#[trigger] s[j]),
    decreases s.len(),
{
    lemma_trim_end_shape(s);
    if s.len() > 0 && is_ws(s.last()) {
        lemma_trim_end_drops_ws(s.drop_last());
        assert forall|j: int| trim_end(s).len() <= j < s.len() implies is_ws(#[trigger] s[j]) by {
            if j < s.len() - 1 {
                assert(s[j] == s.drop_last()[j]);
            }
        }
    }
}

/// A text with a character other than white space does not trim to nothing.
pub proof fn lemma_trim_keeps_text(s: Seq<char>, i: int)
    requires
        0 <= i < s.len(),
        !is_ws(s[i]),
    ensures
        trim(s).len() > 0,
{
    let t = trim_start(s);
    lemma_trim_start_drops_ws(s);
    lemma_trim_end_drops_ws(t);
    let k = s.len() - t.len();
    if trim(s).len() == 0 {
        if i >= k {
            assert(t[i - k] == s[i]);
        }
    }
}

/// Appending characters that are not separators extends the last piece.
pub proof fn lemma_split_by_extend_last(a: Seq<char>, x: Seq<char>, sep: spec_fn(char) -> bool)
    requires
        forall|i: int| 0 <= i < x.len() ==> !sep(#[trigger] x[i]),
    ensures
        split_by(a + x, sep) == split_by(a, sep).update(
            split_by(a, sep).len() - 1,
            split_by(a, sep).last() + x,
        ),
    decreases x.len(),
{
    lemma_split_by_nonempty(a, sep);
    let r = split_by(a, sep);
    if x.len() == 0 {
        assert(a + x =~= a);
        assert(r.last() + x =~= r.last());
        assert(r.update(r.len() - 1, r.last()) =~= r);
    } else {
        let x0 = x.drop_last();
        assert forall|i: int| 0 <= i < x0.len() implies !sep(#[trigger] x0[i]) by {
            assert(x0[i] == x[i]);
        }
        lemma_split_by_extend_last(a, x0, sep);
        assert((a + x).drop_last() =~= a + x0);
        assert((a + x).last() == x[x.len() - 1]);
        assert(!sep(x[x.len() - 1]));
        let r0 = r.update(r.len() - 1, r.last() + x0);
        assert((r.last() + x0).push(x.last()) =~= r.last() + x);
        assert(r0.update(r0.len() - 1, r0.last().push(x.last())) =~= r.update(r.len() - 1, r.last() + x));
    }
}

/// The subsequence `v[from..to]`.
pub fn slice_chars(v: &Vec<char>, from: usize, to: usize) -> (r: Vec<char>)
    requires
        from <= to <= v.len(),
    ensures
        r@ == v@.subrange(from as int, to as int),
{
    let mut r: Vec<char> = Vec::new();
    let mut k = from;
    while k < to
        invariant
            from <= k <= to <= v.len(),
            r@ == v@.subrange(from as int, k as int),
        decreases to - k,
    {
        r.push(v[k]);
        k = k + 1;
    }
    r
}

/// Joins character sequences with a separator.
pub fn join_chars(parts: &Vec<Vec<char>>, sep: &Vec<char>) -> (r: Vec<char>)
    ensures
        r@ == join(parts.deep_view(), sep@),
{
    let mut r: Vec<char> = Vec::new();
    let mut i: usize = 0;
    while i < parts.len()
        invariant
            i <= parts.len(),
            r@ == join(parts.deep_view().take(i as int), sep@),
        decreases parts.len() - i,
    {
        let ghost before = r@;
        proof {
            let t = parts.deep_view().take(i + 1);
            assert(t.drop_last() =~= parts.deep_view().take(i as int));
            assert(parts[i as int].deep_view() =~= parts[i as int]@);
        }
        if i > 0 {
            let mut k: usize = 0;
            while k < sep.len()
                invariant
                    k <= sep.len(),
                    r@ == before + sep@.take(k as int),
                decreases sep.len() - k,
            {
                r.push(sep[k]);
                k = k + 1;
                assert(r@ =~= before + sep@.take(k as int));
            }
            assert(sep@.take(sep.len() as int) =~= sep@);
        } else {
            assert(before =~= Seq::<char>::empty());
        }
        let ghost mid = r@;
        let p = &parts[i];
        let mut k: usize = 0;
        while k < p.len()
            invariant
                k <= p.len(),
                r@ == mid + p@.take(k as int),
            decreases p.len() - k,
        {
            r.push(p[k]);
            k = k + 1;
            assert(r@ =~= mid + p@.take(k as int));
        }
        assert(p@.take(p.len() as int) =~= p@);
        i = i + 1;
        assert(r@ =~= join(parts.deep_view().take(i as int), sep@));
    }
    assert(parts.deep_view().take(parts.len() as int) =~= parts.deep_view());
    r
}

/// `str::split_once(x)` on a character sequence.
pub fn split_once_chars(v: &Vec<char>, x: char) -> (r: Option<(Vec<char>, Vec<char>)>)
    ensures
        match (r, split_once(v@, x)) {
            (Some((a, b)), Some((sa, sb))) => a@ == sa && b@ == sb,
            (None, None) => true,
            _ => false,
        },
{
    match find_in(v, x) {
        Some(i) => Some((slice_chars(v, 0, i), slice_chars(v, i + 1, v.len()))),
        None => None,
    }
}

/// `<u64 as FromStr>::from_str` on a character sequence.
pub fn parse_u64_chars(v: &Vec<char>) -> (r: Option<u64>)
    ensures
        r == parse_u64(v@),
{
    let start: usize = if v.len() > 0 && v[0] == '+' {
        1
    } else {
        0
    };
    let ghost d = if v@.len() > 0 && v@[0] == '+' {
        v@.drop_first()
    } else {
        v@
    };
    assert(d == v@.skip(start as int));
    if start == v.len() {
        return None;
    }
    let mut acc: u64 = 0;
    let mut i: usize = start;
    while i < v.len()
        invariant
            start <= i <= v.len(),
            d == v@.skip(start as int),
            d == (if v@.len() > 0 && v@[0] == '+' {
                v@.drop_first()
            } else {
                v@
            }),
            all_digits(v@.subrange(start as int, i as int)),
            acc == digits_value(v@.subrange(start as int, i as int)),
        decreases v.len() - i,
    {
        let c = v[i];
        let ghost pre = v@.subrange(start as int, i as int);
        assert(v@.subrange(start as int, i + 1) == pre.push(c));
        if !is_digit_char(c) {
            assert(d[i - start] == c);
            assert(!all_digits(d));
            return None;
        }
        proof { lemma_digits_value_push(pre, c); }
        let dv: u64 = ((c as u32) - ('0' as u32)) as u64;
        if acc > 1844674407370955161 || (acc == 1844674407370955161 && dv > 5) {
            proof {
                lemma_digits_value_push(pre, c);
                assert(v@.skip(start as int).take((i + 1 - start) as int) == pre.push(c));
                if all_digits(d) {
                    lemma_digits_value_prefix_bound(d, (i + 1 - start) as int);
                    assert(digits_value(d) > u64::MAX);
                }
            }
            return None;
        }
        acc = acc * 10 + dv;
        i = i + 1;
    }
    assert(v@.subrange(start as int, v.len() as int) == d);
    Some(acc)
}

/// The value of a digit sequence is at least the value of any of its prefixes.
pub proof fn lemma_digits_value_prefix_bound(s: Seq<char>, n: int)
    requires
        0 <= n <= s.len(),
        all_digits(s),
    ensures
        digits_value(s) >= digits_value(s.take(n)),
    decreases s.len() - n,
{
    if n < s.len() {
        lemma_digits_value_prefix_bound(s, n + 1);
        assert(s.take(n + 1).drop_last() == s.take(n));
        assert(is_digit(s[n]));
    } else {
        assert(s.take(n) == s);
    }
}

} // verus!
