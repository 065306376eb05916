//! Query text handling for the SQLite index: the FTS5 sanitiser, LIKE escaping and the
//! natural version ordering key.

use vstd::prelude::*;

use crate::error::{is_invalid_input, AppError};
use crate::text::{
    chars_of, is_alnum, is_alnum_char, join, join_chars, nonempty, parse_u64, parse_u64_chars,
    sep_fn, slice_chars, split_by, split_on, split_words, string_of, words, Sep,
};

verus! {

/// Longest accepted search query, in characters.
pub const MAX_QUERY_CHARS: usize = 256;

/// Characters kept in an FTS term: ASCII letters and digits and `. _ / -`.
pub open spec fn fts_allowed(c: char) -> bool {
    is_alnum(c) || c == '.' || c == '_' || c == '/' || c == '-'
}

/// One whitespace-separated word turned into a quoted FTS5 term, or `None` when no
/// allowed character is left. A trailing `*` on the word keeps prefix matching.
pub open spec fn fts_term(raw: Seq<char>) -> Option<Seq<char>> {
    let cleaned = raw.filter(|c: char| fts_allowed(c));
    if cleaned.len() == 0 {
        None
    } else {
        let quoted = seq!['"'] + cleaned + seq!['"'];
        Some(
            if raw.len() > 0 && raw.last() == '*' {
                quoted.push('*')
            } else {
                quoted
            },
        )
    }
}

/// The FTS5 terms of a user query, in order.
pub open spec fn fts_terms(user: Seq<char>) -> Seq<Seq<char>> {
    words(user).filter_map(|raw: Seq<char>| fts_term(raw))
}

/// Characters that LIKE treats specially (and the escape character itself).
pub open spec fn like_special(c: char) -> bool {
    c == '%' || c == '_' || c == '\\'
}

/// `s` with every LIKE special character preceded by a backslash.
pub open spec fn like_escape(s: Seq<char>) -> Seq<char>
    decreases s.len(),
{
    if s.len() == 0 {
        Seq::empty()
    } else {
        like_escape(s.drop_last()) + if like_special(s.last()) {
            seq!['\\', s.last()]
        } else {
            seq![s.last()]
        }
    }
}

/// `s` with leading `v` characters removed (`trim_start_matches('v')`).
pub open spec fn strip_v(s: Seq<char>) -> Seq<char>
    decreases s.len(),
{
    if s.len() > 0 && s[0] == 'v' {
        strip_v(s.drop_first())
    } else {
        s
    }
}

/// The natural ordering key of a version string: its runs of ASCII digits, as numbers,
/// skipping runs too large for 64 bits.
pub open spec fn version_key_of(v: Seq<char>) -> Seq<u64> {
    split_by(strip_v(v), sep_fn(Sep::NonDigit)).filter(|p: Seq<char>| nonempty(p)).filter_map(
        |p: Seq<char>| parse_u64(p),
    )
}

/// A leading `v` does not change the version key (`v1.2` orders as `1.2`).
pub proof fn lemma_version_key_leading_v(v: Seq<char>)
    ensures
        version_key_of(seq!['v'] + v) == version_key_of(v),
{
    let w = seq!['v'] + v;
    assert(w.drop_first() =~= v);
    assert(strip_v(w) == strip_v(v));
}

/// Convert a user query into a safe FTS5 MATCH expression.
///
/// Each whitespace-separated term is stripped to `[A-Za-z0-9._/-]`, double-quoted (so
/// FTS operators cannot be injected) and joined with implicit AND. A trailing `*` keeps
/// prefix semantics.
pub fn fts_query(user: &str) -> (r: Result<String, AppError>)
    ensures
        user@.len() > MAX_QUERY_CHARS ==> (r matches Err(e) && is_invalid_input(
            e,
            "query longer than 256 chars"@,
        )),
        user@.len() <= MAX_QUERY_CHARS && fts_terms(user@).len() == 0 ==> (r matches Err(e)
            && is_invalid_input(e, "query has no searchable terms"@)),
        user@.len() <= MAX_QUERY_CHARS && fts_terms(user@).len() > 0 ==> (r matches Ok(q) && q@
            == join(fts_terms(user@), seq![' '])),
{
    let chars = chars_of(user);
    if chars.len() > MAX_QUERY_CHARS {
        return Err(AppError::InvalidInput("query longer than 256 chars".to_owned()));
    }
    let raws = split_words(&chars);
    let ghost all = words(user@);
    let ghost f = |raw: Seq<char>| fts_term(raw);
    let mut terms: Vec<Vec<char>> = Vec::new();
    let mut i: usize = 0;
    while i < raws.len()
        invariant
            i <= raws.len(),
            raws.deep_view() == all,
            all == words(user@),
            f == (|raw: Seq<char>| fts_term(raw)),
            terms.deep_view() == all.take(i as int).filter_map(f),
        decreases raws.len() - i,
    {
        let raw = &raws[i];
        let ghost rv = raw@;
        assert(raw.deep_view() =~= raw@);
        assert(all[i as int] == rv);
        let term = fts_term_of(raw);
        proof {
            let t = all.take(i + 1);
            assert(t.drop_last() =~= all.take(i as int));
            assert(t.last() == rv);
        }
        let ghost dv = terms.deep_view();
        match term {
            Some(t) => {
                assert(t.deep_view() =~= t@);
                terms.push(t);
                assert(terms.deep_view() =~= dv + seq![fts_term(rv).unwrap()]);
            },
            None => {},
        }
        i = i + 1;
    }
    assert(all.take(raws.len() as int) =~= all);
    if terms.len() == 0 {
        return Err(AppError::InvalidInput("query has no searchable terms".to_owned()));
    }
    let space = vec![' '];
    assert(space@ =~= seq![' ']);
    let joined = join_chars(&terms, &space);
    Ok(string_of(&joined))
}

/// One word of a query as a quoted FTS5 term.
fn fts_term_of(raw: &Vec<char>) -> (r: Option<Vec<char>>)
    ensures
        r.deep_view() == fts_term(raw@),
{
    let ghost keep = |c: char| fts_allowed(c);
    let mut cleaned: Vec<char> = Vec::new();
    let mut k: usize = 0;
    proof {
        reveal(Seq::filter);
        assert(raw@.take(0).filter(keep) =~= Seq::<char>::empty());
    }
    while k < raw.len()
        invariant
            k <= raw.len(),
            keep == (|c: char| fts_allowed(c)),
            cleaned@ == raw@.take(k as int).filter(keep),
        decreases raw.len() - k,
    {
        let c = raw[k];
        proof {
            reveal(Seq::filter);
            let t = raw@.take(k + 1);
            assert(t.drop_last() =~= raw@.take(k as int));
            assert(t.last() == c);
        }
        if is_alnum_char(c) || c == '.' || c == '_' || c == '/' || c == '-' {
            cleaned.push(c);
        }
        k = k + 1;
    }
    assert(raw@.take(raw.len() as int) =~= raw@);
    if cleaned.len() == 0 {
        return None;
    }
    let mut quoted: Vec<char> = Vec::new();
    quoted.push('"');
    let mut k: usize = 0;
    while k < cleaned.len()
        invariant
            k <= cleaned.len(),
            quoted@ == seq!['"'] + cleaned@.take(k as int),
        decreases cleaned.len() - k,
    {
        quoted.push(cleaned[k]);
        k = k + 1;
        assert(quoted@ =~= seq!['"'] + cleaned@.take(k as int));
    }
    assert(cleaned@.take(cleaned.len() as int) =~= cleaned@);
    quoted.push('"');
    if raw.len() > 0 && raw[raw.len() - 1] == '*' {
        quoted.push('*');
    }
    let r = Some(quoted);
    assert(r.deep_view() =~= fts_term(raw@));
    r
}

/// Escape `%` and `_` for a LIKE prefix match with `ESCAPE '\'`.
pub fn like_prefix(s: &str) -> (r: String)
    ensures
        r@ == like_escape(s@).push('%'),
{
    let chars = chars_of(s);
    let mut out: Vec<char> = Vec::new();
    let mut i: usize = 0;
    while i < chars.len()
        invariant
            i <= chars.len(),
            chars@ == s@,
            out@ == like_escape(s@.take(i as int)),
        decreases chars.len() - i,
    {
        let c = chars[i];
        proof {
            let t = s@.take(i + 1);
            assert(t.drop_last() =~= s@.take(i as int));
            assert(t.last() == c);
        }
        let ghost before = out@;
        if c == '%' || c == '_' || c == '\\' {
            out.push('\\');
        }
        out.push(c);
        i = i + 1;
        assert(out@ =~= like_escape(s@.take(i as int)));
    }
    assert(s@.take(chars.len() as int) =~= s@);
    out.push('%');
    string_of(&out)
}

/// Natural version ordering key: numeric segments of `1.37.0` / `v0.94.1`.
pub fn version_key(v: &str) -> (r: Vec<u64>)
    ensures
        r@ == version_key_of(v@),
{
    let chars = chars_of(v);
    let mut start: usize = 0;
    assert(v@.skip(0) =~= v@);
    while start < chars.len() && chars[start] == 'v'
        invariant
            start <= chars.len(),
            chars@ == v@,
            strip_v(v@) == strip_v(v@.skip(start as int)),
        decreases chars.len() - start,
    {
        assert(v@.skip(start as int).drop_first() =~= v@.skip(start + 1));
        start = start + 1;
    }
    let rest = slice_chars(&chars, start, chars.len());
    assert(rest@ =~= v@.skip(start as int));
    assert(strip_v(v@) == rest@);
    let pieces = split_on(&rest, Sep::NonDigit);
    let ghost all = split_by(strip_v(v@), sep_fn(Sep::NonDigit));
    let ghost ne = |p: Seq<char>| nonempty(p);
    let ghost pf = |p: Seq<char>| parse_u64(p);
    let mut out: Vec<u64> = Vec::new();
    let mut i: usize = 0;
    proof {
        reveal(Seq::filter);
        assert(all.take(0).filter(ne) =~= Seq::<Seq<char>>::empty());
    }
    while i < pieces.len()
        invariant
            i <= pieces.len(),
            pieces.deep_view() == all,
            ne == (|p: Seq<char>| nonempty(p)),
            pf == (|p: Seq<char>| parse_u64(p)),
            out@ == all.take(i as int).filter(ne).filter_map(pf),
        decreases pieces.len() - i,
    {
        let p = &pieces[i];
        assert(p.deep_view() =~= p@);
        assert(all[i as int] == p@);
        proof {
            reveal(Seq::filter);
            let t = all.take(i + 1);
            assert(t.drop_last() =~= all.take(i as int));
            assert(t.last() == p@);
        }
        let ghost before = all.take(i as int).filter(ne);
        if p.len() > 0 {
            assert(all.take(i + 1).filter(ne) == before.push(p@));
            assert(before.push(p@).drop_last() =~= before);
            match parse_u64_chars(p) {
                Some(n) => {
                    out.push(n);
                },
                None => {},
            }
        } else {
            assert(all.take(i + 1).filter(ne) == before);
        }
        i = i + 1;
    }
    assert(all.take(pieces.len() as int) =~= all);
    out
}

// ---------------------------------------------------------------- laws

/// A sanitized FTS5 term: a double-quoted, non-empty run of `[A-Za-z0-9._/-]`,
/// optionally followed by `*`.
pub open spec fn quoted_term(t: Seq<char>) -> bool {
    exists|w: Seq<char>|
        #![trigger w.len()]
        w.len() > 0 && (forall|i: int| 0 <= i < w.len() ==> fts_allowed(#[trigger] w[i])) && (t
            == seq!['"'] + w + seq!['"'] || t == seq!['"'] + w + seq!['"', '*'])
}

/// No raw user input reaches `MATCH`: every term of a sanitized query is a quoted run of
/// plain characters (so FTS5 operators and column filters cannot be injected), with at
/// most a prefix `*` after the closing quote.
pub proof fn lemma_fts_terms_quoted(user: Seq<char>)
    ensures
        forall|i: int| 0 <= i < fts_terms(user).len() ==> quoted_term(#[trigger] fts_terms(user)[i]),
{
    let f = |raw: Seq<char>| fts_term(raw);
    let ws = words(user);
    assert forall|i: int| 0 <= i < fts_terms(user).len() implies quoted_term(#[trigger] fts_terms(user)[i]) by {
        let t = fts_terms(user)[i];
        assert(fts_terms(user) == ws.filter_map(f));
        assert(ws.filter_map(f).contains(t));
        ws.lemma_filter_map_contains(f, t);
        let raw = choose|raw: Seq<char>| #[trigger] ws.contains(raw) && f(raw) == Some(t);
        let keep = |c: char| fts_allowed(c);
        let w = raw.filter(keep);
        assert forall|k: int| 0 <= k < w.len() implies fts_allowed(#[trigger] w[k]) by {
            raw.lemma_filter_pred(keep, k);
        }
        assert(w.len() > 0);
        if raw.len() > 0 && raw.last() == '*' {
            assert(t =~= seq!['"'] + w + seq!['"', '*']);
        } else {
            assert(t =~= seq!['"'] + w + seq!['"']);
        }
    }
}

/// The literal text a LIKE pattern with escape character `\` stands for: a `\` makes the
/// next character literal.
pub open spec fn like_unescape(p: Seq<char>) -> Seq<char>
    decreases p.len(),
{
    if p.len() == 0 {
        Seq::empty()
    } else if p[0] == '\\' && p.len() >= 2 {
        seq![p[1]] + like_unescape(p.skip(2))
    } else {
        seq![p[0]] + like_unescape(p.skip(1))
    }
}

/// A LIKE pattern (escape character `\`) without an unescaped wildcard.
pub open spec fn wildcard_free(p: Seq<char>) -> bool
    decreases p.len(),
{
    if p.len() == 0 {
        true
    } else if p[0] == '\\' && p.len() >= 2 {
        wildcard_free(p.skip(2))
    } else {
        p[0] != '%' && p[0] != '_' && wildcard_free(p.skip(1))
    }
}

/// One character as `like_escape` writes it.
pub open spec fn like_escape_char(c: char) -> Seq<char> {
    if like_special(c) {
        seq!['\\', c]
    } else {
        seq![c]
    }
}

/// Escaping works character by character from the front too.
proof fn lemma_like_escape_front(s: Seq<char>)
    requires
        s.len() > 0,
    ensures
        like_escape(s) == like_escape_char(s[0]) + like_escape(s.drop_first()),
    decreases s.len(),
{
    if s.len() == 1 {
        assert(s.drop_last().len() == 0);
        assert(s.drop_first().len() == 0);
        assert(like_escape(s.drop_first()) == Seq::<char>::empty());
        assert(like_escape(s.drop_last()) == Seq::<char>::empty());
        assert(like_escape(s) =~= like_escape_char(s[0]));
    } else {
        let d = s.drop_last();
        lemma_like_escape_front(d);
        assert(d.drop_first() =~= s.drop_first().drop_last());
        assert(s.drop_first().last() == s.last());
        assert(like_escape(s) =~= like_escape_char(s[0]) + like_escape(s.drop_first()));
    }
}

/// The escaped text of a LIKE prefix search stands for exactly the searched text and has
/// no wildcard of its own, so `like_prefix(s)` (the escaped text and a final `%`) matches
/// exactly the values that start with `s`.
pub proof fn lemma_like_escape_literal(s: Seq<char>)
    ensures
        like_unescape(like_escape(s)) == s,
        wildcard_free(like_escape(s)),
    decreases s.len(),
{
    if s.len() == 0 {
        assert(like_escape(s) == Seq::<char>::empty());
    } else {
        lemma_like_escape_front(s);
        let rest = like_escape(s.drop_first());
        lemma_like_escape_literal(s.drop_first());
        let p = like_escape(s);
        let c = s[0];
        if like_special(c) {
            assert(p[0] == '\\' && p.len() >= 2 && p[1] == c);
            assert(p.skip(2) =~= rest);
        } else {
            assert(p[0] == c);
            assert(p.skip(1) =~= rest);
        }
        assert(like_unescape(p) =~= s);
    }
}

} // verus!
