//! kubectl-explain style rendering over a stored JSON Schema (draft-04 dialect, local `$ref`s).
//!
//! Functions that recurse without a structural bound (following `allOf` parts, nested
//! `items`, referenced definitions) are specified with a `fuel` argument and give `None`
//! when it runs out: a result `Some(x)` for some fuel means the computation finishes
//! with `x`.

use vstd::prelude::*;

use crate::json::{
    as_array, as_bool, as_object, as_str, find_member, get, insert_member, jv, jv_items,
    jv_members, lemma_jv_items_index_all, lemma_jv_members_index_all, members_extend,
    members_get, members_insert, members_or_insert, members_remove, remove_member, str_eq,
    json_text, to_text, Json, JsonV, Members,
};
use crate::error::{is_not_found, AppError};
use crate::schema::store::{group_version_of, opt_view, KindRef};
use crate::text::{
    byte_len, chars_of, join, join_chars, push_all, sep_fn, split_by, split_on, string_of, trim,
    trim_chars, words, Sep,
};

verus! {


/// Most `$ref` hops followed before giving up.
pub const MAX_DEREF: usize = 16;

/// Size past which the FIELDS listing of `explain` is cut.
pub const MAX_EXPLAIN_BYTES: usize = 16384;

/// Size past which `subtree` returns a summary instead of the schema.
pub const MAX_SCHEMA_BYTES: usize = 65536;

pub open spec fn some_or(a: Option<JsonV>, b: Option<JsonV>) -> Option<JsonV> {
    match a {
        Some(x) => Some(x),
        None => b,
    }
}

/// The `definitions` (or else `$defs`) object of the root schema.
pub open spec fn definitions(root: JsonV) -> Option<Members> {
    as_object(some_or(get(root, "definitions"@), get(root, "$defs"@)))
}

/// The definition called `name`.
pub open spec fn definition(root: JsonV, name: Seq<char>) -> Option<JsonV> {
    match definitions(root) {
        Some(d) => members_get(d, name),
        None => None,
    }
}

/// The last `/`-separated segment of a reference (`#/definitions/X` gives `X`).
pub open spec fn ref_name(r: Seq<char>) -> Seq<char> {
    split_by(r, sep_fn(Sep::Char('/'))).last()
}

/// Follows local `$ref`s from `cur`, at most `MAX_DEREF` hops in all, stopping at a node
/// without a string `$ref` or with a reference to a missing definition.
pub open spec fn follow_refs(root: JsonV, cur: JsonV, hops: nat) -> JsonV
    decreases 17 - hops,
{
    match as_str(get(cur, "$ref"@)) {
        Some(r) => if hops + 1 > 16 {
            cur
        } else {
            match definition(root, ref_name(r)) {
                Some(t) => follow_refs(root, t, hops + 1),
                None => cur,
            }
        },
        None => cur,
    }
}

/// State of an `allOf` merge: the merged members, the collected properties and the
/// collected `required` entries.
pub type MergeState = (Members, Members, Seq<JsonV>);

/// Merges one member of an `allOf` part into the state.
pub open spec fn merge_member(st: MergeState, k: Seq<char>, v: JsonV) -> MergeState {
    if k == "properties"@ {
        match v {
            JsonV::Object(pp) => (st.0, members_extend(st.1, pp), st.2),
            _ => st,
        }
    } else if k == "required"@ {
        match v {
            JsonV::Array(r) => (st.0, st.1, st.2 + r),
            _ => st,
        }
    } else {
        (members_or_insert(st.0, k, v), st.1, st.2)
    }
}

/// Merges the first `n` members of `o`, in order.
pub open spec fn merge_members(st: MergeState, o: Members, n: nat) -> MergeState
    decreases n,
{
    if n == 0 || n > o.len() {
        st
    } else {
        let s = merge_members(st, o, (n - 1) as nat);
        merge_member(s, o[n - 1].0, o[n - 1].1)
    }
}

/// Merges one dereferenced `allOf` part (objects only).
pub open spec fn merge_part(st: MergeState, p: JsonV) -> MergeState {
    match p {
        JsonV::Object(o) => merge_members(st, o, o.len()),
        _ => st,
    }
}

/// `deref` with fuel: follow references, then merge `allOf` parts (each dereferenced in
/// turn) into the node.
pub open spec fn deref_f(root: JsonV, node: JsonV, fuel: nat) -> Option<JsonV>
    decreases fuel, 0nat,
{
    if fuel == 0 {
        None
    } else {
        let cur = follow_refs(root, node, 0);
        match as_array(get(cur, "allOf"@)) {
            None => Some(cur),
            Some(all) => {
                let m0 = match cur {
                    JsonV::Object(m) => members_remove(m, "allOf"@),
                    _ => Seq::empty(),
                };
                let p0 = match as_object(members_get(m0, "properties"@)) {
                    Some(p) => p,
                    None => Seq::empty(),
                };
                let r0 = match as_array(members_get(m0, "required"@)) {
                    Some(r) => r,
                    None => Seq::empty(),
                };
                match merge_parts(root, all, all.len(), (m0, p0, r0), (fuel - 1) as nat) {
                    None => None,
                    Some(st) => {
                        let m1 = if st.1.len() > 0 {
                            members_insert(st.0, "properties"@, JsonV::Object(st.1))
                        } else {
                            st.0
                        };
                        let m2 = if st.2.len() > 0 {
                            members_insert(m1, "required"@, JsonV::Array(st.2))
                        } else {
                            m1
                        };
                        Some(JsonV::Object(m2))
                    },
                }
            },
        }
    }
}

/// Merges the dereferenced first `n` parts.
pub open spec fn merge_parts(
    root: JsonV,
    parts: Seq<JsonV>,
    n: nat,
    st: MergeState,
    fuel: nat,
) -> Option<MergeState>
    decreases fuel, n,
{
    if n == 0 || n > parts.len() {
        Some(st)
    } else {
        match merge_parts(root, parts, (n - 1) as nat, st, fuel) {
            None => None,
            Some(s) => match deref_f(root, parts[n - 1], fuel) {
                None => None,
                Some(p) => Some(merge_part(s, p)),
            },
        }
    }
}

/// `deref` finishes on this node.
pub open spec fn deref_ends(root: JsonV, node: JsonV) -> bool {
    exists|fuel: nat| deref_f(root, node, fuel) is Some
}

/// The first string of a sequence that is not `"null"`.
pub open spec fn first_non_null(a: Seq<JsonV>) -> Option<Seq<char>>
    decreases a.len(),
{
    if a.len() == 0 {
        None
    } else {
        match a[0] {
            JsonV::Str(s) => if s != "null"@ {
                Some(s)
            } else {
                first_non_null(a.drop_first())
            },
            _ => first_non_null(a.drop_first()),
        }
    }
}

/// The node's `type`: a string, or the first non-`null` string of a type list.
pub open spec fn base_type(n: JsonV) -> Option<Seq<char>> {
    match get(n, "type"@) {
        Some(JsonV::Str(s)) => Some(s),
        Some(JsonV::Array(a)) => first_non_null(a),
        _ => None,
    }
}

/// Some alternative of the list has `type` `t`.
pub open spec fn has_alternative(one: Seq<JsonV>, t: Seq<char>) -> bool {
    exists|i: int| 0 <= i < one.len() && base_type(#[trigger] one[i]) == Some(t)
}

/// `type_label` with fuel.
pub open spec fn type_label_f(root: JsonV, node: JsonV, fuel: nat) -> Option<Seq<char>>
    decreases fuel,
{
    if fuel == 0 {
        None
    } else {
        match deref_f(root, node, fuel) {
            None => None,
            Some(n) => {
                let one = as_array(some_or(get(n, "oneOf"@), get(n, "anyOf"@)));
                if as_bool(get(n, "x-kubernetes-int-or-string"@)) == Some(true) {
                    Some("int-or-string"@)
                } else if one is Some && has_alternative(one.unwrap(), "integer"@)
                    && has_alternative(one.unwrap(), "string"@) {
                    Some("int-or-string"@)
                } else {
                    let bt = base_type(n);
                    if bt == Some("array"@) {
                        match get(n, "items"@) {
                            Some(i) => match type_label_f(root, i, (fuel - 1) as nat) {
                                Some(inner) => Some("[]"@ + inner),
                                None => None,
                            },
                            None => Some("[]Object"@),
                        }
                    } else if (bt == Some("object"@) || bt is None) && get(n, "properties"@) is Some {
                        Some("Object"@)
                    } else if bt == Some("object"@) {
                        match get(n, "additionalProperties"@) {
                            Some(JsonV::Object(ap)) => match type_label_f(
                                root,
                                JsonV::Object(ap),
                                (fuel - 1) as nat,
                            ) {
                                Some(inner) => Some("map[string]"@ + inner),
                                None => None,
                            },
                            _ => Some("Object"@),
                        }
                    } else if bt is Some {
                        bt
                    } else if get(n, "x-kubernetes-preserve-unknown-fields"@) is Some {
                        Some("Object"@)
                    } else {
                        Some("any"@)
                    }
                }
            },
        }
    }
}

/// Steps through up to `k` array layers (`items`, dereferenced; `null` when missing).
pub open spec fn unwrap_arrays(root: JsonV, n: JsonV, k: nat, fuel: nat) -> Option<JsonV>
    decreases k,
{
    if k == 0 || base_type(n) != Some("array"@) {
        Some(n)
    } else {
        let items = match get(n, "items"@) {
            Some(i) => i,
            None => JsonV::Null,
        };
        match deref_f(root, items, fuel) {
            None => None,
            Some(d) => unwrap_arrays(root, d, (k - 1) as nat, fuel),
        }
    }
}

/// `s` with every trailing `[]` removed.
pub open spec fn strip_brackets(s: Seq<char>) -> Seq<char>
    decreases s.len(),
{
    if s.len() >= 2 && s[s.len() - 2] == '[' && s[s.len() - 1] == ']' {
        strip_brackets(s.take(s.len() - 2))
    } else {
        s
    }
}

/// The member names of an object, in order.
pub open spec fn keys_of(m: Members) -> Seq<Seq<char>> {
    m.map_values(|e: (Seq<char>, JsonV)| e.0)
}

/// The names of the `properties` of a node.
pub open spec fn property_names(n: JsonV) -> Seq<Seq<char>> {
    match as_object(get(n, "properties"@)) {
        Some(p) => keys_of(p),
        None => Seq::empty(),
    }
}

/// The message when a path segment is not found.
pub open spec fn not_found_message(seg: Seq<char>, seen: Seq<char>, node: JsonV) -> Seq<char> {
    let under = if seen.len() == 0 {
        "<root>"@
    } else {
        seen
    };
    let names = property_names(node);
    let avail = if names.len() == 0 {
        "(none)"@
    } else {
        join(names, ", "@)
    };
    "field '"@ + seg + "' not found under '"@ + under + "'; available: "@ + avail
}

/// The child of a node that a path segment selects: the property of that name, or else
/// an object `additionalProperties`.
pub open spec fn child(node: JsonV, seg: Seq<char>) -> Option<JsonV> {
    match get(get_props(node), seg) {
        Some(c) => Some(c),
        None => match get(node, "additionalProperties"@) {
            Some(ap) => if ap is Object && (seg == "*"@ || !(get(node, "properties"@) is Some && get(
                get_props(node),
                seg,
            ) is Some)) {
                Some(ap)
            } else {
                None
            },
            None => None,
        },
    }
}

pub open spec fn get_props(node: JsonV) -> JsonV {
    match get(node, "properties"@) {
        Some(p) => p,
        None => JsonV::Null,
    }
}

/// Walk state after the first `n` path pieces: `None` when it does not finish,
/// `Some(Err(message))` when a segment is missing, otherwise the node and the segments
/// seen so far.
pub open spec fn walk_steps(root: JsonV, pieces: Seq<Seq<char>>, n: nat, start: JsonV, fuel: nat) -> Option<
    Result<(JsonV, Seq<char>), Seq<char>>,
>
    decreases n,
{
    if n == 0 || n > pieces.len() {
        Some(Ok((start, Seq::empty())))
    } else {
        match walk_steps(root, pieces, (n - 1) as nat, start, fuel) {
            Some(Ok((cur, seen))) => {
                let seg = strip_brackets(pieces[n - 1]);
                if seg.len() == 0 {
                    Some(Ok((cur, seen)))
                } else {
                    match unwrap_arrays(root, cur, 3, fuel) {
                        None => None,
                        Some(node) => match child(node, seg) {
                            None => Some(Err(not_found_message(seg, seen, node))),
                            Some(next) => match deref_f(root, next, fuel) {
                                None => None,
                                Some(d) => Some(
                                    Ok(
                                        (
                                            d,
                                            if seen.len() == 0 {
                                                seg
                                            } else {
                                                seen + seq!['.'] + seg
                                            },
                                        ),
                                    ),
                                ),
                            },
                        },
                    }
                }
            },
            other => other,
        }
    }
}

/// `walk` with fuel: `Some(Ok(node))`, `Some(Err(message))` for a missing field, or
/// `None` when it does not finish.
pub open spec fn walk_f(root: JsonV, path: Seq<char>, fuel: nat) -> Option<Result<JsonV, Seq<char>>> {
    match deref_f(root, root, fuel) {
        None => None,
        Some(top) => if trim(path).len() == 0 {
            Some(Ok(top))
        } else {
            let pieces = split_by(path, sep_fn(Sep::Char('.')));
            match walk_steps(root, pieces, pieces.len(), top, fuel) {
                None => None,
                Some(Err(m)) => Some(Err(m)),
                Some(Ok((cur, _))) => match unwrap_arrays(root, cur, 3, fuel) {
                    None => None,
                    Some(n) => Some(Ok(n)),
                },
            }
        },
    }
}

proof fn lemma_walk_steps_same_prefix(
    root: JsonV,
    p: Seq<Seq<char>>,
    q: Seq<Seq<char>>,
    n: nat,
    start: JsonV,
    fuel: nat,
)
    requires
        n <= p.len(),
        n <= q.len(),
        p.take(n as int) == q.take(n as int),
    ensures
        walk_steps(root, p, n, start, fuel) == walk_steps(root, q, n, start, fuel),
    decreases n,
{
    if n > 0 {
        assert(p.take(n - 1) =~= p.take(n as int).take(n - 1));
        assert(q.take(n - 1) =~= q.take(n as int).take(n - 1));
        assert(p[n - 1] == p.take(n as int)[n - 1]);
        assert(q[n - 1] == q.take(n as int)[n - 1]);
        lemma_walk_steps_same_prefix(root, p, q, (n - 1) as nat, start, fuel);
    }
}

proof fn lemma_walk_steps_skip_empty(
    root: JsonV,
    a: Seq<Seq<char>>,
    b: Seq<Seq<char>>,
    k: nat,
    start: JsonV,
    fuel: nat,
)
    requires
        k <= b.len(),
    ensures
        walk_steps(root, a + seq![Seq::<char>::empty()] + b, a.len() + 1 + k, start, fuel)
            == walk_steps(root, a + b, a.len() + k, start, fuel),
    decreases k,
{
    let p = a + seq![Seq::<char>::empty()] + b;
    let q = a + b;
    if k == 0 {
        assert(p.take(a.len() as int) =~= q.take(a.len() as int));
        lemma_walk_steps_same_prefix(root, p, q, a.len(), start, fuel);
        assert(p[a.len() as int] == Seq::<char>::empty());
        assert(strip_brackets(Seq::<char>::empty()) == Seq::<char>::empty());
    } else {
        lemma_walk_steps_skip_empty(root, a, b, (k - 1) as nat, start, fuel);
        assert(p[a.len() + k as int] == b[k - 1]);
        assert(q[a.len() + k - 1] == b[k - 1]);
    }
}

/// A path walk skips empty segments: `a..b` walks as `a.b`.
pub proof fn lemma_walk_skips_empty_segments(root: JsonV, a: Seq<char>, b: Seq<char>, fuel: nat)
    ensures
        walk_f(root, a + seq!['.', '.'] + b, fuel) == walk_f(root, a + seq!['.'] + b, fuel),
{
    let dot = sep_fn(Sep::Char('.'));
    assert(dot('.'));
    let long = a + seq!['.', '.'] + b;
    let short = a + seq!['.'] + b;
    assert(!crate::text::is_ws('.'));
    assert(long[a.len() as int] == '.');
    assert(short[a.len() as int] == '.');
    crate::text::lemma_trim_keeps_text(long, a.len() as int);
    crate::text::lemma_trim_keeps_text(short, a.len() as int);
    let rest = seq!['.'] + b;
    assert(long =~= a + seq!['.'] + rest);
    crate::text::lemma_split_by_at_sep(a, '.', rest, dot);
    assert(rest =~= Seq::<char>::empty() + seq!['.'] + b);
    crate::text::lemma_split_by_at_sep(Seq::<char>::empty(), '.', b, dot);
    crate::text::lemma_split_by_at_sep(a, '.', b, dot);
    let pa = split_by(a, dot);
    let pb = split_by(b, dot);
    assert(split_by(Seq::<char>::empty(), dot) == seq![Seq::<char>::empty()]);
    assert(split_by(long, dot) =~= pa + seq![Seq::<char>::empty()] + pb);
    assert(split_by(short, dot) =~= pa + pb);
    match deref_f(root, root, fuel) {
        Some(top) => {
            lemma_walk_steps_skip_empty(root, pa, pb, pb.len(), top, fuel);
        },
        None => {},
    }
}

proof fn lemma_walk_steps_same_segments(
    root: JsonV,
    p: Seq<Seq<char>>,
    q: Seq<Seq<char>>,
    n: nat,
    start: JsonV,
    fuel: nat,
)
    requires
        p.len() == q.len(),
        n <= p.len(),
        forall|i: int| 0 <= i < p.len() ==> strip_brackets(#[trigger] p[i]) == strip_brackets(q[i]),
    ensures
        walk_steps(root, p, n, start, fuel) == walk_steps(root, q, n, start, fuel),
    decreases n,
{
    if n > 0 {
        assert(strip_brackets(p[n - 1]) == strip_brackets(q[n - 1]));
        lemma_walk_steps_same_segments(root, p, q, (n - 1) as nat, start, fuel);
    }
}

/// A path walk descends arrays transparently: `[]` at the end of a segment changes
/// nothing: `spec.containers[].ports` walks as `spec.containers.ports`, and a path ending
/// in `[]` walks as the path without it (when that path is not blank).
pub proof fn lemma_walk_ignores_brackets(root: JsonV, a: Seq<char>, b: Seq<char>, fuel: nat)
    ensures
        trim(a).len() > 0 ==> walk_f(root, a + seq!['[', ']'], fuel) == walk_f(root, a, fuel),
        walk_f(root, a + seq!['[', ']', '.'] + b, fuel) == walk_f(root, a + seq!['.'] + b, fuel),
{
    let dot = sep_fn(Sep::Char('.'));
    assert(dot('.'));
    let br = seq!['[', ']'];
    let ab = a + br;
    assert(!dot('[') && !dot(']'));
    crate::text::lemma_split_by_extend_last(a, br, dot);
    crate::text::lemma_split_by_nonempty(a, dot);
    let pa = split_by(a, dot);
    let pab = split_by(ab, dot);
    let last = pa.len() - 1;
    assert(pab == pa.update(last, pa[last] + br));
    assert(strip_brackets(pa[last] + br) == strip_brackets(pa[last])) by {
        let w = pa[last] + br;
        assert(w.take(w.len() - 2) =~= pa[last]);
    }
    assert forall|i: int| 0 <= i < pab.len() implies strip_brackets(#[trigger] pab[i]) == strip_brackets(pa[i]) by {}
    // brackets at the end of the path
    assert(!crate::text::is_ws('['));
    assert(ab[a.len() as int] == '[');
    crate::text::lemma_trim_keeps_text(ab, a.len() as int);
    match deref_f(root, root, fuel) {
        Some(top) => lemma_walk_steps_same_segments(root, pab, pa, pa.len(), top, fuel),
        None => {},
    }
    // brackets before a dot
    let long = ab + seq!['.'] + b;
    let short = a + seq!['.'] + b;
    assert(a + seq!['[', ']', '.'] + b =~= long);
    assert(!crate::text::is_ws('.'));
    assert(long[a.len() + 2int] == '.');
    assert(short[a.len() as int] == '.');
    crate::text::lemma_trim_keeps_text(long, a.len() + 2int);
    crate::text::lemma_trim_keeps_text(short, a.len() as int);
    crate::text::lemma_split_by_at_sep(ab, '.', b, dot);
    crate::text::lemma_split_by_at_sep(a, '.', b, dot);
    let pb = split_by(b, dot);
    assert forall|i: int| 0 <= i < (pab + pb).len() implies strip_brackets(#[trigger] (pab + pb)[i])
        == strip_brackets((pa + pb)[i]) by {
        if i < pab.len() {
            assert((pab + pb)[i] == pab[i]);
            assert((pa + pb)[i] == pa[i]);
        } else {
            assert((pab + pb)[i] == pb[i - pab.len()]);
            assert((pa + pb)[i] == pb[i - pa.len()]);
        }
    }
    match deref_f(root, root, fuel) {
        Some(top) => lemma_walk_steps_same_segments(root, pab + pb, pa + pb, (pa + pb).len(), top, fuel),
        None => {},
    }
}

// ---------------------------------------------------------------- text helpers

/// `s` with each newline replaced by a space.
pub open spec fn newlines_to_spaces(s: Seq<char>) -> Seq<char> {
    s.map_values(|c: char| if c == '\n' { ' ' } else { c })
}

/// Index of the first ". " in `s`.
pub open spec fn find_period_space(s: Seq<char>) -> Option<int>
    decreases s.len(),
{
    if s.len() < 2 {
        None
    } else if s[0] == '.' && s[1] == ' ' {
        Some(0)
    } else {
        match find_period_space(s.drop_first()) {
            Some(i) => Some(i + 1),
            None => None,
        }
    }
}

/// The prefix of `s` that is exactly `b` bytes long, if one ends on a character boundary.
pub open spec fn byte_prefix(s: Seq<char>, b: nat) -> Option<Seq<char>> {
    if exists|k: int| 0 <= k <= s.len() && byte_len(#[trigger] s.take(k)) == b {
        Some(s.take(choose|k: int| 0 <= k <= s.len() && byte_len(#[trigger] s.take(k)) == b))
    } else {
        None
    }
}

/// The first sentence of a description, cut to 160 bytes (157 and `...`); `None` when
/// the cut would split a character.
pub open spec fn first_sentence_of(desc: Seq<char>) -> Option<Seq<char>> {
    let d = newlines_to_spaces(trim(desc));
    let end = match find_period_space(d) {
        Some(i) => i + 1,
        None => d.len() as int,
    };
    let s = d.take(end);
    if byte_len(s) > 160 {
        match byte_prefix(s, 157) {
            Some(p) => Some(p + "..."@),
            None => None,
        }
    } else {
        Some(s)
    }
}

/// `n` spaces.
pub open spec fn spaces(n: nat) -> Seq<char> {
    Seq::new(n, |i: int| ' ')
}

/// One word of greedy line filling: the finished output and the open line.
pub open spec fn wrap_step(st: (Seq<char>, Seq<char>), word: Seq<char>, indent: Seq<char>, width: nat) -> (
    Seq<char>,
    Seq<char>,
) {
    let (out, line) = if st.1.len() > 0 && byte_len(st.1) + byte_len(word) + 1 > width {
        (st.0 + indent + st.1 + seq!['\n'], Seq::empty())
    } else {
        st
    };
    let line = if line.len() > 0 {
        line.push(' ')
    } else {
        line
    };
    (out, line + word)
}

pub open spec fn wrap_words(ws: Seq<Seq<char>>, indent: Seq<char>, width: nat) -> (Seq<char>, Seq<char>)
    decreases ws.len(),
{
    if ws.len() == 0 {
        (Seq::empty(), Seq::empty())
    } else {
        wrap_step(wrap_words(ws.drop_last(), indent, width), ws.last(), indent, width)
    }
}

/// One paragraph filled into lines of at most `width` bytes (longer single words stay
/// whole), each line prefixed by `indent`.
pub open spec fn wrap_para(p: Seq<char>, indent: Seq<char>, width: nat) -> Seq<char> {
    let st = wrap_words(words(p), indent, width);
    if st.1.len() > 0 {
        st.0 + indent + st.1 + seq!['\n']
    } else {
        st.0
    }
}

pub open spec fn wrap_paras(ps: Seq<Seq<char>>, indent: Seq<char>, width: nat) -> Seq<char>
    decreases ps.len(),
{
    if ps.len() == 0 {
        Seq::empty()
    } else {
        wrap_paras(ps.drop_last(), indent, width) + wrap_para(ps.last(), indent, width)
    }
}

/// `text` wrapped paragraph by paragraph (paragraphs are separated by newlines).
pub open spec fn wrap_of(text: Seq<char>, indent: Seq<char>, width: nat) -> Seq<char> {
    wrap_paras(split_by(text, sep_fn(Sep::Char('\n'))), indent, width)
}

// ---------------------------------------------------------------- FIELDS listing

/// The strings of a node's `required` list.
pub open spec fn required_names(node: JsonV) -> Seq<Seq<char>> {
    match as_array(get(node, "required"@)) {
        Some(a) => a.filter_map(|v: JsonV| match v {
            JsonV::Str(s) => Some(s),
            _ => None,
        }),
        None => Seq::empty(),
    }
}

pub open spec fn truncation_note(pad: Seq<char>) -> Seq<char> {
    pad + "... output truncated; narrow with `path`\n"@
}

/// The listing of one property appended to `out`; the flag says the listing stopped.
pub open spec fn field_entry(
    root: JsonV,
    name: Seq<char>,
    sub: JsonV,
    required: Seq<Seq<char>>,
    depth: nat,
    indent: nat,
    out: Seq<char>,
    fuel: nat,
) -> Option<(Seq<char>, bool)>
    decreases depth, 0nat, 0nat,
{
    let pad = spaces(indent);
    match (deref_f(root, sub, fuel), type_label_f(root, sub, fuel)) {
        (Some(d), Some(tl)) => {
            let req = if required.contains(name) {
                " -required-"@
            } else {
                Seq::empty()
            };
            let out1 = out + pad + name + seq!['\t', '<'] + tl + seq!['>'] + req + seq!['\n'];
            let out2 = match as_str(get(d, "description"@)) {
                Some(desc) => match first_sentence_of(desc) {
                    Some(fs) => Some(out1 + pad + seq![' ', ' '] + fs + seq!['\n']),
                    None => None,
                },
                None => Some(out1),
            };
            match out2 {
                None => None,
                Some(out2) => {
                    let out3 = if depth > 1 && byte_len(out2) < MAX_EXPLAIN_BYTES {
                        match unwrap_arrays(root, d, 3, fuel) {
                            None => None,
                            Some(inner) => if get(inner, "properties"@) is Some {
                                fields_listing(root, inner, (depth - 1) as nat, indent + 4, out2, fuel)
                            } else {
                                Some(out2)
                            },
                        }
                    } else {
                        Some(out2)
                    };
                    match out3 {
                        None => None,
                        Some(out3) => {
                            let out4 = out3.push('\n');
                            if byte_len(out4) > MAX_EXPLAIN_BYTES {
                                Some((out4 + truncation_note(pad), true))
                            } else {
                                Some((out4, false))
                            }
                        },
                    }
                },
            }
        },
        _ => None,
    }
}

/// The listing of the first `n` properties appended to `out`, stopping once the output
/// passes `MAX_EXPLAIN_BYTES`.
pub open spec fn entries_listing(
    root: JsonV,
    props: Members,
    n: nat,
    required: Seq<Seq<char>>,
    depth: nat,
    indent: nat,
    out: Seq<char>,
    fuel: nat,
) -> Option<(Seq<char>, bool)>
    decreases depth, 1nat, n,
{
    if n == 0 || n > props.len() {
        Some((out, false))
    } else {
        match entries_listing(root, props, (n - 1) as nat, required, depth, indent, out, fuel) {
            None => None,
            Some((o, true)) => Some((o, true)),
            Some((o, false)) => field_entry(
                root,
                props[n - 1].0,
                props[n - 1].1,
                required,
                depth,
                indent,
                o,
                fuel,
            ),
        }
    }
}

/// The FIELDS listing of `node`, `depth` levels deep, appended to `out`.
pub open spec fn fields_listing(
    root: JsonV,
    node: JsonV,
    depth: nat,
    indent: nat,
    out: Seq<char>,
    fuel: nat,
) -> Option<Seq<char>>
    decreases depth, 2nat, 0nat,
{
    match as_object(get(node, "properties"@)) {
        None => match get(node, "additionalProperties"@) {
            Some(JsonV::Object(ap)) => match type_label_f(root, JsonV::Object(ap), fuel) {
                Some(tl) => Some(out + spaces(indent) + "<key> <"@ + tl + seq!['>', '\n']),
                None => None,
            },
            _ => Some(out),
        },
        Some(props) => match entries_listing(
            root,
            props,
            props.len(),
            required_names(node),
            depth,
            indent,
            out,
            fuel,
        ) {
            Some((o, _)) => Some(o),
            None => None,
        },
    }
}

// ---------------------------------------------------------------- explain text

pub open spec fn clamp_depth(d: u8) -> nat {
    if d < 1 {
        1
    } else if d > 3 {
        3
    } else {
        d as nat
    }
}

/// The header lines of an explanation.
pub open spec fn header_of(k: KindRef) -> Seq<char> {
    let head = "KIND:       "@ + k.kind@ + "\nVERSION:    "@ + group_version_of(k.api_group@, k.api_version@)
        + "\nPROJECT:    "@ + k.project@ + seq![' '] + k.version@ + " ("@ + (if k.pinned {
        "pinned"@
    } else {
        "unpinned latest"@
    }) + ", source: "@ + k.source@ + ")\n"@;
    match k.scope {
        Some(s) => head + "SCOPE:      "@ + s@ + seq!['\n'],
        None => head,
    }
}

/// The list of an `enum`'s values, as their JSON texts.
pub open spec fn enum_texts(e: Seq<JsonV>) -> Seq<Seq<char>> {
    e.map_values(|v: JsonV| json_text(v))
}

/// The description shown for a node: its own, else the kind's, else a placeholder.
pub open spec fn description_of(k: KindRef, node: JsonV) -> Seq<char> {
    match as_str(get(node, "description"@)) {
        Some(d) => d,
        None => match opt_view(k.description) {
            Some(d) => d,
            None => "<no description>"@,
        },
    }
}

/// Header, FIELD line (for a non-empty path) and wrapped description.
pub open spec fn head_f(k: KindRef, root: JsonV, node: JsonV, path: Seq<char>, fuel: nat) -> Option<Seq<char>> {
    let p = trim(path);
    let field = if p.len() == 0 {
        Some(Seq::empty())
    } else {
        match type_label_f(root, node, fuel) {
            Some(tl) => Some("\nFIELD:      "@ + p + seq!['\t', '<'] + tl + seq!['>', '\n']),
            None => None,
        }
    };
    match field {
        None => None,
        Some(field) => Some(
            header_of(k) + field + "\nDESCRIPTION:\n"@ + wrap_of(description_of(k, node), "    "@, 88),
        ),
    }
}

/// The FIELDS listing (when the node has fields) and enum values, appended to `out`.
pub open spec fn tail_f(root: JsonV, node: JsonV, depth: u8, out: Seq<char>, fuel: nat) -> Option<Seq<char>> {
    let fields = if get(node, "properties"@) is Some || get(node, "additionalProperties"@) is Some {
        fields_listing(root, node, clamp_depth(depth), 2, out + "\nFIELDS:\n"@, fuel)
    } else {
        Some(out)
    };
    match fields {
        None => None,
        Some(out) => Some(
            match as_array(get(node, "enum"@)) {
                Some(e) => out + "\nENUM: "@ + join(enum_texts(e), ", "@) + seq!['\n'],
                None => out,
            },
        ),
    }
}

/// `render` with fuel.
pub open spec fn render_f(k: KindRef, root: JsonV, path: Seq<char>, depth: u8, fuel: nat) -> Option<
    Result<Seq<char>, Seq<char>>,
> {
    match walk_f(root, path, fuel) {
        None => None,
        Some(Err(m)) => Some(Err(m)),
        Some(Ok(node)) => match head_f(k, root, node, path, fuel) {
            None => None,
            Some(out) => match tail_f(root, node, depth, out, fuel) {
                None => None,
                Some(o) => Some(Ok(o)),
            },
        },
    }
}

/// The depth of a rendering is clamped to 1..3: depth 0 renders as 1, and any depth above
/// 3 as 3; and a rendering fails exactly when the walk to its path fails, with the walk's
/// error (for every amount of fuel).
pub proof fn lemma_render_depth_and_errors(k: KindRef, root: JsonV, path: Seq<char>, depth: u8, fuel: nat)
    ensures
        render_f(k, root, path, 0, fuel) == render_f(k, root, path, 1, fuel),
        depth >= 3 ==> render_f(k, root, path, depth, fuel) == render_f(k, root, path, 3, fuel),
        render_f(k, root, path, depth, fuel) matches Some(Err(m)) ==> walk_f(root, path, fuel) == Some(
            Err::<JsonV, Seq<char>>(m),
        ),
        walk_f(root, path, fuel) matches Some(Err(m)) ==> render_f(k, root, path, depth, fuel) == Some(
            Err::<Seq<char>, Seq<char>>(m),
        ),
{
    assert(clamp_depth(0) == clamp_depth(1));
    if depth >= 3 {
        assert(clamp_depth(depth) == clamp_depth(3));
    }
}

// ---------------------------------------------------------------- referenced definitions

/// Names of definitions referenced from `node`, transitively, added to `acc` in
/// discovery order.
pub open spec fn refs_f(root: JsonV, node: JsonV, acc: Seq<Seq<char>>, fuel: nat) -> Option<Seq<Seq<char>>>
    decreases fuel, node, 0nat,
{
    match node {
        JsonV::Object(o) => {
            let acc1 = match as_str(members_get(o, "$ref"@)) {
                Some(r) => {
                    let name = ref_name(r);
                    if acc.contains(name) {
                        Some(acc)
                    } else {
                        match definition(root, name) {
                            Some(def) => if fuel == 0 {
                                None
                            } else {
                                refs_f(root, def, acc.push(name), (fuel - 1) as nat)
                            },
                            None => Some(acc.push(name)),
                        }
                    }
                },
                None => Some(acc),
            };
            match acc1 {
                None => None,
                Some(a) => refs_members(root, o, o.len(), a, fuel),
            }
        },
        JsonV::Array(items) => refs_items(root, items, items.len(), acc, fuel),
        _ => Some(acc),
    }
}

pub open spec fn refs_members(root: JsonV, o: Members, n: nat, acc: Seq<Seq<char>>, fuel: nat) -> Option<
    Seq<Seq<char>>,
>
    decreases fuel, o, n,
{
    if n == 0 || n > o.len() {
        Some(acc)
    } else {
        match refs_members(root, o, (n - 1) as nat, acc, fuel) {
            None => None,
            Some(a) => refs_f(root, o[n - 1].1, a, fuel),
        }
    }
}

pub open spec fn refs_items(root: JsonV, items: Seq<JsonV>, n: nat, acc: Seq<Seq<char>>, fuel: nat) -> Option<
    Seq<Seq<char>>,
>
    decreases fuel, items, n,
{
    if n == 0 || n > items.len() {
        Some(acc)
    } else {
        match refs_items(root, items, (n - 1) as nat, acc, fuel) {
            None => None,
            Some(a) => refs_f(root, items[n - 1], a, fuel),
        }
    }
}

/// The definitions named in `names` (present ones only), as an object.
pub open spec fn picked_definitions(defs: Members, names: Seq<Seq<char>>) -> Members
    decreases names.len(),
{
    if names.len() == 0 {
        Seq::empty()
    } else {
        let m = picked_definitions(defs, names.drop_last());
        match members_get(defs, names.last()) {
            Some(v) => members_insert(m, names.last(), v),
            None => m,
        }
    }
}

pub open spec fn schema_uri() -> Seq<char> {
    "http://json-schema.org/draft-04/schema#"@
}

pub open spec fn too_large_hint() -> Seq<char> {
    "schema too large; pass a deeper `path` (e.g. spec.containers) or use `explain`"@
}

/// The self-contained schema of a walked node: the node's members under a draft-04
/// `$schema`, plus the definitions it references.
pub open spec fn standalone_schema(root: JsonV, node: JsonV, names: Seq<Seq<char>>) -> JsonV {
    let out0 = seq![("$schema"@, JsonV::Str(schema_uri()))];
    let out1 = match node {
        JsonV::Object(o) => members_extend(out0, o),
        _ => out0,
    };
    let out2 = match definitions(root) {
        Some(defs) => if names.len() > 0 {
            members_insert(out1, "definitions"@, JsonV::Object(picked_definitions(defs, names)))
        } else {
            out1
        },
        None => out1,
    };
    JsonV::Object(out2)
}

/// `subtree` with fuel.
pub open spec fn subtree_f(root: JsonV, path: Seq<char>, fuel: nat) -> Option<Result<JsonV, Seq<char>>> {
    match walk_f(root, path, fuel) {
        None => None,
        Some(Err(m)) => Some(Err(m)),
        Some(Ok(node)) => match refs_f(root, node, Seq::empty(), fuel) {
            None => None,
            Some(names) => {
                let v = standalone_schema(root, node, names);
                let size = byte_len(json_text(v));
                if size > MAX_SCHEMA_BYTES {
                    Some(
                        Ok(
                            JsonV::Object(
                                seq![
                                    ("hint"@, JsonV::Str(too_large_hint())),
                                    ("properties"@, JsonV::Array(property_names(node).map_values(|s: Seq<char>| JsonV::Str(s)))),
                                    ("size_bytes"@, JsonV::Number(crate::json::decimal(size))),
                                    ("truncated"@, JsonV::Bool(true)),
                                ],
                            ),
                        ),
                    )
                } else {
                    Some(Ok(v))
                }
            },
        },
    }
}


// ---------------------------------------------------------------- laws of explain

/// The type of a schema alternative: its `type` string, or the first non-`null` entry of
/// a `type` list.
pub open spec fn alternative_type_is(alt: JsonV, t: Seq<char>) -> bool {
    match get(alt, "type"@) {
        Some(JsonV::Str(s)) => s == t,
        Some(JsonV::Array(a)) => first_non_null(a) == Some(t),
        _ => false,
    }
}

/// A field whose (dereferenced) schema lists, under `oneOf` (or else `anyOf`), an
/// alternative of type `integer` and one of type `string` is labelled `int-or-string`,
/// whether or not it also carries `x-kubernetes-int-or-string`.
pub proof fn lemma_int_or_string_label(root: JsonV, node: JsonV, fuel: nat, one: Seq<JsonV>, i: int, j: int)
    requires
        deref_f(root, node, fuel) matches Some(n) && as_array(some_or(get(n, "oneOf"@), get(n, "anyOf"@))) == Some(one),
        0 <= i < one.len(),
        0 <= j < one.len(),
        alternative_type_is(one[i], "integer"@),
        alternative_type_is(one[j], "string"@),
    ensures
        type_label_f(root, node, fuel) == Some("int-or-string"@),
{
    assert(base_type(one[i]) == Some("integer"@));
    assert(base_type(one[j]) == Some("string"@));
}

/// The same for `type_label` itself: on a node where it finishes, such a field is
/// labelled `int-or-string`.
pub proof fn lemma_type_label_fn_int_or_string(root: JsonV, node: JsonV, one: Seq<JsonV>, i: int, j: int)
    requires
        exists|f: nat| type_label_f(root, node, f) is Some,
        as_array(some_or(get(deref_of(root, node), "oneOf"@), get(deref_of(root, node), "anyOf"@))) == Some(one),
        0 <= i < one.len(),
        0 <= j < one.len(),
        alternative_type_is(one[i], "integer"@),
        alternative_type_is(one[j], "string"@),
    ensures
        type_label_of(root, node) == "int-or-string"@,
{
    let f = choose|f: nat| type_label_f(root, node, f) is Some;
    lemma_type_label_agrees(root, node, f);
    assert(deref_f(root, node, f) is Some);
    lemma_deref_agrees(root, node, f);
    lemma_int_or_string_label(root, node, f, one, i, j);
}

proof fn lemma_filter_map_has<A, B>(s: Seq<A>, f: spec_fn(A) -> Option<B>, elt: B)
    ensures
        s.filter_map(f).contains(elt) <==> exists|i: int| 0 <= i < s.len() && #[trigger] f(s[i]) == Some(elt),
    decreases s.len(),
{
    if s.len() > 0 {
        let rest = s.drop_last();
        lemma_filter_map_has(rest, f, elt);
        let fr = rest.filter_map(f);
        match f(s.last()) {
            Some(b) => {
                let r = fr + seq![b];
                if r.contains(elt) {
                    let k = choose|k: int| 0 <= k < r.len() && r[k] == elt;
                    if k < fr.len() {
                        assert(fr[k] == elt);
                        let i = choose|i: int| 0 <= i < rest.len() && #[trigger] f(rest[i]) == Some(elt);
                        assert(s[i] == rest[i]);
                    } else {
                        assert(f(s[s.len() - 1]) == Some(elt));
                    }
                }
                if exists|i: int| 0 <= i < s.len() && #[trigger] f(s[i]) == Some(elt) {
                    let i = choose|i: int| 0 <= i < s.len() && #[trigger] f(s[i]) == Some(elt);
                    if i < s.len() - 1 {
                        assert(f(rest[i]) == Some(elt));
                        let k = choose|k: int| 0 <= k < fr.len() && fr[k] == elt;
                        assert(r[k] == elt);
                    } else {
                        assert(r[fr.len() as int] == elt);
                    }
                }
            },
            None => {
                if exists|i: int| 0 <= i < s.len() && #[trigger] f(s[i]) == Some(elt) {
                    let i = choose|i: int| 0 <= i < s.len() && #[trigger] f(s[i]) == Some(elt);
                    assert(i < s.len() - 1);
                    assert(f(rest[i]) == Some(elt));
                }
                if fr.contains(elt) {
                    let i = choose|i: int| 0 <= i < rest.len() && #[trigger] f(rest[i]) == Some(elt);
                    assert(s[i] == rest[i]);
                }
            },
        }
    }
}

/// The names marked `-required-` are exactly the strings of the node's `required` list,
/// wherever they stand in it (no `required` list: none).
pub proof fn lemma_required_names_listed(node: JsonV, name: Seq<char>)
    ensures
        match get(node, "required"@) {
            Some(JsonV::Array(a)) => required_names(node).contains(name) <==> a.contains(JsonV::Str(name)),
            _ => required_names(node).len() == 0,
        },
{
    match get(node, "required"@) {
        Some(JsonV::Array(a)) => {
            let f = |v: JsonV| match v {
                JsonV::Str(s) => Some(s),
                _ => None,
            };
            assert(required_names(node) == a.filter_map(f));
            lemma_filter_map_has(a, f, name);
            if a.contains(JsonV::Str(name)) {
                let i = choose|i: int| 0 <= i < a.len() && a[i] == JsonV::Str(name);
                assert(f(a[i]) == Some(name));
            }
            if required_names(node).contains(name) {
                let i = choose|i: int| 0 <= i < a.len() && #[trigger] f(a[i]) == Some(name);
                assert(a[i] == JsonV::Str(name));
            }
        },
        _ => {},
    }
}

proof fn lemma_members_remove_get_other(m: Members, key: Seq<char>, other: Seq<char>)
    requires
        other != key,
    ensures
        members_get(crate::json::members_remove(m, key), other) == members_get(m, other),
    decreases m.len(),
{
    if m.len() > 0 && m[0].0 != key {
        lemma_members_remove_get_other(m.drop_first(), key, other);
        let r = crate::json::members_remove(m, key);
        assert(r[0] == m[0]);
        assert(r.drop_first() =~= crate::json::members_remove(m.drop_first(), key));
    }
}

proof fn lemma_merge_member_keeps(st: MergeState, k2: Seq<char>, v2: JsonV, k: Seq<char>, v: JsonV)
    requires
        members_get(st.0, k) == Some(v),
    ensures
        members_get(merge_member(st, k2, v2).0, k) == Some(v),
{
    if k2 != "properties"@ && k2 != "required"@ {
        if members_get(st.0, k2) is None {
            assert(k2 != k);
            crate::json::lemma_members_insert_get_other(st.0, k2, v2, k);
        }
    }
}

proof fn lemma_merge_members_keeps(st: MergeState, o: Members, n: nat, k: Seq<char>, v: JsonV)
    requires
        members_get(st.0, k) == Some(v),
    ensures
        members_get(merge_members(st, o, n).0, k) == Some(v),
    decreases n,
{
    if n > 0 && n <= o.len() {
        lemma_merge_members_keeps(st, o, (n - 1) as nat, k, v);
        lemma_merge_member_keeps(merge_members(st, o, (n - 1) as nat), o[n - 1].0, o[n - 1].1, k, v);
    }
}

proof fn lemma_merge_parts_keeps(root: JsonV, parts: Seq<JsonV>, n: nat, st: MergeState, fuel: nat, k: Seq<char>, v: JsonV)
    requires
        members_get(st.0, k) == Some(v),
        merge_parts(root, parts, n, st, fuel) is Some,
    ensures
        members_get(merge_parts(root, parts, n, st, fuel).unwrap().0, k) == Some(v),
    decreases n,
{
    if n > 0 && n <= parts.len() {
        lemma_merge_parts_keeps(root, parts, (n - 1) as nat, st, fuel, k, v);
        let s1 = merge_parts(root, parts, (n - 1) as nat, st, fuel).unwrap();
        let p = deref_f(root, parts[n - 1], fuel).unwrap();
        match p {
            JsonV::Object(o) => lemma_merge_members_keeps(s1, o, o.len(), k, v),
            _ => {},
        }
    }
}

/// Merging `allOf` parts never changes what the node itself says: every member of the
/// node (after following its `$ref`s) other than `properties`, `required` and `allOf`
/// keeps its value in the result; the parts only add members the node lacks.
pub proof fn lemma_deref_keeps_own_members(root: JsonV, node: JsonV, fuel: nat, k: Seq<char>, v: JsonV)
    requires
        deref_f(root, node, fuel) is Some,
        get(follow_refs(root, node, 0), k) == Some(v),
        k != "properties"@,
        k != "required"@,
        k != "allOf"@,
    ensures
        get(deref_f(root, node, fuel).unwrap(), k) == Some(v),
{
    let cur = follow_refs(root, node, 0);
    match as_array(get(cur, "allOf"@)) {
        None => {},
        Some(all) => {
            let m = cur->Object_0;
            let m0 = crate::json::members_remove(m, "allOf"@);
            lemma_members_remove_get_other(m, "allOf"@, k);
            let p0 = match as_object(members_get(m0, "properties"@)) {
                Some(p) => p,
                None => Seq::empty(),
            };
            let r0 = match as_array(members_get(m0, "required"@)) {
                Some(r) => r,
                None => Seq::empty(),
            };
            lemma_merge_parts_keeps(root, all, all.len(), (m0, p0, r0), (fuel - 1) as nat, k, v);
            let st = merge_parts(root, all, all.len(), (m0, p0, r0), (fuel - 1) as nat).unwrap();
            crate::json::lemma_members_insert_get_other(st.0, "properties"@, JsonV::Object(st.1), k);
            let m1 = if st.1.len() > 0 {
                members_insert(st.0, "properties"@, JsonV::Object(st.1))
            } else {
                st.0
            };
            crate::json::lemma_members_insert_get_other(m1, "required"@, JsonV::Array(st.2), k);
        },
    }
}

/// The same for `deref` itself, wherever it finishes.
pub proof fn lemma_deref_fn_keeps_own_members(root: JsonV, node: JsonV, k: Seq<char>, v: JsonV)
    requires
        deref_ends(root, node),
        get(follow_refs(root, node, 0), k) == Some(v),
        k != "properties"@,
        k != "required"@,
        k != "allOf"@,
    ensures
        get(deref_of(root, node), k) == Some(v),
{
    let f = choose|f: nat| deref_f(root, node, f) is Some;
    lemma_deref_agrees(root, node, f);
    lemma_deref_keeps_own_members(root, node, f, k, v);
}

/// `v` contains, at any depth, an object whose `$ref` names the definition `name`.
pub open spec fn mentions(v: JsonV, name: Seq<char>) -> bool
    decreases v, 0nat,
{
    match v {
        JsonV::Object(o) => (match as_str(members_get(o, "$ref"@)) {
            Some(r) => ref_name(r) == name,
            None => false,
        }) || mentions_members(o, o.len(), name),
        JsonV::Array(a) => mentions_items(a, a.len(), name),
        _ => false,
    }
}

pub open spec fn mentions_members(o: Members, n: nat, name: Seq<char>) -> bool
    decreases o, n,
{
    if n == 0 || n > o.len() {
        false
    } else {
        mentions_members(o, (n - 1) as nat, name) || mentions(o[n - 1].1, name)
    }
}

pub open spec fn mentions_items(a: Seq<JsonV>, n: nat, name: Seq<char>) -> bool
    decreases a, n,
{
    if n == 0 || n > a.len() {
        false
    } else {
        mentions_items(a, (n - 1) as nat, name) || mentions(a[n - 1], name)
    }
}

/// What the reference collection gives back is closed under references: it keeps the
/// names it started from, holds every name the node mentions, and for every name it
/// added whose definition exists, every name that definition mentions.
proof fn lemma_refs_closed(root: JsonV, node: JsonV, acc: Seq<Seq<char>>, fuel: nat)
    requires
        refs_f(root, node, acc, fuel) is Some,
    ensures
        ({
            let r = refs_f(root, node, acc, fuel).unwrap();
            &&& forall|x: Seq<char>| acc.contains(x) ==> r.contains(x)
            &&& forall|x: Seq<char>| mentions(node, x) ==> r.contains(x)
            &&& forall|x: Seq<char>, m: Seq<char>|
                r.contains(x) && !acc.contains(x) && definition(root, x) is Some && mentions(
                    definition(root, x).unwrap(),
                    m,
                ) ==> r.contains(m)
        }),
    decreases fuel, node, 0nat,
{
    let r = refs_f(root, node, acc, fuel).unwrap();
    match node {
        JsonV::Object(o) => {
            let acc1 = match as_str(members_get(o, "$ref"@)) {
                Some(rf) => {
                    let name = ref_name(rf);
                    if acc.contains(name) {
                        acc
                    } else {
                        match definition(root, name) {
                            Some(def) => {
                                lemma_refs_closed(root, def, acc.push(name), (fuel - 1) as nat);
                                refs_f(root, def, acc.push(name), (fuel - 1) as nat).unwrap()
                            },
                            None => acc.push(name),
                        }
                    }
                },
                None => acc,
            };
            assert forall|x: Seq<char>| acc.contains(x) implies acc1.contains(x) by {
                if acc1 != acc {
                    let name = ref_name(as_str(members_get(o, "$ref"@)).unwrap());
                    let i = choose|i: int| 0 <= i < acc.len() && acc[i] == x;
                    assert(acc.push(name)[i] == x);
                }
            }
            match as_str(members_get(o, "$ref"@)) {
                Some(rf) => {
                    let name = ref_name(rf);
                    assert(acc.push(name)[acc.len() as int] == name);
                    assert(acc1.contains(name));
                },
                None => {},
            }
            lemma_refs_members_closed(root, o, o.len(), acc1, fuel);
            assert(r == refs_members(root, o, o.len(), acc1, fuel).unwrap());
            assert forall|x: Seq<char>, m: Seq<char>|
                r.contains(x) && !acc.contains(x) && definition(root, x) is Some && mentions(
                    definition(root, x).unwrap(),
                    m,
                ) implies r.contains(m) by {
                if acc1.contains(x) {
                    let name = ref_name(as_str(members_get(o, "$ref"@)).unwrap());
                    if x == name {
                    } else {
                        assert(!acc.push(name).contains(x)) by {
                            if acc.push(name).contains(x) {
                                let i = choose|i: int| 0 <= i < acc.push(name).len() && acc.push(name)[i] == x;
                                if i < acc.len() {
                                    assert(acc[i] == x);
                                }
                            }
                        }
                    }
                }
            }
        },
        JsonV::Array(items) => {
            lemma_refs_items_closed(root, items, items.len(), acc, fuel);
        },
        _ => {},
    }
}

proof fn lemma_refs_members_closed(root: JsonV, o: Members, n: nat, acc: Seq<Seq<char>>, fuel: nat)
    requires
        refs_members(root, o, n, acc, fuel) is Some,
    ensures
        ({
            let r = refs_members(root, o, n, acc, fuel).unwrap();
            &&& forall|x: Seq<char>| acc.contains(x) ==> r.contains(x)
            &&& forall|x: Seq<char>| mentions_members(o, n, x) ==> r.contains(x)
            &&& forall|x: Seq<char>, m: Seq<char>|
                r.contains(x) && !acc.contains(x) && definition(root, x) is Some && mentions(
                    definition(root, x).unwrap(),
                    m,
                ) ==> r.contains(m)
        }),
    decreases fuel, o, n,
{
    if n > 0 && n <= o.len() {
        lemma_refs_members_closed(root, o, (n - 1) as nat, acc, fuel);
        let a = refs_members(root, o, (n - 1) as nat, acc, fuel).unwrap();
        lemma_refs_closed(root, o[n - 1].1, a, fuel);
    }
}

proof fn lemma_refs_items_closed(root: JsonV, items: Seq<JsonV>, n: nat, acc: Seq<Seq<char>>, fuel: nat)
    requires
        refs_items(root, items, n, acc, fuel) is Some,
    ensures
        ({
            let r = refs_items(root, items, n, acc, fuel).unwrap();
            &&& forall|x: Seq<char>| acc.contains(x) ==> r.contains(x)
            &&& forall|x: Seq<char>| mentions_items(items, n, x) ==> r.contains(x)
            &&& forall|x: Seq<char>, m: Seq<char>|
                r.contains(x) && !acc.contains(x) && definition(root, x) is Some && mentions(
                    definition(root, x).unwrap(),
                    m,
                ) ==> r.contains(m)
        }),
    decreases fuel, items, n,
{
    if n > 0 && n <= items.len() {
        lemma_refs_items_closed(root, items, (n - 1) as nat, acc, fuel);
        let a = refs_items(root, items, (n - 1) as nat, acc, fuel).unwrap();
        lemma_refs_closed(root, items[n - 1], a, fuel);
    }
}

/// The definitions a subtree carries are closed under references: every definition name
/// the walked node mentions is collected, and so is every name mentioned by the
/// definition of a collected name; so no `$ref` of the returned schema to a definition of
/// the root dangles.
pub proof fn lemma_subtree_refs_closed(root: JsonV, node: JsonV, fuel: nat)
    requires
        refs_f(root, node, Seq::empty(), fuel) is Some,
    ensures
        ({
            let names = refs_f(root, node, Seq::empty(), fuel).unwrap();
            &&& forall|x: Seq<char>| mentions(node, x) ==> names.contains(x)
            &&& forall|x: Seq<char>, m: Seq<char>|
                names.contains(x) && definition(root, x) is Some && mentions(definition(root, x).unwrap(), m)
                    ==> names.contains(m)
        }),
{
    lemma_refs_closed(root, node, Seq::empty(), fuel);
}

// ---------------------------------------------------------------- more fuel, same result

/// Once `deref` finishes with some fuel, more fuel gives the same result.
pub proof fn lemma_deref_more(root: JsonV, node: JsonV, f: nat, g: nat)
    requires
        f <= g,
        deref_f(root, node, f) is Some,
    ensures
        deref_f(root, node, g) == deref_f(root, node, f),
    decreases f, 0nat,
{
    let cur = follow_refs(root, node, 0);
    match as_array(get(cur, "allOf"@)) {
        None => {},
        Some(all) => {
            let m0 = match cur {
                JsonV::Object(m) => crate::json::members_remove(m, "allOf"@),
                _ => Seq::empty(),
            };
            let p0 = match as_object(members_get(m0, "properties"@)) {
                Some(p) => p,
                None => Seq::empty(),
            };
            let r0 = match as_array(members_get(m0, "required"@)) {
                Some(r) => r,
                None => Seq::empty(),
            };
            lemma_merge_more(root, all, all.len(), (m0, p0, r0), (f - 1) as nat, (g - 1) as nat);
        },
    }
}

proof fn lemma_merge_more(root: JsonV, parts: Seq<JsonV>, n: nat, st: MergeState, f: nat, g: nat)
    requires
        f <= g,
        merge_parts(root, parts, n, st, f) is Some,
    ensures
        merge_parts(root, parts, n, st, g) == merge_parts(root, parts, n, st, f),
    decreases f, n,
{
    if n > 0 && n <= parts.len() {
        lemma_merge_more(root, parts, (n - 1) as nat, st, f, g);
        lemma_deref_more(root, parts[n - 1], f, g);
    }
}

/// Once `type_label` finishes with some fuel, more fuel gives the same result.
pub proof fn lemma_type_label_more(root: JsonV, node: JsonV, f: nat, g: nat)
    requires
        f <= g,
        type_label_f(root, node, f) is Some,
    ensures
        type_label_f(root, node, g) == type_label_f(root, node, f),
    decreases f,
{
    lemma_deref_more(root, node, f, g);
    let n = deref_f(root, node, f).unwrap();
    match get(n, "items"@) {
        Some(i) => if type_label_f(root, i, (f - 1) as nat) is Some {
            lemma_type_label_more(root, i, (f - 1) as nat, (g - 1) as nat);
        },
        None => {},
    }
    match get(n, "additionalProperties"@) {
        Some(JsonV::Object(ap)) => if type_label_f(root, JsonV::Object(ap), (f - 1) as nat) is Some {
            lemma_type_label_more(root, JsonV::Object(ap), (f - 1) as nat, (g - 1) as nat);
        },
        _ => {},
    }
}

proof fn lemma_unwrap_more(root: JsonV, n: JsonV, k: nat, f: nat, g: nat)
    requires
        f <= g,
        unwrap_arrays(root, n, k, f) is Some,
    ensures
        unwrap_arrays(root, n, k, g) == unwrap_arrays(root, n, k, f),
    decreases k,
{
    if k > 0 && base_type(n) == Some("array"@) {
        let items = match get(n, "items"@) {
            Some(i) => i,
            None => JsonV::Null,
        };
        lemma_deref_more(root, items, f, g);
        lemma_unwrap_more(root, deref_f(root, items, f).unwrap(), (k - 1) as nat, f, g);
    }
}

proof fn lemma_walk_steps_more(root: JsonV, pieces: Seq<Seq<char>>, n: nat, start: JsonV, f: nat, g: nat)
    requires
        f <= g,
        walk_steps(root, pieces, n, start, f) is Some,
    ensures
        walk_steps(root, pieces, n, start, g) == walk_steps(root, pieces, n, start, f),
    decreases n,
{
    if n > 0 && n <= pieces.len() {
        lemma_walk_steps_more(root, pieces, (n - 1) as nat, start, f, g);
        match walk_steps(root, pieces, (n - 1) as nat, start, f) {
            Some(Ok((cur, seen))) => {
                let seg = strip_brackets(pieces[n - 1]);
                if seg.len() > 0 {
                    lemma_unwrap_more(root, cur, 3, f, g);
                    let node = unwrap_arrays(root, cur, 3, f).unwrap();
                    match child(node, seg) {
                        Some(next) => lemma_deref_more(root, next, f, g),
                        None => {},
                    }
                }
            },
            _ => {},
        }
    }
}

/// Once a walk finishes with some fuel, more fuel gives the same result.
pub proof fn lemma_walk_more(root: JsonV, path: Seq<char>, f: nat, g: nat)
    requires
        f <= g,
        walk_f(root, path, f) is Some,
    ensures
        walk_f(root, path, g) == walk_f(root, path, f),
{
    lemma_deref_more(root, root, f, g);
    let top = deref_f(root, root, f).unwrap();
    if trim(path).len() != 0 {
        let pieces = split_by(path, sep_fn(Sep::Char('.')));
        lemma_walk_steps_more(root, pieces, pieces.len(), top, f, g);
        match walk_steps(root, pieces, pieces.len(), top, f) {
            Some(Ok((cur, _))) => lemma_unwrap_more(root, cur, 3, f, g),
            _ => {},
        }
    }
}

proof fn lemma_field_entry_more(
    root: JsonV,
    name: Seq<char>,
    sub: JsonV,
    required: Seq<Seq<char>>,
    depth: nat,
    indent: nat,
    out: Seq<char>,
    f: nat,
    g: nat,
)
    requires
        f <= g,
        field_entry(root, name, sub, required, depth, indent, out, f) is Some,
    ensures
        field_entry(root, name, sub, required, depth, indent, out, g) == field_entry(
            root,
            name,
            sub,
            required,
            depth,
            indent,
            out,
            f,
        ),
    decreases depth, 0nat, 0nat,
{
    lemma_deref_more(root, sub, f, g);
    lemma_type_label_more(root, sub, f, g);
    let d = deref_f(root, sub, f).unwrap();
    let tl = type_label_f(root, sub, f).unwrap();
    let pad = spaces(indent);
    let req = if required.contains(name) {
        " -required-"@
    } else {
        Seq::empty()
    };
    let out1 = out + pad + name + seq!['\t', '<'] + tl + seq!['>'] + req + seq!['\n'];
    let out2 = match as_str(get(d, "description"@)) {
        Some(desc) => match first_sentence_of(desc) {
            Some(fs) => Some(out1 + pad + seq![' ', ' '] + fs + seq!['\n']),
            None => None,
        },
        None => Some(out1),
    };
    match out2 {
        Some(out2) => if depth > 1 && byte_len(out2) < MAX_EXPLAIN_BYTES {
            lemma_unwrap_more(root, d, 3, f, g);
            let inner = unwrap_arrays(root, d, 3, f).unwrap();
            if get(inner, "properties"@) is Some {
                lemma_fields_listing_more(root, inner, (depth - 1) as nat, indent + 4, out2, f, g);
            }
        },
        None => {},
    }
}

proof fn lemma_entries_more(
    root: JsonV,
    props: Members,
    n: nat,
    required: Seq<Seq<char>>,
    depth: nat,
    indent: nat,
    out: Seq<char>,
    f: nat,
    g: nat,
)
    requires
        f <= g,
        entries_listing(root, props, n, required, depth, indent, out, f) is Some,
    ensures
        entries_listing(root, props, n, required, depth, indent, out, g) == entries_listing(
            root,
            props,
            n,
            required,
            depth,
            indent,
            out,
            f,
        ),
    decreases depth, 1nat, n,
{
    if n > 0 && n <= props.len() {
        lemma_entries_more(root, props, (n - 1) as nat, required, depth, indent, out, f, g);
        match entries_listing(root, props, (n - 1) as nat, required, depth, indent, out, f) {
            Some((o, false)) => lemma_field_entry_more(
                root,
                props[n - 1].0,
                props[n - 1].1,
                required,
                depth,
                indent,
                o,
                f,
                g,
            ),
            _ => {},
        }
    }
}

proof fn lemma_fields_listing_more(
    root: JsonV,
    node: JsonV,
    depth: nat,
    indent: nat,
    out: Seq<char>,
    f: nat,
    g: nat,
)
    requires
        f <= g,
        fields_listing(root, node, depth, indent, out, f) is Some,
    ensures
        fields_listing(root, node, depth, indent, out, g) == fields_listing(root, node, depth, indent, out, f),
    decreases depth, 2nat, 0nat,
{
    match as_object(get(node, "properties"@)) {
        None => match get(node, "additionalProperties"@) {
            Some(JsonV::Object(ap)) => lemma_type_label_more(root, JsonV::Object(ap), f, g),
            _ => {},
        },
        Some(props) => lemma_entries_more(root, props, props.len(), required_names(node), depth, indent, out, f, g),
    }
}

/// Once a rendering finishes with some fuel, more fuel gives the same result.
pub proof fn lemma_render_more(k: KindRef, root: JsonV, path: Seq<char>, depth: u8, f: nat, g: nat)
    requires
        f <= g,
        render_f(k, root, path, depth, f) is Some,
    ensures
        render_f(k, root, path, depth, g) == render_f(k, root, path, depth, f),
{
    lemma_walk_more(root, path, f, g);
    match walk_f(root, path, f) {
        Some(Ok(node)) => {
            if trim(path).len() != 0 {
                lemma_type_label_more(root, node, f, g);
            }
            let out = head_f(k, root, node, path, f).unwrap();
            if get(node, "properties"@) is Some || get(node, "additionalProperties"@) is Some {
                lemma_fields_listing_more(root, node, clamp_depth(depth), 2, out + "\nFIELDS:\n"@, f, g);
            }
        },
        _ => {},
    }
}

proof fn lemma_refs_more(root: JsonV, node: JsonV, acc: Seq<Seq<char>>, f: nat, g: nat)
    requires
        f <= g,
        refs_f(root, node, acc, f) is Some,
    ensures
        refs_f(root, node, acc, g) == refs_f(root, node, acc, f),
    decreases f, node, 0nat,
{
    match node {
        JsonV::Object(o) => {
            let acc1 = match as_str(members_get(o, "$ref"@)) {
                Some(r) => {
                    let name = ref_name(r);
                    if acc.contains(name) {
                        Some(acc)
                    } else {
                        match definition(root, name) {
                            Some(def) => {
                                lemma_refs_more(root, def, acc.push(name), (f - 1) as nat, (g - 1) as nat);
                                refs_f(root, def, acc.push(name), (f - 1) as nat)
                            },
                            None => Some(acc.push(name)),
                        }
                    }
                },
                None => Some(acc),
            };
            match acc1 {
                Some(a) => lemma_refs_members_more(root, o, o.len(), a, f, g),
                None => {},
            }
        },
        JsonV::Array(items) => lemma_refs_items_more(root, items, items.len(), acc, f, g),
        _ => {},
    }
}

proof fn lemma_refs_members_more(root: JsonV, o: Members, n: nat, acc: Seq<Seq<char>>, f: nat, g: nat)
    requires
        f <= g,
        refs_members(root, o, n, acc, f) is Some,
    ensures
        refs_members(root, o, n, acc, g) == refs_members(root, o, n, acc, f),
    decreases f, o, n,
{
    if n > 0 && n <= o.len() {
        lemma_refs_members_more(root, o, (n - 1) as nat, acc, f, g);
        let a = refs_members(root, o, (n - 1) as nat, acc, f).unwrap();
        lemma_refs_more(root, o[n - 1].1, a, f, g);
    }
}

proof fn lemma_refs_items_more(root: JsonV, items: Seq<JsonV>, n: nat, acc: Seq<Seq<char>>, f: nat, g: nat)
    requires
        f <= g,
        refs_items(root, items, n, acc, f) is Some,
    ensures
        refs_items(root, items, n, acc, g) == refs_items(root, items, n, acc, f),
    decreases f, items, n,
{
    if n > 0 && n <= items.len() {
        lemma_refs_items_more(root, items, (n - 1) as nat, acc, f, g);
        let a = refs_items(root, items, (n - 1) as nat, acc, f).unwrap();
        lemma_refs_more(root, items[n - 1], a, f, g);
    }
}

/// Once `subtree` finishes with some fuel, more fuel gives the same result.
pub proof fn lemma_subtree_more(root: JsonV, path: Seq<char>, f: nat, g: nat)
    requires
        f <= g,
        subtree_f(root, path, f) is Some,
    ensures
        subtree_f(root, path, g) == subtree_f(root, path, f),
{
    lemma_walk_more(root, path, f, g);
    match walk_f(root, path, f) {
        Some(Ok(node)) => lemma_refs_more(root, node, Seq::empty(), f, g),
        _ => {},
    }
}

/// A walk to `path` finishes.
pub open spec fn walk_ends(root: JsonV, path: Seq<char>) -> bool {
    exists|f: nat| walk_f(root, path, f) is Some
}

/// What a walk to `path` gives when it finishes.
pub open spec fn walk_of(root: JsonV, path: Seq<char>) -> Result<JsonV, Seq<char>> {
    walk_f(root, path, choose|f: nat| walk_f(root, path, f) is Some).unwrap()
}

/// A rendering finishes.
pub open spec fn render_ends(k: KindRef, root: JsonV, path: Seq<char>, depth: u8) -> bool {
    exists|f: nat| render_f(k, root, path, depth, f) is Some
}

/// Every fuel with which a walk finishes gives the walk's result.
pub proof fn lemma_walk_agrees(root: JsonV, path: Seq<char>, f: nat)
    requires
        walk_f(root, path, f) is Some,
    ensures
        walk_f(root, path, f) == Some(walk_of(root, path)),
{
    let c = choose|c: nat| walk_f(root, path, c) is Some;
    if f <= c {
        lemma_walk_more(root, path, f, c);
    } else {
        lemma_walk_more(root, path, c, f);
    }
}

/// Every fuel with which a rendering finishes gives the rendering's result.
pub proof fn lemma_render_agrees(k: KindRef, root: JsonV, path: Seq<char>, depth: u8, f: nat)
    requires
        render_f(k, root, path, depth, f) is Some,
    ensures
        render_f(k, root, path, depth, f) == Some(render_of(k, root, path, depth)),
{
    let c = choose|c: nat| render_f(k, root, path, depth, c) is Some;
    if f <= c {
        lemma_render_more(k, root, path, depth, f, c);
    } else {
        lemma_render_more(k, root, path, depth, c, f);
    }
}

/// Every fuel with which `deref` finishes gives `deref`'s result.
pub proof fn lemma_deref_agrees(root: JsonV, node: JsonV, f: nat)
    requires
        deref_f(root, node, f) is Some,
    ensures
        deref_f(root, node, f) == Some(deref_of(root, node)),
{
    let c = choose|c: nat| deref_f(root, node, c) is Some;
    if f <= c {
        lemma_deref_more(root, node, f, c);
    } else {
        lemma_deref_more(root, node, c, f);
    }
}

/// Every fuel with which `type_label` finishes gives `type_label`'s result.
pub proof fn lemma_type_label_agrees(root: JsonV, node: JsonV, f: nat)
    requires
        type_label_f(root, node, f) is Some,
    ensures
        type_label_f(root, node, f) == Some(type_label_of(root, node)),
{
    let c = choose|c: nat| type_label_f(root, node, c) is Some;
    if f <= c {
        lemma_type_label_more(root, node, f, c);
    } else {
        lemma_type_label_more(root, node, c, f);
    }
}

/// Every fuel with which `subtree` finishes gives `subtree`'s result.
pub proof fn lemma_subtree_agrees(root: JsonV, path: Seq<char>, f: nat)
    requires
        subtree_f(root, path, f) is Some,
    ensures
        subtree_f(root, path, f) == Some(subtree_of(root, path)),
{
    let c = choose|c: nat| subtree_f(root, path, c) is Some;
    if f <= c {
        lemma_subtree_more(root, path, f, c);
    } else {
        lemma_subtree_more(root, path, c, f);
    }
}

/// Two paths whose segments agree once trailing `[]`s are stripped walk alike: arrays
/// are descended transparently wherever `[]` ends a segment (so removing every such `[]`
/// changes nothing), for paths that are not blank.
pub proof fn lemma_walk_fn_same_segments(root: JsonV, p: Seq<char>, q: Seq<char>)
    requires
        trim(p).len() > 0,
        trim(q).len() > 0,
        split_by(p, sep_fn(Sep::Char('.'))).len() == split_by(q, sep_fn(Sep::Char('.'))).len(),
        forall|i: int|
            0 <= i < split_by(p, sep_fn(Sep::Char('.'))).len() ==> strip_brackets(
                #[trigger] split_by(p, sep_fn(Sep::Char('.')))[i],
            ) == strip_brackets(split_by(q, sep_fn(Sep::Char('.')))[i]),
    ensures
        walk_ends(root, p) == walk_ends(root, q),
        walk_ends(root, p) ==> walk_of(root, p) == walk_of(root, q),
{
    let pp = split_by(p, sep_fn(Sep::Char('.')));
    let qp = split_by(q, sep_fn(Sep::Char('.')));
    assert forall|f: nat| walk_f(root, p, f) == walk_f(root, q, f) by {
        match deref_f(root, root, f) {
            Some(top) => lemma_walk_steps_same_segments(root, pp, qp, pp.len(), top, f),
            None => {},
        }
    }
    if walk_ends(root, p) {
        let f = choose|f: nat| walk_f(root, p, f) is Some;
        assert(walk_f(root, q, f) is Some);
        lemma_walk_agrees(root, p, f);
        lemma_walk_agrees(root, q, f);
    }
    if walk_ends(root, q) {
        let f = choose|f: nat| walk_f(root, q, f) is Some;
        assert(walk_f(root, p, f) is Some);
    }
}

/// `walk` skips empty segments: `a..b` finishes exactly when `a.b` does, and gives the
/// same result.
pub proof fn lemma_walk_fn_skips_empty_segments(root: JsonV, a: Seq<char>, b: Seq<char>)
    ensures
        walk_ends(root, a + seq!['.', '.'] + b) == walk_ends(root, a + seq!['.'] + b),
        walk_ends(root, a + seq!['.'] + b) ==> walk_of(root, a + seq!['.', '.'] + b) == walk_of(
            root,
            a + seq!['.'] + b,
        ),
{
    let long = a + seq!['.', '.'] + b;
    let short = a + seq!['.'] + b;
    if walk_ends(root, long) {
        let f = choose|f: nat| walk_f(root, long, f) is Some;
        lemma_walk_skips_empty_segments(root, a, b, f);
        assert(walk_f(root, short, f) is Some);
    }
    if walk_ends(root, short) {
        let f = choose|f: nat| walk_f(root, short, f) is Some;
        lemma_walk_skips_empty_segments(root, a, b, f);
        assert(walk_f(root, long, f) is Some);
        lemma_walk_agrees(root, long, f);
        lemma_walk_agrees(root, short, f);
    }
}

/// `walk` descends arrays transparently: `a[].b` finishes exactly when `a.b` does, with
/// the same result; and so does `a[]` against `a` when `a` is not blank.
pub proof fn lemma_walk_fn_ignores_brackets(root: JsonV, a: Seq<char>, b: Seq<char>)
    ensures
        walk_ends(root, a + seq!['[', ']', '.'] + b) == walk_ends(root, a + seq!['.'] + b),
        walk_ends(root, a + seq!['.'] + b) ==> walk_of(root, a + seq!['[', ']', '.'] + b) == walk_of(
            root,
            a + seq!['.'] + b,
        ),
        trim(a).len() > 0 ==> walk_ends(root, a + seq!['[', ']']) == walk_ends(root, a),
        trim(a).len() > 0 && walk_ends(root, a) ==> walk_of(root, a + seq!['[', ']']) == walk_of(root, a),
{
    let long = a + seq!['[', ']', '.'] + b;
    let short = a + seq!['.'] + b;
    let la = a + seq!['[', ']'];
    if walk_ends(root, long) {
        let f = choose|f: nat| walk_f(root, long, f) is Some;
        lemma_walk_ignores_brackets(root, a, b, f);
        assert(walk_f(root, short, f) is Some);
    }
    if walk_ends(root, short) {
        let f = choose|f: nat| walk_f(root, short, f) is Some;
        lemma_walk_ignores_brackets(root, a, b, f);
        assert(walk_f(root, long, f) is Some);
        lemma_walk_agrees(root, long, f);
        lemma_walk_agrees(root, short, f);
    }
    if trim(a).len() > 0 {
        if walk_ends(root, la) {
            let f = choose|f: nat| walk_f(root, la, f) is Some;
            lemma_walk_ignores_brackets(root, a, b, f);
            assert(walk_f(root, a, f) is Some);
        }
        if walk_ends(root, a) {
            let f = choose|f: nat| walk_f(root, a, f) is Some;
            lemma_walk_ignores_brackets(root, a, b, f);
            assert(walk_f(root, la, f) is Some);
            lemma_walk_agrees(root, la, f);
            lemma_walk_agrees(root, a, f);
        }
    }
}

/// `render` clamps its depth to 1..3 (depth 0 renders as 1, depths above 3 as 3), and it
/// fails exactly when the walk to its path fails, with the walk's error.
pub proof fn lemma_render_fn_depth_and_errors(k: KindRef, root: JsonV, path: Seq<char>, depth: u8)
    ensures
        render_ends(k, root, path, 0) == render_ends(k, root, path, 1),
        render_ends(k, root, path, 1) ==> render_of(k, root, path, 0) == render_of(k, root, path, 1),
        depth >= 3 ==> render_ends(k, root, path, depth) == render_ends(k, root, path, 3),
        depth >= 3 && render_ends(k, root, path, 3) ==> render_of(k, root, path, depth) == render_of(
            k,
            root,
            path,
            3,
        ),
        render_ends(k, root, path, depth) ==> walk_ends(root, path),
        render_ends(k, root, path, depth) ==> (render_of(k, root, path, depth) matches Err(m) ==> walk_of(
            root,
            path,
        ) == Err::<JsonV, Seq<char>>(m)),
        walk_ends(root, path) && walk_of(root, path) is Err ==> render_ends(k, root, path, depth)
            && render_of(k, root, path, depth) == Err::<Seq<char>, Seq<char>>(walk_of(root, path)->Err_0),
{
    if render_ends(k, root, path, 0) {
        let f = choose|f: nat| render_f(k, root, path, 0, f) is Some;
        lemma_render_depth_and_errors(k, root, path, 0, f);
        assert(render_f(k, root, path, 1, f) is Some);
    }
    if render_ends(k, root, path, 1) {
        let f = choose|f: nat| render_f(k, root, path, 1, f) is Some;
        lemma_render_depth_and_errors(k, root, path, 0, f);
        assert(render_f(k, root, path, 0, f) is Some);
        lemma_render_agrees(k, root, path, 0, f);
        lemma_render_agrees(k, root, path, 1, f);
    }
    if depth >= 3 {
        if render_ends(k, root, path, depth) {
            let f = choose|f: nat| render_f(k, root, path, depth, f) is Some;
            lemma_render_depth_and_errors(k, root, path, depth, f);
            assert(render_f(k, root, path, 3, f) is Some);
        }
        if render_ends(k, root, path, 3) {
            let f = choose|f: nat| render_f(k, root, path, 3, f) is Some;
            lemma_render_depth_and_errors(k, root, path, depth, f);
            assert(render_f(k, root, path, depth, f) is Some);
            lemma_render_agrees(k, root, path, depth, f);
            lemma_render_agrees(k, root, path, 3, f);
        }
    }
    if render_ends(k, root, path, depth) {
        let f = choose|f: nat| render_f(k, root, path, depth, f) is Some;
        lemma_render_depth_and_errors(k, root, path, depth, f);
        assert(walk_f(root, path, f) is Some);
        lemma_walk_agrees(root, path, f);
        lemma_render_agrees(k, root, path, depth, f);
    }
    if walk_ends(root, path) && walk_of(root, path) is Err {
        let f = choose|f: nat| walk_f(root, path, f) is Some;
        lemma_walk_agrees(root, path, f);
        lemma_render_depth_and_errors(k, root, path, depth, f);
        assert(render_f(k, root, path, depth, f) is Some);
        lemma_render_agrees(k, root, path, depth, f);
    }
}

// ---------------------------------------------------------------- executable


/// Appends a value to a list.
pub fn push_item(v: &mut Vec<Json>, x: Json)
    ensures
        jv_items(final(v)@) == jv_items(old(v)@).push(x@),
{
    let ghost o = v@;
    v.push(x);
    assert(v@.drop_last() =~= o);
}

/// Appends a member to a member list.
pub fn push_member(m: &mut Vec<(String, Json)>, k: String, x: Json)
    ensures
        jv_members(final(m)@) == jv_members(old(m)@).push((k@, x@)),
{
    let ghost o = m@;
    m.push((k, x));
    assert(m@.drop_last() =~= o);
}

/// The `definitions` (or else `$defs`) object of the root schema.
fn definitions_exec(root: &Json) -> (r: Option<&Vec<(String, Json)>>)
    ensures
        match r {
            Some(m) => definitions(root@) == Some(jv_members(m@)),
            None => definitions(root@) is None,
        },
{
    let d = match root.get("definitions") {
        Some(x) => Some(x),
        None => root.get("$defs"),
    };
    match d {
        Some(Json::Object(m)) => Some(m),
        _ => None,
    }
}

/// The definition called `name`.
fn definition_exec<'a>(root: &'a Json, name: &str) -> (r: Option<&'a Json>)
    ensures
        match r {
            Some(x) => definition(root@, name@) == Some(x@),
            None => definition(root@, name@) is None,
        },
{
    match definitions_exec(root) {
        Some(m) => match find_member(m, name) {
            Some(i) => Some(&m[i].1),
            None => None,
        },
        None => None,
    }
}

/// The last `/`-separated segment of a reference.
fn ref_name_exec(r: &String) -> (n: String)
    ensures
        n@ == ref_name(r@),
{
    let pieces = crate::text::split_on(&crate::text::chars_of(r.as_str()), crate::text::Sep::Char('/'));
    proof {
        crate::text::lemma_split_by_nonempty(r@, crate::text::sep_fn(crate::text::Sep::Char('/')));
    }
    let last = &pieces[pieces.len() - 1];
    assert(last.deep_view() =~= last@);
    crate::text::string_of(last)
}

/// Follows local `$ref`s (at most `MAX_DEREF` hops).
fn follow_refs_exec<'a>(root: &'a Json, node: &'a Json) -> (r: &'a Json)
    ensures
        r@ == follow_refs(root@, node@, 0),
{
    let mut cur = node;
    let mut hops: usize = 0;
    while hops < 16
        invariant
            hops <= 16,
            follow_refs(root@, node@, 0) == follow_refs(root@, cur@, hops as nat),
        decreases 16 - hops,
    {
        let r = match cur.get("$ref") {
            Some(Json::Str(s)) => s,
            _ => {
                return cur;
            },
        };
        let name = ref_name_exec(r);
        match definition_exec(root, name.as_str()) {
            Some(t) => {
                cur = t;
            },
            None => {
                return cur;
            },
        }
        hops = hops + 1;
    }
    proof {
        match crate::json::as_str(crate::json::get(cur@, "$ref"@)) {
            Some(_) => {},
            None => {},
        }
    }
    cur
}

/// Merges one member of a dereferenced `allOf` part into the merge state.
fn merge_member_exec(
    merged: &mut Vec<(String, Json)>,
    props: &mut Vec<(String, Json)>,
    req: &mut Vec<Json>,
    k: &String,
    v: &Json,
)
    ensures
        (jv_members(final(merged)@), jv_members(final(props)@), jv_items(final(req)@)) == merge_member(
            (jv_members(old(merged)@), jv_members(old(props)@), jv_items(old(req)@)),
            k@,
            v@,
        ),
{
    if str_eq(k.as_str(), "properties") {
        proof { reveal_strlit("properties"); }
        match v {
            Json::Object(pp) => {
                extend_members(props, pp);
            },
            _ => {},
        }
    } else if str_eq(k.as_str(), "required") {
        proof { reveal_strlit("properties"); reveal_strlit("required"); }
        match v {
            Json::Array(r) => {
                let ghost start = jv_items(req@);
                let mut i: usize = 0;
                proof { lemma_jv_items_index_all(r@); }
                assert(jv_items(r@).take(0) =~= Seq::<JsonV>::empty());
                while i < r.len()
                    invariant
                        i <= r.len(),
                        jv_items(r@).len() == r@.len(),
                        forall|j: int| 0 <= j < r@.len() ==> #[trigger] jv_items(r@)[j] == jv(r@[j]),
                        jv_items(req@) == start + jv_items(r@).take(i as int),
                    decreases r.len() - i,
                {
                    push_item(req, r[i].duplicate());
                    i = i + 1;
                    assert(jv_items(req@) =~= start + jv_items(r@).take(i as int));
                }
                assert(jv_items(r@).take(r.len() as int) =~= jv_items(r@));
            },
            _ => {},
        }
    } else {
        proof { reveal_strlit("properties"); reveal_strlit("required"); }
        match find_member(merged, k.as_str()) {
            Some(_) => {},
            None => {
                insert_member(merged, k.clone(), v.duplicate());
            },
        }
    }
}

/// Sets every member of `more`, in order (`Map::extend`).
fn extend_members(m: &mut Vec<(String, Json)>, more: &Vec<(String, Json)>)
    ensures
        jv_members(final(m)@) == crate::json::members_extend(jv_members(old(m)@), jv_members(more@)),
{
    let ghost start = jv_members(m@);
    let ghost mv = jv_members(more@);
    proof { lemma_jv_members_index_all(more@); }
    let mut i: usize = 0;
    assert(mv.take(0) =~= Seq::<(Seq<char>, JsonV)>::empty());
    while i < more.len()
        invariant
            i <= more.len(),
            mv == jv_members(more@),
            mv.len() == more@.len(),
            forall|j: int| 0 <= j < more@.len() ==> #[trigger] mv[j] == (more@[j].0@, jv(more@[j].1)),
            jv_members(m@) == crate::json::members_extend(start, mv.take(i as int)),
        decreases more.len() - i,
    {
        insert_member(m, more[i].0.clone(), more[i].1.duplicate());
        proof {
            let t = mv.take(i + 1);
            assert(t.drop_last() =~= mv.take(i as int));
            assert(t.last() == mv[i as int]);
        }
        i = i + 1;
    }
    assert(mv.take(more.len() as int) =~= mv);
}

/// Parts merged so far finished when the whole merge finishes.
proof fn lemma_merge_parts_prefix(
    root: JsonV,
    parts: Seq<JsonV>,
    n: nat,
    m: nat,
    st: MergeState,
    fuel: nat,
)
    requires
        1 <= n <= m <= parts.len(),
        merge_parts(root, parts, m, st, fuel) is Some,
    ensures
        merge_parts(root, parts, (n - 1) as nat, st, fuel) is Some,
        deref_f(root, parts[n - 1], fuel) is Some,
    decreases m - n,
{
    if n < m {
        lemma_merge_parts_prefix(root, parts, n, (m - 1) as nat, st, fuel);
    }
}

/// Follow local `$ref`s (`#/definitions/x`) until a concrete node; merge `allOf`
/// (with fuel).
fn deref_fuel(root: &Json, node: &Json, Ghost(fuel): Ghost<nat>) -> (r: Json)
    requires
        deref_f(root@, node@, fuel) is Some,
    ensures
        Some(r@) == deref_f(root@, node@, fuel),
    decreases fuel,
{
    let cur = follow_refs_exec(root, node);
    let all = match cur.get("allOf") {
        Some(Json::Array(a)) => a,
        _ => {
            return cur.duplicate();
        },
    };
    let mut merged: Vec<(String, Json)> = match cur {
        Json::Object(m) => crate::json::duplicate_members(m),
        _ => Vec::new(),
    };
    remove_member(&mut merged, "allOf");
    let mut props: Vec<(String, Json)> = match find_member(&merged, "properties") {
        Some(i) => match &merged[i].1 {
            Json::Object(p) => crate::json::duplicate_members(p),
            _ => Vec::new(),
        },
        None => Vec::new(),
    };
    let mut req: Vec<Json> = match find_member(&merged, "required") {
        Some(i) => match &merged[i].1 {
            Json::Array(r) => crate::json::duplicate_items(r),
            _ => Vec::new(),
        },
        None => Vec::new(),
    };
    let ghost allv = jv_items(all@);
    let ghost st0 = (jv_members(merged@), jv_members(props@), jv_items(req@));
    proof { lemma_jv_items_index_all(all@); }
    let mut i: usize = 0;
    while i < all.len()
        invariant
            i <= all.len(),
            fuel > 0,
            allv == jv_items(all@),
            allv.len() == all@.len(),
            forall|j: int| 0 <= j < all@.len() ==> #[trigger] allv[j] == jv(all@[j]),
            merge_parts(root@, allv, allv.len(), st0, (fuel - 1) as nat) is Some,
            merge_parts(root@, allv, i as nat, st0, (fuel - 1) as nat) == Some(
                (jv_members(merged@), jv_members(props@), jv_items(req@)),
            ),
        decreases all.len() - i,
    {
        proof { lemma_merge_parts_prefix(root@, allv, i as nat + 1, allv.len(), st0, (fuel - 1) as nat); }
        let ghost si = (jv_members(merged@), jv_members(props@), jv_items(req@));
        let p = deref_fuel(root, &all[i], Ghost((fuel - 1) as nat));
        proof {
            assert(merge_parts(root@, allv, i as nat + 1, st0, (fuel - 1) as nat) == Some(merge_part(si, p@)));
        }
        match &p {
            Json::Object(o) => {
                let ghost ov = jv_members(o@);
                proof { lemma_jv_members_index_all(o@); }
                let mut k: usize = 0;
                while k < o.len()
                    invariant
                        k <= o.len(),
                        ov == jv_members(o@),
                        ov.len() == o@.len(),
                        forall|j: int| 0 <= j < o@.len() ==> #[trigger] ov[j] == (o@[j].0@, jv(o@[j].1)),
                        (jv_members(merged@), jv_members(props@), jv_items(req@)) == merge_members(si, ov, k as nat),
                    decreases o.len() - k,
                {
                    merge_member_exec(&mut merged, &mut props, &mut req, &o[k].0, &o[k].1);
                    k = k + 1;
                }
            },
            _ => {},
        }
        i = i + 1;
    }
    if props.len() > 0 {
        insert_member(&mut merged, "properties".to_owned(), Json::Object(props));
    }
    if req.len() > 0 {
        insert_member(&mut merged, "required".to_owned(), Json::Array(req));
    }
    Json::Object(merged)
}

/// What `deref` gives for a node on which it finishes.
pub open spec fn deref_of(root: JsonV, node: JsonV) -> JsonV {
    deref_f(root, node, choose|f: nat| deref_f(root, node, f) is Some).unwrap()
}

/// Follow local `$ref`s (`#/definitions/x`) until a concrete node; merge `allOf`.
pub fn deref(root: &Json, node: &Json) -> (r: Json)
    requires
        deref_ends(root@, node@),
    ensures
        r@ == deref_of(root@, node@),
{
    let ghost f = choose|f: nat| deref_f(root@, node@, f) is Some;
    deref_fuel(root, node, Ghost(f))
}

fn base_type_exec(n: &Json) -> (r: Option<&String>)
    ensures
        match r {
            Some(s) => base_type(n@) == Some(s@),
            None => base_type(n@) is None,
        },
{
    match n.get("type") {
        Some(Json::Str(s)) => Some(s),
        Some(Json::Array(a)) => {
            let ghost av = jv_items(a@);
            proof { lemma_jv_items_index_all(a@); }
            let mut i: usize = 0;
            assert(av.skip(0) =~= av);
            while i < a.len()
                invariant
                    i <= a.len(),
                    av == jv_items(a@),
                    av.len() == a@.len(),
                    forall|j: int| 0 <= j < a@.len() ==> #[trigger] av[j] == jv(a@[j]),
                    first_non_null(av) == first_non_null(av.skip(i as int)),
                    base_type(n@) == first_non_null(av),
                decreases a.len() - i,
            {
                assert(av.skip(i as int).drop_first() =~= av.skip(i + 1));
                assert(av.skip(i as int)[0] == jv(a@[i as int]));
                match &a[i] {
                    Json::Str(t) => {
                        if !str_eq(t.as_str(), "null") {
                            assert(first_non_null(av.skip(i as int)) == Some(t@));
                            return Some(t);
                        }
                    },
                    _ => {},
                }
                i = i + 1;
            }
            None
        },
        _ => None,
    }
}

fn is_type(bt: Option<&String>, t: &str) -> (r: bool)
    ensures
        r == (match bt {
            Some(s) => s@ == t@,
            None => false,
        }),
{
    match bt {
        Some(s) => str_eq(s.as_str(), t),
        None => false,
    }
}

fn has_alternative_exec(a: &Vec<Json>, t: &str) -> (r: bool)
    ensures
        r == has_alternative(jv_items(a@), t@),
{
    proof { lemma_jv_items_index_all(a@); }
    let mut i: usize = 0;
    while i < a.len()
        invariant
            i <= a.len(),
            jv_items(a@).len() == a@.len(),
            forall|j: int| 0 <= j < a@.len() ==> #[trigger] jv_items(a@)[j] == jv(a@[j]),
            forall|j: int| 0 <= j < i ==> base_type(#[trigger] jv_items(a@)[j]) != Some(t@),
        decreases a.len() - i,
    {
        if is_type(base_type_exec(&a[i]), t) {
            assert(base_type(jv_items(a@)[i as int]) == Some(t@));
            return true;
        }
        i = i + 1;
    }
    false
}

/// A `String` of a literal followed by some text.
fn concat(lit: &str, rest: &String) -> (r: String)
    ensures
        r@ == lit@ + rest@,
{
    let mut out = lit.to_owned();
    push_all(&mut out, &chars_of(rest.as_str()));
    out
}

/// Human type label (with fuel).
fn type_label_fuel(root: &Json, node: &Json, Ghost(fuel): Ghost<nat>) -> (r: String)
    requires
        type_label_f(root@, node@, fuel) is Some,
    ensures
        Some(r@) == type_label_f(root@, node@, fuel),
    decreases fuel,
{
    let n = deref_fuel(root, node, Ghost(fuel));
    match n.get("x-kubernetes-int-or-string") {
        Some(Json::Bool(true)) => {
            return "int-or-string".to_owned();
        },
        _ => {},
    }
    let one = match n.get("oneOf") {
        Some(x) => Some(x),
        None => n.get("anyOf"),
    };
    match one {
        Some(Json::Array(a)) => {
            if has_alternative_exec(a, "integer") && has_alternative_exec(a, "string") {
                return "int-or-string".to_owned();
            }
        },
        _ => {},
    }
    let bt = base_type_exec(&n);
    if is_type(bt, "array") {
        return match n.get("items") {
            Some(i) => concat("[]", &type_label_fuel(root, i, Ghost((fuel - 1) as nat))),
            None => "[]Object".to_owned(),
        };
    }
    let has_props = n.get("properties").is_some();
    if (is_type(bt, "object") || bt.is_none()) && has_props {
        return "Object".to_owned();
    }
    if is_type(bt, "object") {
        return match n.get("additionalProperties") {
            Some(ap) => match ap {
                Json::Object(_) => concat("map[string]", &type_label_fuel(root, ap, Ghost((fuel - 1) as nat))),
                _ => "Object".to_owned(),
            },
            None => "Object".to_owned(),
        };
    }
    match bt {
        Some(t) => t.clone(),
        None => if n.get("x-kubernetes-preserve-unknown-fields").is_some() {
            "Object".to_owned()
        } else {
            "any".to_owned()
        },
    }
}

/// What `type_label` gives for a node on which it finishes.
pub open spec fn type_label_of(root: JsonV, node: JsonV) -> Seq<char> {
    type_label_f(root, node, choose|f: nat| type_label_f(root, node, f) is Some).unwrap()
}

/// Human type label: `string`, `integer`, `Object`, `[]Object`, `map[string]string`, `int-or-string`.
pub fn type_label(root: &Json, node: &Json) -> (r: String)
    requires
        exists|f: nat| type_label_f(root@, node@, f) is Some,
    ensures
        r@ == type_label_of(root@, node@),
{
    let ghost f = choose|f: nat| type_label_f(root@, node@, f) is Some;
    type_label_fuel(root, node, Ghost(f))
}

/// Steps through up to three array layers.
fn unwrap_arrays_exec(root: &Json, n: Json, Ghost(fuel): Ghost<nat>) -> (r: Json)
    requires
        unwrap_arrays(root@, n@, 3, fuel) is Some,
    ensures
        Some(r@) == unwrap_arrays(root@, n@, 3, fuel),
{
    let mut cur = n;
    let mut k: usize = 3;
    while k > 0
        invariant
            k <= 3,
            unwrap_arrays(root@, n@, 3, fuel) is Some,
            unwrap_arrays(root@, n@, 3, fuel) == unwrap_arrays(root@, cur@, k as nat, fuel),
        decreases k,
    {
        if !is_type(base_type_exec(&cur), "array") {
            return cur;
        }
        let ghost items = match get(cur@, "items"@) {
            Some(i) => i,
            None => JsonV::Null,
        };
        assert(unwrap_arrays(root@, cur@, k as nat, fuel) == match deref_f(root@, items, fuel) {
            None => None,
            Some(d) => unwrap_arrays(root@, d, (k - 1) as nat, fuel),
        });
        let next = match cur.get("items") {
            Some(i) => deref_fuel(root, i, Ghost(fuel)),
            None => deref_fuel(root, &Json::Null, Ghost(fuel)),
        };
        cur = next;
        k = k - 1;
    }
    cur
}

/// `s` with every trailing `[]` removed.
fn strip_brackets_exec(v: &Vec<char>) -> (r: Vec<char>)
    ensures
        r@ == strip_brackets(v@),
{
    let mut n = v.len();
    assert(v@.take(n as int) =~= v@);
    while n >= 2 && v[n - 2] == '[' && v[n - 1] == ']'
        invariant
            n <= v.len(),
            strip_brackets(v@) == strip_brackets(v@.take(n as int)),
        decreases n,
    {
        assert(v@.take(n as int).take(n - 2) =~= v@.take(n - 2));
        n = n - 2;
    }
    crate::text::slice_chars(v, 0, n)
}

/// The names of the `properties` of a node.
fn property_names_exec(n: &Json) -> (r: Vec<Vec<char>>)
    ensures
        r.deep_view() == property_names(n@),
{
    let mut r: Vec<Vec<char>> = Vec::new();
    match n.get("properties") {
        Some(Json::Object(m)) => {
            proof { lemma_jv_members_index_all(m@); }
            let mut i: usize = 0;
            while i < m.len()
                invariant
                    i <= m.len(),
                    jv_members(m@).len() == m@.len(),
                    forall|j: int| 0 <= j < m@.len() ==> #[trigger] jv_members(m@)[j] == (m@[j].0@, jv(m@[j].1)),
                    r.deep_view() == keys_of(jv_members(m@).take(i as int)),
                decreases m.len() - i,
            {
                let k = chars_of(m[i].0.as_str());
                let ghost before = r.deep_view();
                assert(k.deep_view() =~= k@);
                r.push(k);
                assert(r.deep_view() =~= before.push(m@[i as int].0@));
                assert(keys_of(jv_members(m@).take(i + 1)) =~= keys_of(jv_members(m@).take(i as int)).push(m@[i as int].0@));
                i = i + 1;
            }
            assert(jv_members(m@).take(m.len() as int) =~= jv_members(m@));
        },
        _ => {
            assert(r.deep_view() =~= Seq::<Seq<char>>::empty());
        },
    }
    r
}

fn not_found_exec(seg: &Vec<char>, seen: &Vec<char>, node: &Json) -> (r: String)
    ensures
        r@ == not_found_message(seg@, seen@, node@),
{
    let mut out = "field '".to_owned();
    push_all(&mut out, seg);
    push_all(&mut out, &chars_of("' not found under '"));
    if seen.len() == 0 {
        push_all(&mut out, &chars_of("<root>"));
    } else {
        push_all(&mut out, seen);
    }
    push_all(&mut out, &chars_of("'; available: "));
    let names = property_names_exec(node);
    if names.len() == 0 {
        push_all(&mut out, &chars_of("(none)"));
    } else {
        push_all(&mut out, &join_chars(&names, &chars_of(", ")));
    }
    out
}

/// The child selected by a path segment.
fn child_exec<'a>(node: &'a Json, seg: &Vec<char>) -> (r: Option<&'a Json>)
    ensures
        opt_jv_ref(r) == child(node@, seg@),
{
    let seg_s = string_of(seg);
    let props = node.get("properties");
    let c = match props {
        Some(p) => p.get(seg_s.as_str()),
        None => None,
    };
    if c.is_some() {
        return c;
    }
    match node.get("additionalProperties") {
        Some(ap) => if ap.is_object() && (str_eq(seg_s.as_str(), "*") || !(props.is_some() && c.is_some())) {
            Some(ap)
        } else {
            None
        },
        None => None,
    }
}

pub open spec fn opt_jv_ref(o: Option<&Json>) -> Option<JsonV> {
    match o {
        Some(x) => Some(x@),
        None => None,
    }
}

proof fn lemma_walk_prefix(root: JsonV, pieces: Seq<Seq<char>>, n: nat, m: nat, start: JsonV, fuel: nat)
    requires
        n <= m <= pieces.len(),
        walk_steps(root, pieces, m, start, fuel) is Some,
    ensures
        walk_steps(root, pieces, n, start, fuel) is Some,
    decreases m - n,
{
    if n < m {
        lemma_walk_prefix(root, pieces, n, (m - 1) as nat, start, fuel);
    }
}

proof fn lemma_walk_err_stays(root: JsonV, pieces: Seq<Seq<char>>, n: nat, m: nat, start: JsonV, fuel: nat, e: Seq<char>)
    requires
        n <= m <= pieces.len(),
        walk_steps(root, pieces, n, start, fuel) == Some(Err::<(JsonV, Seq<char>), Seq<char>>(e)),
    ensures
        walk_steps(root, pieces, m, start, fuel) == Some(Err::<(JsonV, Seq<char>), Seq<char>>(e)),
    decreases m - n,
{
    if n < m {
        lemma_walk_err_stays(root, pieces, n, (m - 1) as nat, start, fuel, e);
    }
}

/// Walk with fuel.
fn walk_fuel(root: &Json, path: &str, Ghost(fuel): Ghost<nat>) -> (r: Result<Json, AppError>)
    requires
        walk_f(root@, path@, fuel) is Some,
    ensures
        match (r, walk_f(root@, path@, fuel).unwrap()) {
            (Ok(n), Ok(m)) => n@ == m,
            (Err(e), Err(m)) => is_not_found(e, m),
            _ => false,
        },
{
    let top = deref_fuel(root, root, Ghost(fuel));
    let pc = chars_of(path);
    if trim_chars(&pc).len() == 0 {
        return Ok(top);
    }
    let pieces = split_on(&pc, Sep::Char('.'));
    let ghost pv = pieces.deep_view();
    let ghost topv = top@;
    let mut cur = top;
    let mut seen: Vec<char> = Vec::new();
    let mut i: usize = 0;
    while i < pieces.len()
        invariant
            i <= pieces.len(),
            pv == pieces.deep_view(),
            pv == split_by(path@, sep_fn(Sep::Char('.'))),
            pv.len() == pieces.len(),
            deref_f(root@, root@, fuel) == Some(topv),
            trim(path@).len() != 0,
            walk_f(root@, path@, fuel) is Some,
            walk_steps(root@, pv, pv.len(), topv, fuel) is Some,
            walk_steps(root@, pv, i as nat, topv, fuel) == Some(Ok::<(JsonV, Seq<char>), Seq<char>>((cur@, seen@))),
        decreases pieces.len() - i,
    {
        proof { lemma_walk_prefix(root@, pv, i as nat + 1, pv.len(), topv, fuel); }
        assert(pieces[i as int].deep_view() =~= pieces[i as int]@);
        let ghost curv = cur@;
        let ghost seenv = seen@;
        let seg = strip_brackets_exec(&pieces[i]);
        proof {
            let sg = strip_brackets(pv[i as int]);
            assert(sg == seg@);
            assert(walk_steps(root@, pv, i as nat + 1, topv, fuel) == if sg.len() == 0 {
                Some(Ok::<(JsonV, Seq<char>), Seq<char>>((curv, seenv)))
            } else {
                match unwrap_arrays(root@, curv, 3, fuel) {
                    None => None,
                    Some(node) => match child(node, sg) {
                        None => Some(Err(not_found_message(sg, seenv, node))),
                        Some(next) => match deref_f(root@, next, fuel) {
                            None => None,
                            Some(d) => Some(Ok((d, if seenv.len() == 0 { sg } else { seenv + seq!['.'] + sg }))),
                        },
                    },
                }
            });
        }
        if seg.len() == 0 {
            i = i + 1;
            continue;
        }
        let node = unwrap_arrays_exec(root, cur, Ghost(fuel));
        match child_exec(&node, &seg) {
            None => {
                let msg = not_found_exec(&seg, &seen, &node);
                proof {
                    lemma_walk_err_stays(root@, pv, i as nat + 1, pv.len(), topv, fuel, msg@);
                }
                return Err(AppError::NotFound(msg));
            },
            Some(next) => {
                cur = deref_fuel(root, next, Ghost(fuel));
                if seen.len() > 0 {
                    seen.push('.');
                }
                let mut k: usize = 0;
                let ghost base = seen@;
                while k < seg.len()
                    invariant
                        k <= seg.len(),
                        seen@ == base + seg@.take(k as int),
                    decreases seg.len() - k,
                {
                    seen.push(seg[k]);
                    k = k + 1;
                    assert(seen@ =~= base + seg@.take(k as int));
                }
                assert(seg@.take(seg.len() as int) =~= seg@);
                assert(seen@ =~= if seenv.len() == 0 { seg@ } else { seenv + seq!['.'] + seg@ });
            },
        }
        i = i + 1;
    }
    let out = unwrap_arrays_exec(root, cur, Ghost(fuel));
    Ok(out)
}

/// Walk a dotted path (`spec.containers[].ports`) and return the (dereffed) node.
pub fn walk(root: &Json, path: &str) -> (r: Result<Json, AppError>)
    requires
        walk_ends(root@, path@),
    ensures
        match (r, walk_of(root@, path@)) {
            (Ok(n), Ok(m)) => n@ == m,
            (Err(e), Err(m)) => is_not_found(e, m),
            _ => false,
        },
{
    let ghost f = choose|f: nat| walk_f(root@, path@, f) is Some;
    walk_fuel(root, path, Ghost(f))
}


// ---------------------------------------------------------------- bounded runs

proof fn lemma_merge_parts_some(root: JsonV, parts: Seq<JsonV>, n: nat, st: MergeState, f: nat)
    requires
        n <= parts.len(),
    ensures
        (merge_parts(root, parts, n, st, f) is Some) == (forall|i: int| 0 <= i < n ==> #[trigger] deref_f(root, parts[i], f) is Some),
    decreases n,
{
    if n > 0 {
        lemma_merge_parts_some(root, parts, (n - 1) as nat, st, f);
        if merge_parts(root, parts, n, st, f) is Some {
            assert forall|i: int| 0 <= i < n implies #[trigger] deref_f(root, parts[i], f) is Some by {
                if i < n - 1 {
                }
            }
        }
        if forall|i: int| 0 <= i < n ==> #[trigger] deref_f(root, parts[i], f) is Some {
            assert(deref_f(root, parts[n - 1], f) is Some);
            assert forall|i: int| 0 <= i < n - 1 implies #[trigger] deref_f(root, parts[i], f) is Some by {
                assert(deref_f(root, parts[i], f) is Some);
            }
        }
    }
}

/// Whether `deref` finishes with `fuel`.
fn deref_finishes(root: &Json, node: &Json, fuel: u64) -> (r: bool)
    ensures
        r == deref_f(root@, node@, fuel as nat) is Some,
    decreases fuel,
{
    if fuel == 0 {
        return false;
    }
    let cur = follow_refs_exec(root, node);
    let all = match cur.get("allOf") {
        Some(Json::Array(a)) => a,
        _ => {
            return true;
        },
    };
    let ghost allv = jv_items(all@);
    let ghost m0 = match cur@ {
        JsonV::Object(m) => crate::json::members_remove(m, "allOf"@),
        _ => Seq::empty(),
    };
    let ghost p0 = match as_object(members_get(m0, "properties"@)) {
        Some(p) => p,
        None => Seq::empty(),
    };
    let ghost r0 = match as_array(members_get(m0, "required"@)) {
        Some(r) => r,
        None => Seq::empty(),
    };
    proof {
        lemma_jv_items_index_all(all@);
        lemma_merge_parts_some(root@, allv, allv.len(), (m0, p0, r0), (fuel - 1) as nat);
        assert(as_array(get(cur@, "allOf"@)) == Some(allv));
        assert((deref_f(root@, node@, fuel as nat) is Some) == (merge_parts(
            root@,
            allv,
            allv.len(),
            (m0, p0, r0),
            (fuel - 1) as nat,
        ) is Some));
    }
    let mut i: usize = 0;
    while i < all.len()
        invariant
            i <= all.len(),
            fuel > 0,
            allv == jv_items(all@),
            allv.len() == all@.len(),
            forall|j: int| 0 <= j < all@.len() ==> #[trigger] allv[j] == jv(all@[j]),
            forall|j: int| 0 <= j < i ==> #[trigger] deref_f(root@, allv[j], (fuel - 1) as nat) is Some,
            (deref_f(root@, node@, fuel as nat) is Some) == (forall|j: int|
                0 <= j < allv.len() ==> #[trigger] deref_f(root@, allv[j], (fuel - 1) as nat) is Some),
        decreases all.len() - i,
    {
        if !deref_finishes(root, &all[i], fuel - 1) {
            assert(allv[i as int] == jv(all@[i as int]));
            return false;
        }
        i = i + 1;
    }
    true
}

/// `deref` with at most `fuel` steps of `allOf` nesting: `None` when that is not enough.
pub fn deref_bounded(root: &Json, node: &Json, fuel: u64) -> (r: Option<Json>)
    ensures
        match r {
            Some(x) => deref_f(root@, node@, fuel as nat) == Some(x@),
            None => deref_f(root@, node@, fuel as nat) is None,
        },
{
    if deref_finishes(root, node, fuel) {
        Some(deref_fuel(root, node, Ghost(fuel as nat)))
    } else {
        None
    }
}

/// Whether `type_label` finishes with `fuel`.
fn type_label_finishes(root: &Json, node: &Json, fuel: u64) -> (r: bool)
    ensures
        r == type_label_f(root@, node@, fuel as nat) is Some,
    decreases fuel,
{
    if fuel == 0 || !deref_finishes(root, node, fuel) {
        return false;
    }
    let n = deref_fuel(root, node, Ghost(fuel as nat));
    match n.get("x-kubernetes-int-or-string") {
        Some(Json::Bool(true)) => {
            return true;
        },
        _ => {},
    }
    let one = match n.get("oneOf") {
        Some(x) => Some(x),
        None => n.get("anyOf"),
    };
    match one {
        Some(Json::Array(a)) => {
            if has_alternative_exec(a, "integer") && has_alternative_exec(a, "string") {
                return true;
            }
        },
        _ => {},
    }
    let bt = base_type_exec(&n);
    if is_type(bt, "array") {
        return match n.get("items") {
            Some(i) => type_label_finishes(root, i, fuel - 1),
            None => true,
        };
    }
    let has_props = n.get("properties").is_some();
    if (is_type(bt, "object") || bt.is_none()) && has_props {
        return true;
    }
    if is_type(bt, "object") {
        return match n.get("additionalProperties") {
            Some(ap) => match ap {
                Json::Object(_) => type_label_finishes(root, ap, fuel - 1),
                _ => true,
            },
            None => true,
        };
    }
    true
}

/// `type_label` with at most `fuel` steps of nesting: `None` when that is not enough.
pub fn type_label_bounded(root: &Json, node: &Json, fuel: u64) -> (r: Option<String>)
    ensures
        match r {
            Some(x) => type_label_f(root@, node@, fuel as nat) == Some(x@),
            None => type_label_f(root@, node@, fuel as nat) is None,
        },
{
    if type_label_finishes(root, node, fuel) {
        Some(type_label_fuel(root, node, Ghost(fuel as nat)))
    } else {
        None
    }
}

/// Steps through up to three array layers, `None` when `fuel` is not enough.
fn unwrap_arrays_bounded(root: &Json, n: Json, fuel: u64) -> (r: Option<Json>)
    ensures
        match r {
            Some(x) => unwrap_arrays(root@, n@, 3, fuel as nat) == Some(x@),
            None => unwrap_arrays(root@, n@, 3, fuel as nat) is None,
        },
{
    let mut cur = n;
    let mut k: usize = 3;
    while k > 0
        invariant
            k <= 3,
            unwrap_arrays(root@, n@, 3, fuel as nat) == unwrap_arrays(root@, cur@, k as nat, fuel as nat),
        decreases k,
    {
        if !is_type(base_type_exec(&cur), "array") {
            return Some(cur);
        }
        let ghost items = match get(cur@, "items"@) {
            Some(i) => i,
            None => JsonV::Null,
        };
        assert(unwrap_arrays(root@, cur@, k as nat, fuel as nat) == match deref_f(root@, items, fuel as nat) {
            None => None,
            Some(d) => unwrap_arrays(root@, d, (k - 1) as nat, fuel as nat),
        });
        let null = Json::Null;
        let it = match cur.get("items") {
            Some(i) => i,
            None => &null,
        };
        if !deref_finishes(root, it, fuel) {
            return None;
        }
        let next = deref_fuel(root, it, Ghost(fuel as nat));
        cur = next;
        k = k - 1;
    }
    Some(cur)
}

proof fn lemma_walk_none_stays(root: JsonV, pieces: Seq<Seq<char>>, n: nat, m: nat, start: JsonV, fuel: nat)
    requires
        n <= m <= pieces.len(),
        walk_steps(root, pieces, n, start, fuel) is None,
    ensures
        walk_steps(root, pieces, m, start, fuel) is None,
    decreases m - n,
{
    if n < m {
        lemma_walk_none_stays(root, pieces, n, (m - 1) as nat, start, fuel);
    }
}

/// `walk` with at most `fuel` steps of nesting at each node: `None` when that is not
/// enough, otherwise what `walk` gives.
pub fn walk_bounded(root: &Json, path: &str, fuel: u64) -> (r: Option<Result<Json, AppError>>)
    ensures
        match r {
            None => walk_f(root@, path@, fuel as nat) is None,
            Some(Ok(n)) => walk_f(root@, path@, fuel as nat) == Some(Ok::<JsonV, Seq<char>>(n@)),
            Some(Err(e)) => walk_f(root@, path@, fuel as nat) matches Some(Err(m)) && is_not_found(e, m),
        },
{
    let ghost f = fuel as nat;
    if !deref_finishes(root, root, fuel) {
        return None;
    }
    let top = deref_fuel(root, root, Ghost(f));
    let pc = chars_of(path);
    if trim_chars(&pc).len() == 0 {
        return Some(Ok(top));
    }
    let pieces = split_on(&pc, Sep::Char('.'));
    let ghost pv = pieces.deep_view();
    let ghost topv = top@;
    let mut cur = top;
    let mut seen: Vec<char> = Vec::new();
    let mut i: usize = 0;
    while i < pieces.len()
        invariant
            i <= pieces.len(),
            f == fuel as nat,
            pv == pieces.deep_view(),
            pv == split_by(path@, sep_fn(Sep::Char('.'))),
            pv.len() == pieces.len(),
            deref_f(root@, root@, f) == Some(topv),
            trim(path@).len() != 0,
            walk_steps(root@, pv, i as nat, topv, f) == Some(Ok::<(JsonV, Seq<char>), Seq<char>>((cur@, seen@))),
        decreases pieces.len() - i,
    {
        assert(pieces[i as int].deep_view() =~= pieces[i as int]@);
        let ghost curv = cur@;
        let ghost seenv = seen@;
        let seg = strip_brackets_exec(&pieces[i]);
        proof {
            let sg = strip_brackets(pv[i as int]);
            assert(sg == seg@);
            assert(walk_steps(root@, pv, i as nat + 1, topv, f) == if sg.len() == 0 {
                Some(Ok::<(JsonV, Seq<char>), Seq<char>>((curv, seenv)))
            } else {
                match unwrap_arrays(root@, curv, 3, f) {
                    None => None,
                    Some(node) => match child(node, sg) {
                        None => Some(Err(not_found_message(sg, seenv, node))),
                        Some(next) => match deref_f(root@, next, f) {
                            None => None,
                            Some(d) => Some(Ok((d, if seenv.len() == 0 { sg } else { seenv + seq!['.'] + sg }))),
                        },
                    },
                }
            });
        }
        if seg.len() == 0 {
            i = i + 1;
            continue;
        }
        let node = match unwrap_arrays_bounded(root, cur, fuel) {
            Some(x) => x,
            None => {
                proof { lemma_walk_none_stays(root@, pv, i as nat + 1, pv.len(), topv, f); }
                return None;
            },
        };
        match child_exec(&node, &seg) {
            None => {
                let msg = not_found_exec(&seg, &seen, &node);
                proof {
                    lemma_walk_err_stays(root@, pv, i as nat + 1, pv.len(), topv, f, msg@);
                }
                return Some(Err(AppError::NotFound(msg)));
            },
            Some(next) => {
                if !deref_finishes(root, next, fuel) {
                    proof { lemma_walk_none_stays(root@, pv, i as nat + 1, pv.len(), topv, f); }
                    return None;
                }
                cur = deref_fuel(root, next, Ghost(f));
                if seen.len() > 0 {
                    seen.push('.');
                }
                let mut k: usize = 0;
                let ghost base = seen@;
                while k < seg.len()
                    invariant
                        k <= seg.len(),
                        seen@ == base + seg@.take(k as int),
                    decreases seg.len() - k,
                {
                    seen.push(seg[k]);
                    k = k + 1;
                    assert(seen@ =~= base + seg@.take(k as int));
                }
                assert(seg@.take(seg.len() as int) =~= seg@);
                assert(seen@ =~= if seenv.len() == 0 { seg@ } else { seenv + seq!['.'] + seg@ });
            },
        }
        i = i + 1;
    }
    match unwrap_arrays_bounded(root, cur, fuel) {
        Some(out) => Some(Ok(out)),
        None => None,
    }
}

/// Index of the first ". " in `v`.
fn find_period_space_exec(v: &Vec<char>) -> (r: Option<usize>)
    ensures
        match r {
            Some(i) => find_period_space(v@) == Some(i as int) && i < v.len(),
            None => find_period_space(v@) is None,
        },
{
    let mut i: usize = 0;
    assert(v@.skip(0) =~= v@);
    while v.len() - i >= 2
        invariant
            i <= v.len(),
            forall|k: int| 0 <= k < i ==> #[trigger] find_period_space(v@.skip(k)) == match find_period_space(v@.skip(k + 1)) {
                Some(j) => Some(j + 1),
                None => None,
            },
            find_period_space(v@) == match find_period_space(v@.skip(i as int)) {
                Some(j) => Some(j + i),
                None => None,
            },
        decreases v.len() - i,
    {
        if v[i] == '.' && v[i + 1] == ' ' {
            assert(find_period_space(v@.skip(i as int)) == Some(0int));
            return Some(i);
        }
        assert(v@.skip(i as int).drop_first() =~= v@.skip(i + 1));
        i = i + 1;
    }
    assert(v@.skip(i as int).len() < 2);
    None
}

/// The first sentence of a description, cut to 160 bytes.
#[verifier::spinoff_prover]
fn first_sentence_chars(desc: &String) -> (r: Option<Vec<char>>)
    ensures
        match r {
            Some(x) => first_sentence_of(desc@) == Some(x@),
            None => first_sentence_of(desc@) is None,
        },
{
    let t = trim_chars(&chars_of(desc.as_str()));
    let mut d: Vec<char> = Vec::new();
    let mut i: usize = 0;
    while i < t.len()
        invariant
            i <= t.len(),
            d@ == newlines_to_spaces(t@).take(i as int),
        decreases t.len() - i,
    {
        d.push(if t[i] == '\n' { ' ' } else { t[i] });
        i = i + 1;
        assert(d@ =~= newlines_to_spaces(t@).take(i as int));
    }
    assert(newlines_to_spaces(t@).take(t.len() as int) =~= newlines_to_spaces(t@));
    let end = match find_period_space_exec(&d) {
        Some(i) => i + 1,
        None => d.len(),
    };
    let s = crate::text::slice_chars(&d, 0, end);
    assert(s@ =~= d@.take(end as int));
    if !crate::text::byte_len_exceeds(&s, 160) {
        return Some(s);
    }
    let mut k: usize = 0;
    let mut total: usize = 0;
    while k < s.len() && total + char_bytes(s[k]) <= 157
        invariant
            k <= s.len(),
            total == byte_len(s@.take(k as int)),
            total <= 157,
        decreases s.len() - k,
    {
        assert(s@.take(k + 1).drop_last() =~= s@.take(k as int));
        total = total + char_bytes(s[k]);
        k = k + 1;
    }
    if total != 157 {
        proof {
            if exists|k2: int| 0 <= k2 <= s@.len() && byte_len(#[trigger] s@.take(k2)) == 157 {
                let ks = choose|k2: int| 0 <= k2 <= s@.len() && byte_len(#[trigger] s@.take(k2)) == 157;
                if ks < k {
                    crate::text::lemma_byte_len_take_strict(s@, ks, k as int);
                } else if ks > k {
                    assert(s@.take(k + 1).drop_last() =~= s@.take(k as int));
                    if ks > k + 1 {
                        crate::text::lemma_byte_len_take_strict(s@, k as int + 1, ks);
                    }
                }
            }
        }
        return None;
    }
    proof {
        let ks = choose|k2: int| 0 <= k2 <= s@.len() && byte_len(#[trigger] s@.take(k2)) == 157;
        assert(byte_len(s@.take(k as int)) == 157);
        if ks < k {
            crate::text::lemma_byte_len_take_strict(s@, ks, k as int);
        } else if ks > k {
            assert(s@.take(k + 1).drop_last() =~= s@.take(k as int));
            if ks > k + 1 {
                crate::text::lemma_byte_len_take_strict(s@, k as int + 1, ks);
            }
        }
        assert(ks == k);
    }
    let mut r = crate::text::slice_chars(&s, 0, k);
    r.push('.');
    r.push('.');
    r.push('.');
    proof { reveal_strlit("..."); }
    assert(r@ =~= s@.take(k as int) + "..."@);
    Some(r)
}

/// Bytes in the UTF-8 encoding of one character.
fn char_bytes(c: char) -> (n: usize)
    ensures
        n == crate::text::char_width(c),
{
    if (c as u32) < 0x80 {
        1
    } else if (c as u32) < 0x800 {
        2
    } else if (c as u32) < 0x10000 {
        3
    } else {
        4
    }
}

/// Greedy filling of one paragraph's words.
fn wrap_para_exec(p: &Vec<char>, indent: &Vec<char>, width: usize) -> (r: Vec<char>)
    ensures
        r@ == wrap_para(p@, indent@, width as nat),
{
    let ws = crate::text::split_words(p);
    let ghost wv = ws.deep_view();
    let mut po: Vec<char> = Vec::new();
    let mut line: Vec<char> = Vec::new();
    let mut w: usize = 0;
    assert(wv.take(0) =~= Seq::<Seq<char>>::empty());
    while w < ws.len()
        invariant
            w <= ws.len(),
            wv == ws.deep_view(),
            wv == words(p@),
            (po@, line@) == wrap_words(wv.take(w as int), indent@, width as nat),
        decreases ws.len() - w,
    {
        let word = &ws[w];
        assert(word.deep_view() =~= word@);
        assert(wv[w as int] == word@);
        proof {
            let t = wv.take(w + 1);
            assert(t.drop_last() =~= wv.take(w as int));
            assert(t.last() == word@);
        }
        let ghost st = (po@, line@);
        if line.len() > 0 {
            let mut cand = line.clone();
            cand.push(' ');
            crate::text::extend_chars(&mut cand, word);
            proof {
                crate::text::lemma_byte_len_concat(line@.push(' '), word@);
                assert(line@.push(' ').drop_last() =~= line@);
            }
            if crate::text::byte_len_exceeds(&cand, width) {
                crate::text::extend_chars(&mut po, indent);
                crate::text::extend_chars(&mut po, &line);
                po.push('\n');
                line = Vec::new();
            }
        }
        if line.len() > 0 {
            line.push(' ');
        }
        crate::text::extend_chars(&mut line, word);
        w = w + 1;
        proof {
            let out1 = if st.1.len() > 0 && byte_len(st.1) + byte_len(word@) + 1 > width as nat {
                (st.0 + indent@ + st.1 + seq!['\n'], Seq::<char>::empty())
            } else {
                st
            };
            assert(po@ =~= out1.0);
        }
        assert(line@ =~= wrap_step(st, word@, indent@, width as nat).1);
    }
    assert(wv.take(ws.len() as int) =~= wv);
    if line.len() > 0 {
        crate::text::extend_chars(&mut po, indent);
        crate::text::extend_chars(&mut po, &line);
        po.push('\n');
    }
    po
}

/// Wraps text to lines of at most `width` bytes, each prefixed by `indent`.
fn wrap_chars(text: &Vec<char>, indent: &Vec<char>, width: usize) -> (r: Vec<char>)
    ensures
        r@ == wrap_of(text@, indent@, width as nat),
{
    let paras = split_on(text, Sep::Char('\n'));
    let ghost pv = paras.deep_view();
    let mut out: Vec<char> = Vec::new();
    let mut i: usize = 0;
    assert(pv.take(0) =~= Seq::<Seq<char>>::empty());
    while i < paras.len()
        invariant
            i <= paras.len(),
            pv == paras.deep_view(),
            out@ == wrap_paras(pv.take(i as int), indent@, width as nat),
        decreases paras.len() - i,
    {
        assert(paras[i as int].deep_view() =~= paras[i as int]@);
        let part = wrap_para_exec(&paras[i], indent, width);
        crate::text::extend_chars(&mut out, &part);
        proof {
            let t = pv.take(i + 1);
            assert(t.drop_last() =~= pv.take(i as int));
            assert(t.last() == paras[i as int]@);
        }
        i = i + 1;
    }
    assert(pv.take(paras.len() as int) =~= pv);
    out
}

/// The first sentence of a description (up to the first ". "), with newlines as spaces,
/// cut to 160 bytes (157 and `...`). A cut that would split a character is left out.
pub fn first_sentence(desc: &str) -> (r: String)
    requires
        first_sentence_of(desc@) is Some,
    ensures
        Some(r@) == first_sentence_of(desc@),
{
    let d = desc.to_owned();
    match first_sentence_chars(&d) {
        Some(x) => string_of(&x),
        None => String::new(),
    }
}

/// Greedy filling of `text` into lines of at most `width` bytes (a longer word stays
/// whole on its own line), paragraph by paragraph, each line prefixed by `indent`.
pub fn wrap(text: &str, indent: &str, width: usize) -> (r: String)
    ensures
        r@ == wrap_of(text@, indent@, width as nat),
{
    string_of(&wrap_chars(&chars_of(text), &chars_of(indent), width))
}

/// The strings of a node's `required` list.
fn required_exec(node: &Json) -> (r: Vec<Vec<char>>)
    ensures
        r.deep_view() == required_names(node@),
{
    let mut r: Vec<Vec<char>> = Vec::new();
    match node.get("required") {
        Some(Json::Array(a)) => {
            let ghost av = jv_items(a@);
            let ghost f = |v: JsonV| match v {
                JsonV::Str(s) => Some(s),
                _ => None,
            };
            proof { lemma_jv_items_index_all(a@); }
            let mut i: usize = 0;
            assert(av.take(0) =~= Seq::<JsonV>::empty());
            while i < a.len()
                invariant
                    i <= a.len(),
                    av == jv_items(a@),
                    av.len() == a@.len(),
                    forall|j: int| 0 <= j < a@.len() ==> #[trigger] av[j] == jv(a@[j]),
                    f == (|v: JsonV| match v {
                        JsonV::Str(s) => Some(s),
                        _ => None,
                    }),
                    r.deep_view() == av.take(i as int).filter_map(f),
                decreases a.len() - i,
            {
                proof {
                    let t = av.take(i + 1);
                    assert(t.drop_last() =~= av.take(i as int));
                    assert(t.last() == jv(a@[i as int]));
                }
                let ghost before = r.deep_view();
                match &a[i] {
                    Json::Str(s) => {
                        let c = chars_of(s.as_str());
                        assert(c.deep_view() =~= c@);
                        r.push(c);
                        assert(r.deep_view() =~= before + seq![s@]);
                    },
                    _ => {},
                }
                i = i + 1;
            }
            assert(av.take(a.len() as int) =~= av);
        },
        _ => {
            assert(r.deep_view() =~= Seq::<Seq<char>>::empty());
        },
    }
    r
}

fn contains_chars(list: &Vec<Vec<char>>, x: &Vec<char>) -> (r: bool)
    ensures
        r == list.deep_view().contains(x@),
{
    let mut i: usize = 0;
    while i < list.len()
        invariant
            i <= list.len(),
            forall|j: int| 0 <= j < i ==> #[trigger] list.deep_view()[j] != x@,
        decreases list.len() - i,
    {
        assert(list[i as int].deep_view() =~= list[i as int]@);
        if crate::text::chars_eq(&list[i], x) {
            assert(list.deep_view()[i as int] == x@);
            return true;
        }
        i = i + 1;
    }
    false
}

fn spaces_exec(n: usize) -> (r: Vec<char>)
    ensures
        r@ == spaces(n as nat),
{
    let mut r: Vec<char> = Vec::new();
    let mut i: usize = 0;
    while i < n
        invariant
            i <= n,
            r@ == spaces(i as nat),
        decreases n - i,
    {
        r.push(' ');
        i = i + 1;
        assert(r@ =~= spaces(i as nat));
    }
    r
}

proof fn lemma_entries_prefix(
    root: JsonV,
    props: crate::json::Members,
    n: nat,
    m: nat,
    required: Seq<Seq<char>>,
    depth: nat,
    indent: nat,
    out: Seq<char>,
    fuel: nat,
)
    requires
        n <= m <= props.len(),
        entries_listing(root, props, m, required, depth, indent, out, fuel) is Some,
    ensures
        entries_listing(root, props, n, required, depth, indent, out, fuel) is Some,
        entries_listing(root, props, n, required, depth, indent, out, fuel).unwrap().1 ==> entries_listing(
            root,
            props,
            m,
            required,
            depth,
            indent,
            out,
            fuel,
        ) == entries_listing(root, props, n, required, depth, indent, out, fuel),
    decreases m - n,
{
    if n < m {
        lemma_entries_prefix(root, props, n, (m - 1) as nat, required, depth, indent, out, fuel);
    }
}

/// The listing of one property.
#[verifier::rlimit(60)]
#[verifier::spinoff_prover]
fn field_entry_exec(
    root: &Json,
    name: &String,
    sub: &Json,
    required: &Vec<Vec<char>>,
    depth: u8,
    indent: usize,
    out: &mut Vec<char>,
    Ghost(fuel): Ghost<nat>,
) -> (stopped: bool)
    requires
        indent + 4 * (depth as int) <= usize::MAX,
        field_entry(root@, name@, sub@, required.deep_view(), depth as nat, indent as nat, old(out)@, fuel) is Some,
    ensures
        Some((final(out)@, stopped)) == field_entry(
            root@,
            name@,
            sub@,
            required.deep_view(),
            depth as nat,
            indent as nat,
            old(out)@,
            fuel,
        ),
    decreases depth, 0nat,
{
    let ghost o0 = out@;
    let ghost reqs = required.deep_view();
    let pad = spaces_exec(indent);
    let d = deref_fuel(root, sub, Ghost(fuel));
    let tl = type_label_fuel(root, sub, Ghost(fuel));
    let name_c = chars_of(name.as_str());
    crate::text::extend_chars(out, &pad);
    crate::text::extend_chars(out, &name_c);
    out.push('\t');
    out.push('<');
    crate::text::extend_chars(out, &chars_of(tl.as_str()));
    out.push('>');
    let is_req = contains_chars(required, &name_c);
    if is_req {
        crate::text::extend_chars(out, &chars_of(" -required-"));
    }
    out.push('\n');
    let ghost req_s = if reqs.contains(name@) {
        " -required-"@
    } else {
        Seq::<char>::empty()
    };
    assert(out@ =~= o0 + spaces(indent as nat) + name@ + seq!['\t', '<'] + tl@ + seq!['>'] + req_s + seq!['\n']);
    let ghost out1 = out@;
    match d.get("description") {
        Some(Json::Str(desc)) => {
            let fs = match first_sentence_chars(desc) {
                Some(x) => x,
                None => Vec::new(),
            };
            crate::text::extend_chars(out, &pad);
            out.push(' ');
            out.push(' ');
            crate::text::extend_chars(out, &fs);
            out.push('\n');
            assert(out@ =~= out1 + spaces(indent as nat) + seq![' ', ' '] + fs@ + seq!['\n']);
        },
        _ => {},
    }
    let ghost out2 = out@;
    assert(field_entry(root@, name@, sub@, reqs, depth as nat, indent as nat, o0, fuel) == {
        let out3 = if depth > 1 && byte_len(out2) < MAX_EXPLAIN_BYTES {
            match unwrap_arrays(root@, d@, 3, fuel) {
                None => None,
                Some(inner) => if get(inner, "properties"@) is Some {
                    fields_listing(root@, inner, (depth - 1) as nat, indent as nat + 4, out2, fuel)
                } else {
                    Some(out2)
                },
            }
        } else {
            Some(out2)
        };
        match out3 {
            None => None,
            Some(out3) => {
                let out4 = out3.push('\n');
                if byte_len(out4) > MAX_EXPLAIN_BYTES {
                    Some((out4 + truncation_note(spaces(indent as nat)), true))
                } else {
                    Some((out4, false))
                }
            },
        }
    });
    if depth > 1 && !crate::text::byte_len_exceeds(out, MAX_EXPLAIN_BYTES - 1) {
        let inner = unwrap_arrays_exec(root, d, Ghost(fuel));
        if inner.get("properties").is_some() {
            fields_listing_exec(root, &inner, depth - 1, indent + 4, out, Ghost(fuel));
        }
    }
    out.push('\n');
    if crate::text::byte_len_exceeds(out, MAX_EXPLAIN_BYTES) {
        let ghost out4 = out@;
        crate::text::extend_chars(out, &pad);
        crate::text::extend_chars(out, &chars_of("... output truncated; narrow with `path`\n"));
        assert(out@ =~= out4 + truncation_note(spaces(indent as nat)));
        return true;
    }
    false
}

/// The FIELDS listing of a node, appended to `out`.
fn fields_listing_exec(
    root: &Json,
    node: &Json,
    depth: u8,
    indent: usize,
    out: &mut Vec<char>,
    Ghost(fuel): Ghost<nat>,
)
    requires
        indent + 4 * (depth as int) <= usize::MAX,
        fields_listing(root@, node@, depth as nat, indent as nat, old(out)@, fuel) is Some,
    ensures
        Some(final(out)@) == fields_listing(root@, node@, depth as nat, indent as nat, old(out)@, fuel),
    decreases depth, 1nat,
{
    match node.get("properties") {
        Some(Json::Object(props)) => {
            let required = required_exec(node);
            let ghost pv = jv_members(props@);
            let ghost out0 = out@;
            proof { lemma_jv_members_index_all(props@); }
            let mut stopped = false;
            let mut i: usize = 0;
            while i < props.len() && !stopped
                invariant
                    i <= props.len(),
                    pv == jv_members(props@),
                    pv.len() == props@.len(),
                    forall|j: int| 0 <= j < props@.len() ==> #[trigger] pv[j] == (props@[j].0@, jv(props@[j].1)),
                    indent + 4 * (depth as int) <= usize::MAX,
                    entries_listing(root@, pv, pv.len(), required.deep_view(), depth as nat, indent as nat, out0, fuel) is Some,
                    entries_listing(root@, pv, i as nat, required.deep_view(), depth as nat, indent as nat, out0, fuel)
                        == Some((out@, stopped)),
                decreases props.len() - i,
            {
                proof {
                    lemma_entries_prefix(root@, pv, i as nat + 1, pv.len(), required.deep_view(), depth as nat, indent as nat, out0, fuel);
                }
                stopped = field_entry_exec(root, &props[i].0, &props[i].1, &required, depth, indent, out, Ghost(fuel));
                i = i + 1;
            }
            proof {
                lemma_entries_prefix(root@, pv, i as nat, pv.len(), required.deep_view(), depth as nat, indent as nat, out0, fuel);
            }
        },
        _ => match node.get("additionalProperties") {
            Some(ap) => match ap {
                Json::Object(_) => {
                    let tl = type_label_fuel(root, ap, Ghost(fuel));
                    crate::text::extend_chars(out, &spaces_exec(indent));
                    crate::text::extend_chars(out, &chars_of("<key> <"));
                    crate::text::extend_chars(out, &chars_of(tl.as_str()));
                    out.push('>');
                    out.push('\n');
                },
                _ => {},
            },
            None => {},
        },
    }
}

fn push_lit(out: &mut Vec<char>, s: &str)
    ensures
        final(out)@ == old(out)@ + s@,
{
    crate::text::extend_chars(out, &chars_of(s));
}

fn push_string(out: &mut Vec<char>, s: &String)
    ensures
        final(out)@ == old(out)@ + s@,
{
    crate::text::extend_chars(out, &chars_of(s.as_str()));
}

/// The header lines of an explanation.
fn header_exec(k: &KindRef) -> (r: Vec<char>)
    ensures
        r@ == header_of(*k),
{
    let mut out: Vec<char> = Vec::new();
    push_lit(&mut out, "KIND:       ");
    push_string(&mut out, &k.kind);
    push_lit(&mut out, "\nVERSION:    ");
    push_string(&mut out, &k.group_version());
    push_lit(&mut out, "\nPROJECT:    ");
    push_string(&mut out, &k.project);
    out.push(' ');
    push_string(&mut out, &k.version);
    push_lit(&mut out, " (");
    if k.pinned {
        push_lit(&mut out, "pinned");
    } else {
        push_lit(&mut out, "unpinned latest");
    }
    push_lit(&mut out, ", source: ");
    push_string(&mut out, &k.source);
    push_lit(&mut out, ")\n");
    let ghost head = out@;
    match &k.scope {
        Some(sc) => {
            push_lit(&mut out, "SCOPE:      ");
            push_string(&mut out, sc);
            out.push('\n');
            assert(out@ =~= head + "SCOPE:      "@ + sc@ + seq!['\n']);
        },
        None => {},
    }
    assert(out@ =~= header_of(*k));
    out
}

/// The JSON texts of a list of values.
fn enum_texts_exec(e: &Vec<Json>) -> (r: Vec<Vec<char>>)
    ensures
        r.deep_view() == enum_texts(jv_items(e@)),
{
    let mut r: Vec<Vec<char>> = Vec::new();
    proof { lemma_jv_items_index_all(e@); }
    let mut i: usize = 0;
    while i < e.len()
        invariant
            i <= e.len(),
            jv_items(e@).len() == e@.len(),
            forall|j: int| 0 <= j < e@.len() ==> #[trigger] jv_items(e@)[j] == jv(e@[j]),
            r.deep_view() == enum_texts(jv_items(e@).take(i as int)),
        decreases e.len() - i,
    {
        let t = chars_of(to_text(&e[i]).as_str());
        assert(t@ =~= json_text(jv(e@[i as int])));
        let ghost before = r.deep_view();
        assert(t.deep_view() =~= t@);
        r.push(t);
        assert(r.deep_view() =~= before.push(json_text(jv(e@[i as int]))));
        assert(enum_texts(jv_items(e@).take(i + 1)) =~= enum_texts(jv_items(e@).take(i as int)).push(json_text(jv(e@[i as int]))));
        i = i + 1;
    }
    assert(jv_items(e@).take(e.len() as int) =~= jv_items(e@));
    r
}

fn clamp_depth_exec(d: u8) -> (r: u8)
    ensures
        r as nat == clamp_depth(d),
        1 <= r <= 3,
{
    if d < 1 {
        1
    } else if d > 3 {
        3
    } else {
        d
    }
}

fn render_head(kref: &KindRef, root: &Json, node: &Json, path: &str, Ghost(fuel): Ghost<nat>) -> (r: Vec<char>)
    requires
        head_f(*kref, root@, node@, path@, fuel) is Some,
    ensures
        Some(r@) == head_f(*kref, root@, node@, path@, fuel),
{
    let mut out = header_exec(kref);
    let p = trim_chars(&chars_of(path));
    if p.len() > 0 {
        let tl = type_label_fuel(root, node, Ghost(fuel));
        push_lit(&mut out, "\nFIELD:      ");
        crate::text::extend_chars(&mut out, &p);
        out.push('\t');
        out.push('<');
        push_string(&mut out, &tl);
        out.push('>');
        out.push('\n');
    }
    let desc: Vec<char> = match node.get("description") {
        Some(Json::Str(d)) => chars_of(d.as_str()),
        _ => match &kref.description {
            Some(d) => chars_of(d.as_str()),
            None => chars_of("<no description>"),
        },
    };
    assert(desc@ == description_of(*kref, node@));
    push_lit(&mut out, "\nDESCRIPTION:\n");
    let w = wrap_chars(&desc, &chars_of("    "), 88);
    crate::text::extend_chars(&mut out, &w);
    out
}

fn render_tail(root: &Json, node: &Json, depth: u8, out: &mut Vec<char>, Ghost(fuel): Ghost<nat>)
    requires
        tail_f(root@, node@, depth, old(out)@, fuel) is Some,
    ensures
        Some(final(out)@) == tail_f(root@, node@, depth, old(out)@, fuel),
{
    if node.get("properties").is_some() || node.get("additionalProperties").is_some() {
        push_lit(out, "\nFIELDS:\n");
        fields_listing_exec(root, node, clamp_depth_exec(depth), 2, out, Ghost(fuel));
    }
    match node.get("enum") {
        Some(Json::Array(e)) => {
            let texts = enum_texts_exec(e);
            push_lit(out, "\nENUM: ");
            crate::text::extend_chars(out, &join_chars(&texts, &chars_of(", ")));
            out.push('\n');
        },
        _ => {},
    }
}

/// `render` with fuel.
fn render_fuel(kref: &KindRef, root: &Json, path: &str, depth: u8, Ghost(fuel): Ghost<nat>) -> (r: Result<String, AppError>)
    requires
        render_f(*kref, root@, path@, depth, fuel) is Some,
    ensures
        match (r, render_f(*kref, root@, path@, depth, fuel).unwrap()) {
            (Ok(s), Ok(t)) => s@ == t,
            (Err(e), Err(m)) => is_not_found(e, m),
            _ => false,
        },
{
    let node = match walk_fuel(root, path, Ghost(fuel)) {
        Ok(n) => n,
        Err(e) => {
            return Err(e);
        },
    };
    let mut out = render_head(kref, root, &node, path, Ghost(fuel));
    render_tail(root, &node, depth, &mut out, Ghost(fuel));
    Ok(string_of(&out))
}


proof fn lemma_entries_none(
    root: JsonV,
    props: crate::json::Members,
    n: nat,
    m: nat,
    required: Seq<Seq<char>>,
    depth: nat,
    indent: nat,
    out: Seq<char>,
    fuel: nat,
)
    requires
        n <= m <= props.len(),
        entries_listing(root, props, n, required, depth, indent, out, fuel) is None,
    ensures
        entries_listing(root, props, m, required, depth, indent, out, fuel) is None,
    decreases m - n,
{
    if n < m {
        lemma_entries_none(root, props, n, (m - 1) as nat, required, depth, indent, out, fuel);
    }
}

proof fn lemma_entries_stopped(
    root: JsonV,
    props: crate::json::Members,
    n: nat,
    m: nat,
    required: Seq<Seq<char>>,
    depth: nat,
    indent: nat,
    out: Seq<char>,
    fuel: nat,
    o: Seq<char>,
)
    requires
        n <= m <= props.len(),
        entries_listing(root, props, n, required, depth, indent, out, fuel) == Some((o, true)),
    ensures
        entries_listing(root, props, m, required, depth, indent, out, fuel) == Some((o, true)),
    decreases m - n,
{
    if n < m {
        lemma_entries_stopped(root, props, n, (m - 1) as nat, required, depth, indent, out, fuel, o);
    }
}

/// The listing of one property with at most `fuel` nested steps: `None` when that is
/// not enough (or a description cannot be cut), else whether the listing stopped.
#[verifier::rlimit(60)]
#[verifier::spinoff_prover]
fn field_entry_bounded(
    root: &Json,
    name: &String,
    sub: &Json,
    required: &Vec<Vec<char>>,
    depth: u8,
    indent: usize,
    out: &mut Vec<char>,
    fuel: u64,
) -> (r: Option<bool>)
    requires
        indent + 4 * (depth as int) <= usize::MAX,
    ensures
        match r {
            Some(stopped) => Some((final(out)@, stopped)) == field_entry(
                root@,
                name@,
                sub@,
                required.deep_view(),
                depth as nat,
                indent as nat,
                old(out)@,
                fuel as nat,
            ),
            None => field_entry(
                root@,
                name@,
                sub@,
                required.deep_view(),
                depth as nat,
                indent as nat,
                old(out)@,
                fuel as nat,
            ) is None,
        },
    decreases depth, 0nat,
{
    let ghost f = fuel as nat;
    let ghost o0 = out@;
    let ghost reqs = required.deep_view();
    if !deref_finishes(root, sub, fuel) || !type_label_finishes(root, sub, fuel) {
        return None;
    }
    let pad = spaces_exec(indent);
    let d = deref_fuel(root, sub, Ghost(f));
    let tl = type_label_fuel(root, sub, Ghost(f));
    let name_c = chars_of(name.as_str());
    crate::text::extend_chars(out, &pad);
    crate::text::extend_chars(out, &name_c);
    out.push('\t');
    out.push('<');
    crate::text::extend_chars(out, &chars_of(tl.as_str()));
    out.push('>');
    let is_req = contains_chars(required, &name_c);
    if is_req {
        crate::text::extend_chars(out, &chars_of(" -required-"));
    }
    out.push('\n');
    let ghost req_s = if reqs.contains(name@) {
        " -required-"@
    } else {
        Seq::<char>::empty()
    };
    assert(out@ =~= o0 + spaces(indent as nat) + name@ + seq!['\t', '<'] + tl@ + seq!['>'] + req_s + seq!['\n']);
    let ghost out1 = out@;
    match d.get("description") {
        Some(Json::Str(desc)) => {
            let fs = match first_sentence_chars(desc) {
                Some(x) => x,
                None => {
                    return None;
                },
            };
            crate::text::extend_chars(out, &pad);
            out.push(' ');
            out.push(' ');
            crate::text::extend_chars(out, &fs);
            out.push('\n');
            assert(out@ =~= out1 + spaces(indent as nat) + seq![' ', ' '] + fs@ + seq!['\n']);
        },
        _ => {},
    }
    let ghost out2 = out@;
    assert(field_entry(root@, name@, sub@, reqs, depth as nat, indent as nat, o0, f) == {
        let out3 = if depth > 1 && byte_len(out2) < MAX_EXPLAIN_BYTES {
            match unwrap_arrays(root@, d@, 3, f) {
                None => None,
                Some(inner) => if get(inner, "properties"@) is Some {
                    fields_listing(root@, inner, (depth - 1) as nat, indent as nat + 4, out2, f)
                } else {
                    Some(out2)
                },
            }
        } else {
            Some(out2)
        };
        match out3 {
            None => None,
            Some(out3) => {
                let out4 = out3.push('\n');
                if byte_len(out4) > MAX_EXPLAIN_BYTES {
                    Some((out4 + truncation_note(spaces(indent as nat)), true))
                } else {
                    Some((out4, false))
                }
            },
        }
    });
    if depth > 1 && !crate::text::byte_len_exceeds(out, MAX_EXPLAIN_BYTES - 1) {
        let inner = match unwrap_arrays_bounded(root, d, fuel) {
            Some(x) => x,
            None => {
                return None;
            },
        };
        if inner.get("properties").is_some() {
            if !fields_listing_bounded(root, &inner, depth - 1, indent + 4, out, fuel) {
                return None;
            }
        }
    }
    out.push('\n');
    if crate::text::byte_len_exceeds(out, MAX_EXPLAIN_BYTES) {
        let ghost out4 = out@;
        crate::text::extend_chars(out, &pad);
        crate::text::extend_chars(out, &chars_of("... output truncated; narrow with `path`\n"));
        assert(out@ =~= out4 + truncation_note(spaces(indent as nat)));
        return Some(true);
    }
    Some(false)
}

/// The FIELDS listing of a node with at most `fuel` nested steps; `false` when that is
/// not enough.
fn fields_listing_bounded(root: &Json, node: &Json, depth: u8, indent: usize, out: &mut Vec<char>, fuel: u64) -> (done: bool)
    requires
        indent + 4 * (depth as int) <= usize::MAX,
    ensures
        done == fields_listing(root@, node@, depth as nat, indent as nat, old(out)@, fuel as nat) is Some,
        done ==> Some(final(out)@) == fields_listing(root@, node@, depth as nat, indent as nat, old(out)@, fuel as nat),
    decreases depth, 1nat,
{
    let ghost f = fuel as nat;
    match node.get("properties") {
        Some(Json::Object(props)) => {
            let required = required_exec(node);
            let ghost pv = jv_members(props@);
            let ghost out0 = out@;
            proof { lemma_jv_members_index_all(props@); }
            let mut stopped = false;
            let mut i: usize = 0;
            while i < props.len() && !stopped
                invariant
                    i <= props.len(),
                    f == fuel as nat,
                    pv == jv_members(props@),
                    pv.len() == props@.len(),
                    forall|j: int| 0 <= j < props@.len() ==> #[trigger] pv[j] == (props@[j].0@, jv(props@[j].1)),
                    indent + 4 * (depth as int) <= usize::MAX,
                    out0 == old(out)@,
                    as_object(get(node@, "properties"@)) == Some(pv),
                    required.deep_view() == required_names(node@),
                    entries_listing(root@, pv, i as nat, required.deep_view(), depth as nat, indent as nat, out0, f)
                        == Some((out@, stopped)),
                decreases props.len() - i,
            {
                match field_entry_bounded(root, &props[i].0, &props[i].1, &required, depth, indent, out, fuel) {
                    Some(st) => {
                        stopped = st;
                    },
                    None => {
                        proof {
                            assert(pv[i as int] == (props@[i as int].0@, jv(props@[i as int].1)));
                            assert(entries_listing(root@, pv, i as nat + 1, required.deep_view(), depth as nat, indent as nat, out0, f) is None);
                            lemma_entries_none(root@, pv, i as nat + 1, pv.len(), required.deep_view(), depth as nat, indent as nat, out0, f);
                            assert(as_object(get(node@, "properties"@)) == Some(pv));
                            assert(required.deep_view() == required_names(node@));
                        }
                        return false;
                    },
                }
                i = i + 1;
            }
            proof {
                if stopped {
                    lemma_entries_stopped(root@, pv, i as nat, pv.len(), required.deep_view(), depth as nat, indent as nat, out0, f, out@);
                }
            }
            true
        },
        _ => match node.get("additionalProperties") {
            Some(ap) => match ap {
                Json::Object(_) => {
                    if !type_label_finishes(root, ap, fuel) {
                        return false;
                    }
                    let tl = type_label_fuel(root, ap, Ghost(f));
                    crate::text::extend_chars(out, &spaces_exec(indent));
                    crate::text::extend_chars(out, &chars_of("<key> <"));
                    crate::text::extend_chars(out, &chars_of(tl.as_str()));
                    out.push('>');
                    out.push('\n');
                    true
                },
                _ => true,
            },
            None => true,
        },
    }
}

/// `render` with at most `fuel` steps of nesting: `None` when that is not enough,
/// otherwise what `render` gives.
pub fn render_bounded(kref: &KindRef, root: &Json, path: &str, depth: u8, fuel: u64) -> (r: Option<Result<String, AppError>>)
    ensures
        match r {
            None => render_f(*kref, root@, path@, depth, fuel as nat) is None,
            Some(Ok(t)) => render_f(*kref, root@, path@, depth, fuel as nat) == Some(Ok::<Seq<char>, Seq<char>>(t@)),
            Some(Err(e)) => render_f(*kref, root@, path@, depth, fuel as nat) matches Some(Err(m)) && is_not_found(e, m),
        },
{
    let ghost f = fuel as nat;
    let node = match walk_bounded(root, path, fuel) {
        None => {
            return None;
        },
        Some(Err(e)) => {
            return Some(Err(e));
        },
        Some(Ok(n)) => n,
    };
    let p = trim_chars(&chars_of(path));
    if p.len() > 0 && !type_label_finishes(root, &node, fuel) {
        return None;
    }
    let mut out = render_head(kref, root, &node, path, Ghost(f));
    if node.get("properties").is_some() || node.get("additionalProperties").is_some() {
        push_lit(&mut out, "\nFIELDS:\n");
        if !fields_listing_bounded(root, &node, clamp_depth_exec(depth), 2, &mut out, fuel) {
            return None;
        }
    }
    Some(render_fuel(kref, root, path, depth, Ghost(f)))
}

/// What `render` gives when it finishes.
pub open spec fn render_of(k: KindRef, root: JsonV, path: Seq<char>, depth: u8) -> Result<Seq<char>, Seq<char>> {
    render_f(k, root, path, depth, choose|f: nat| render_f(k, root, path, depth, f) is Some).unwrap()
}

/// kubectl-explain style text for the node at `path`: header, field type, wrapped
/// description, the FIELDS listing `depth` levels deep (1..3) and enum values.
pub fn render(kref: &KindRef, root: &Json, path: &str, depth: u8) -> (r: Result<String, AppError>)
    requires
        exists|f: nat| render_f(*kref, root@, path@, depth, f) is Some,
    ensures
        match (r, render_of(*kref, root@, path@, depth)) {
            (Ok(s), Ok(t)) => s@ == t,
            (Err(e), Err(m)) => is_not_found(e, m),
            _ => false,
        },
{
    let ghost f = choose|f: nat| render_f(*kref, root@, path@, depth, f) is Some;
    render_fuel(kref, root, path, depth, Ghost(f))
}

proof fn lemma_refs_members_prefix(root: JsonV, o: crate::json::Members, n: nat, m: nat, acc: Seq<Seq<char>>, fuel: nat)
    requires
        1 <= n <= m <= o.len(),
        refs_members(root, o, m, acc, fuel) is Some,
    ensures
        refs_members(root, o, (n - 1) as nat, acc, fuel) is Some,
        refs_f(root, o[n - 1].1, refs_members(root, o, (n - 1) as nat, acc, fuel).unwrap(), fuel) is Some,
    decreases m - n,
{
    if n < m {
        lemma_refs_members_prefix(root, o, n, (m - 1) as nat, acc, fuel);
    }
}

proof fn lemma_refs_items_prefix(root: JsonV, a: Seq<JsonV>, n: nat, m: nat, acc: Seq<Seq<char>>, fuel: nat)
    requires
        1 <= n <= m <= a.len(),
        refs_items(root, a, m, acc, fuel) is Some,
    ensures
        refs_items(root, a, (n - 1) as nat, acc, fuel) is Some,
        refs_f(root, a[n - 1], refs_items(root, a, (n - 1) as nat, acc, fuel).unwrap(), fuel) is Some,
    decreases m - n,
{
    if n < m {
        lemma_refs_items_prefix(root, a, n, (m - 1) as nat, acc, fuel);
    }
}

/// Collects names of definitions transitively referenced by `node` (with fuel).
fn refs_fuel(root: &Json, node: &Json, acc: &mut Vec<Vec<char>>, Ghost(fuel): Ghost<nat>)
    requires
        refs_f(root@, node@, old(acc).deep_view(), fuel) is Some,
    ensures
        Some(final(acc).deep_view()) == refs_f(root@, node@, old(acc).deep_view(), fuel),
    decreases fuel, node,
{
    match node {
        Json::Object(o) => {
            let ghost a0 = acc.deep_view();
            proof { crate::json::lemma_jv_members_len(o@); }
            match find_member(o, "$ref") {
                Some(i) => match &o[i].1 {
                    Json::Str(r) => {
                        let name = chars_of(ref_name_exec(r).as_str());
                        if !contains_chars(acc, &name) {
                            assert(name.deep_view() =~= name@);
                            acc.push(name.clone());
                            assert(acc.deep_view() =~= a0.push(name@));
                            match definition_exec(root, string_of(&name).as_str()) {
                                Some(def) => {
                                    refs_fuel(root, def, acc, Ghost((fuel - 1) as nat));
                                },
                                None => {},
                            }
                        }
                    },
                    _ => {},
                },
                None => {},
            }
            refs_members_exec(root, o, acc, Ghost(fuel));
        },
        Json::Array(a) => {
            proof { crate::json::lemma_jv_items_len(a@); }
            refs_items_exec(root, a, acc, Ghost(fuel));
        },
        _ => {},
    }
}

fn refs_members_exec(root: &Json, o: &Vec<(String, Json)>, acc: &mut Vec<Vec<char>>, Ghost(fuel): Ghost<nat>)
    requires
        refs_members(root@, jv_members(o@), o@.len(), old(acc).deep_view(), fuel) is Some,
    ensures
        Some(final(acc).deep_view()) == refs_members(root@, jv_members(o@), o@.len(), old(acc).deep_view(), fuel),
    decreases fuel, o,
{
    let ghost a0 = acc.deep_view();
    let ghost ov = jv_members(o@);
    proof { lemma_jv_members_index_all(o@); }
    let mut i: usize = 0;
    while i < o.len()
        invariant
            i <= o.len(),
            ov == jv_members(o@),
            ov.len() == o@.len(),
            forall|j: int| 0 <= j < o@.len() ==> #[trigger] ov[j] == (o@[j].0@, jv(o@[j].1)),
            refs_members(root@, ov, ov.len(), a0, fuel) is Some,
            refs_members(root@, ov, i as nat, a0, fuel) == Some(acc.deep_view()),
        decreases o.len() - i,
    {
        proof { lemma_refs_members_prefix(root@, ov, i as nat + 1, ov.len(), a0, fuel); }
        assert(decreases_to!(o => o@[i as int].1));
        refs_fuel(root, &o[i].1, acc, Ghost(fuel));
        i = i + 1;
    }
}

fn refs_items_exec(root: &Json, a: &Vec<Json>, acc: &mut Vec<Vec<char>>, Ghost(fuel): Ghost<nat>)
    requires
        refs_items(root@, jv_items(a@), a@.len(), old(acc).deep_view(), fuel) is Some,
    ensures
        Some(final(acc).deep_view()) == refs_items(root@, jv_items(a@), a@.len(), old(acc).deep_view(), fuel),
    decreases fuel, a,
{
    let ghost a0 = acc.deep_view();
    let ghost av = jv_items(a@);
    proof { lemma_jv_items_index_all(a@); }
    let mut i: usize = 0;
    while i < a.len()
        invariant
            i <= a.len(),
            av == jv_items(a@),
            av.len() == a@.len(),
            forall|j: int| 0 <= j < a@.len() ==> #[trigger] av[j] == jv(a@[j]),
            refs_items(root@, av, av.len(), a0, fuel) is Some,
            refs_items(root@, av, i as nat, a0, fuel) == Some(acc.deep_view()),
        decreases a.len() - i,
    {
        proof { lemma_refs_items_prefix(root@, av, i as nat + 1, av.len(), a0, fuel); }
        assert(decreases_to!(a => a@[i as int]));
        refs_fuel(root, &a[i], acc, Ghost(fuel));
        i = i + 1;
    }
}

/// The definitions named in `names`, as an object.
fn picked_exec(defs: &Vec<(String, Json)>, names: &Vec<Vec<char>>) -> (r: Vec<(String, Json)>)
    ensures
        jv_members(r@) == picked_definitions(jv_members(defs@), names.deep_view()),
{
    let mut r: Vec<(String, Json)> = Vec::new();
    let ghost nv = names.deep_view();
    let mut i: usize = 0;
    assert(nv.take(0) =~= Seq::<Seq<char>>::empty());
    assert(jv_members(r@) =~= Seq::<(Seq<char>, JsonV)>::empty());
    while i < names.len()
        invariant
            i <= names.len(),
            nv == names.deep_view(),
            jv_members(r@) == picked_definitions(jv_members(defs@), nv.take(i as int)),
        decreases names.len() - i,
    {
        assert(names[i as int].deep_view() =~= names[i as int]@);
        proof {
            let t = nv.take(i + 1);
            assert(t.drop_last() =~= nv.take(i as int));
            assert(t.last() == names[i as int]@);
        }
        let name = string_of(&names[i]);
        match find_member(defs, name.as_str()) {
            Some(j) => {
                insert_member(&mut r, name, defs[j].1.duplicate());
            },
            None => {},
        }
        i = i + 1;
    }
    assert(nv.take(names.len() as int) =~= nv);
    r
}

/// `subtree` with fuel.
#[verifier::rlimit(60)]
#[verifier::spinoff_prover]
fn subtree_fuel(root: &Json, path: &str, Ghost(fuel): Ghost<nat>) -> (r: Result<Json, AppError>)
    requires
        subtree_f(root@, path@, fuel) is Some,
    ensures
        match (r, subtree_f(root@, path@, fuel).unwrap()) {
            (Ok(n), Ok(m)) => n@ == m,
            (Err(e), Err(m)) => is_not_found(e, m),
            _ => false,
        },
{
    let node = match walk_fuel(root, path, Ghost(fuel)) {
        Ok(n) => n,
        Err(e) => {
            return Err(e);
        },
    };
    let mut names: Vec<Vec<char>> = Vec::new();
    assert(names.deep_view() =~= Seq::<Seq<char>>::empty());
    refs_fuel(root, &node, &mut names, Ghost(fuel));
    let mut out: Vec<(String, Json)> = Vec::new();
    push_member(&mut out, "$schema".to_owned(), Json::Str("http://json-schema.org/draft-04/schema#".to_owned()));
    assert(jv_members(out@) =~= seq![("$schema"@, JsonV::Str(schema_uri()))]);
    match &node {
        Json::Object(o) => {
            extend_members(&mut out, o);
        },
        _ => {},
    }
    match definitions_exec(root) {
        Some(defs) => {
            if names.len() > 0 {
                let picked = picked_exec(defs, &names);
                insert_member(&mut out, "definitions".to_owned(), Json::Object(picked));
            }
        },
        None => {},
    }
    let v = Json::Object(out);
    let ghost names_v = names.deep_view();
    assert(v@ == standalone_schema(root@, node@, names_v));
    let text = chars_of(to_text(&v).as_str());
    assert(text@ =~= json_text(v@));
    let size = crate::text::byte_count(&text);
    if size > 65536 {
        let names_p = property_names_exec(&node);
        let mut items: Vec<Json> = Vec::new();
        let mut i: usize = 0;
        while i < names_p.len()
            invariant
                i <= names_p.len(),
                jv_items(items@) == property_names(node@).take(i as int).map_values(|s: Seq<char>| JsonV::Str(s)),
                names_p.deep_view() == property_names(node@),
            decreases names_p.len() - i,
        {
            assert(names_p[i as int].deep_view() =~= names_p[i as int]@);
            let ghost before = jv_items(items@);
            push_item(&mut items, Json::Str(string_of(&names_p[i])));
            i = i + 1;
            assert(jv_items(items@) =~= property_names(node@).take(i as int).map_values(|s: Seq<char>| JsonV::Str(s)));
        }
        assert(property_names(node@).take(names_p.len() as int) =~= property_names(node@));
        let mut summary: Vec<(String, Json)> = Vec::new();
        push_member(&mut summary, "hint".to_owned(), Json::Str("schema too large; pass a deeper `path` (e.g. spec.containers) or use `explain`".to_owned()));
        push_member(&mut summary, "properties".to_owned(), Json::Array(items));
        push_member(&mut summary, "size_bytes".to_owned(), Json::Number(string_of(&crate::json::decimal_text(size))));
        push_member(&mut summary, "truncated".to_owned(), Json::Bool(true));
        let r = Json::Object(summary);
        assert(jv_members(summary@) =~= seq![
            ("hint"@, JsonV::Str(too_large_hint())),
            ("properties"@, JsonV::Array(property_names(node@).map_values(|s: Seq<char>| JsonV::Str(s)))),
            ("size_bytes"@, JsonV::Number(crate::json::decimal(size as nat))),
            ("truncated"@, JsonV::Bool(true)),
        ]);
        return Ok(r);
    }
    Ok(v)
}


proof fn lemma_refs_members_none(root: JsonV, o: Members, n: nat, m: nat, acc: Seq<Seq<char>>, fuel: nat)
    requires
        n <= m <= o.len(),
        refs_members(root, o, n, acc, fuel) is None,
    ensures
        refs_members(root, o, m, acc, fuel) is None,
    decreases m - n,
{
    if n < m {
        lemma_refs_members_none(root, o, n, (m - 1) as nat, acc, fuel);
    }
}

proof fn lemma_refs_items_none(root: JsonV, a: Seq<JsonV>, n: nat, m: nat, acc: Seq<Seq<char>>, fuel: nat)
    requires
        n <= m <= a.len(),
        refs_items(root, a, n, acc, fuel) is None,
    ensures
        refs_items(root, a, m, acc, fuel) is None,
    decreases m - n,
{
    if n < m {
        lemma_refs_items_none(root, a, n, (m - 1) as nat, acc, fuel);
    }
}

/// Collects referenced definition names with at most `fuel` nested hops; `false` when
/// that is not enough.
fn refs_bounded(root: &Json, node: &Json, acc: &mut Vec<Vec<char>>, fuel: u64) -> (done: bool)
    ensures
        done == refs_f(root@, node@, old(acc).deep_view(), fuel as nat) is Some,
        done ==> Some(final(acc).deep_view()) == refs_f(root@, node@, old(acc).deep_view(), fuel as nat),
    decreases fuel, node,
{
    match node {
        Json::Object(o) => {
            let ghost a0 = acc.deep_view();
            proof { crate::json::lemma_jv_members_len(o@); }
            match find_member(o, "$ref") {
                Some(i) => match &o[i].1 {
                    Json::Str(r) => {
                        let name = chars_of(ref_name_exec(r).as_str());
                        if !contains_chars(acc, &name) {
                            assert(name.deep_view() =~= name@);
                            acc.push(name.clone());
                            assert(acc.deep_view() =~= a0.push(name@));
                            match definition_exec(root, string_of(&name).as_str()) {
                                Some(def) => {
                                    if fuel == 0 {
                                        return false;
                                    }
                                    if !refs_bounded(root, def, acc, fuel - 1) {
                                        return false;
                                    }
                                },
                                None => {},
                            }
                        }
                    },
                    _ => {},
                },
                None => {},
            }
            refs_members_bounded(root, o, acc, fuel)
        },
        Json::Array(a) => {
            proof { crate::json::lemma_jv_items_len(a@); }
            refs_items_bounded(root, a, acc, fuel)
        },
        _ => true,
    }
}

fn refs_members_bounded(root: &Json, o: &Vec<(String, Json)>, acc: &mut Vec<Vec<char>>, fuel: u64) -> (done: bool)
    ensures
        done == refs_members(root@, jv_members(o@), o@.len(), old(acc).deep_view(), fuel as nat) is Some,
        done ==> Some(final(acc).deep_view()) == refs_members(
            root@,
            jv_members(o@),
            o@.len(),
            old(acc).deep_view(),
            fuel as nat,
        ),
    decreases fuel, o,
{
    let ghost a0 = acc.deep_view();
    let ghost ov = jv_members(o@);
    proof {
        lemma_jv_members_index_all(o@);
        crate::json::lemma_jv_members_len(o@);
    }
    let mut i: usize = 0;
    while i < o.len()
        invariant
            i <= o.len(),
            ov == jv_members(o@),
            ov.len() == o@.len(),
            forall|j: int| 0 <= j < o@.len() ==> #[trigger] ov[j] == (o@[j].0@, jv(o@[j].1)),
            refs_members(root@, ov, i as nat, a0, fuel as nat) == Some(acc.deep_view()),
            a0 == old(acc).deep_view(),
        decreases o.len() - i,
    {
        assert(decreases_to!(o => o@[i as int].1));
        let ghost ai = acc.deep_view();
        if !refs_bounded(root, &o[i].1, acc, fuel) {
            proof {
                assert(refs_members(root@, ov, i as nat + 1, a0, fuel as nat) is None);
                lemma_refs_members_none(root@, ov, i as nat + 1, ov.len(), a0, fuel as nat);
            }
            return false;
        }
        i = i + 1;
    }
    true
}

fn refs_items_bounded(root: &Json, a: &Vec<Json>, acc: &mut Vec<Vec<char>>, fuel: u64) -> (done: bool)
    ensures
        done == refs_items(root@, jv_items(a@), a@.len(), old(acc).deep_view(), fuel as nat) is Some,
        done ==> Some(final(acc).deep_view()) == refs_items(
            root@,
            jv_items(a@),
            a@.len(),
            old(acc).deep_view(),
            fuel as nat,
        ),
    decreases fuel, a,
{
    let ghost a0 = acc.deep_view();
    let ghost av = jv_items(a@);
    proof {
        lemma_jv_items_index_all(a@);
        crate::json::lemma_jv_items_len(a@);
    }
    let mut i: usize = 0;
    while i < a.len()
        invariant
            i <= a.len(),
            av == jv_items(a@),
            av.len() == a@.len(),
            forall|j: int| 0 <= j < a@.len() ==> #[trigger] av[j] == jv(a@[j]),
            refs_items(root@, av, i as nat, a0, fuel as nat) == Some(acc.deep_view()),
            a0 == old(acc).deep_view(),
        decreases a.len() - i,
    {
        assert(decreases_to!(a => a@[i as int]));
        if !refs_bounded(root, &a[i], acc, fuel) {
            proof {
                assert(refs_items(root@, av, i as nat + 1, a0, fuel as nat) is None);
                lemma_refs_items_none(root@, av, i as nat + 1, av.len(), a0, fuel as nat);
            }
            return false;
        }
        i = i + 1;
    }
    true
}

/// `subtree` with at most `fuel` steps of nesting: `None` when that is not enough,
/// otherwise what `subtree` gives.
pub fn subtree_bounded(root: &Json, path: &str, fuel: u64) -> (r: Option<Result<Json, AppError>>)
    ensures
        match r {
            None => subtree_f(root@, path@, fuel as nat) is None,
            Some(Ok(n)) => subtree_f(root@, path@, fuel as nat) == Some(Ok::<JsonV, Seq<char>>(n@)),
            Some(Err(e)) => subtree_f(root@, path@, fuel as nat) matches Some(Err(m)) && is_not_found(e, m),
        },
{
    match walk_bounded(root, path, fuel) {
        None => {
            return None;
        },
        Some(Err(e)) => {
            return Some(Err(e));
        },
        Some(Ok(node)) => {
            let mut names: Vec<Vec<char>> = Vec::new();
            assert(names.deep_view() =~= Seq::<Seq<char>>::empty());
            if !refs_bounded(root, &node, &mut names, fuel) {
                return None;
            }
        },
    }
    Some(subtree_fuel(root, path, Ghost(fuel as nat)))
}

/// What `subtree` gives when it finishes.
pub open spec fn subtree_of(root: JsonV, path: Seq<char>) -> Result<JsonV, Seq<char>> {
    subtree_f(root, path, choose|f: nat| subtree_f(root, path, f) is Some).unwrap()
}

/// Self-contained JSON Schema for the subtree at `path`. Capped at `MAX_SCHEMA_BYTES`.
pub fn subtree(root: &Json, path: &str) -> (r: Result<Json, AppError>)
    requires
        exists|f: nat| subtree_f(root@, path@, f) is Some,
    ensures
        match (r, subtree_of(root@, path@)) {
            (Ok(n), Ok(m)) => n@ == m,
            (Err(e), Err(m)) => is_not_found(e, m),
            _ => false,
        },
{
    let ghost f = choose|f: nat| subtree_f(root@, path@, f) is Some;
    subtree_fuel(root, path, Ghost(f))
}

} // verus!
