//! Placeholder extraction and checks, and the decisions around each request to
//! the translation model: what to send, how to assemble the replies, and which
//! text to keep.
use vstd::prelude::*;
use crate::text::{
    blank, chars_of, contains_str, has_char, is_blank, is_infix, join_strings, joined, leading_white,
    lemma_trim_parts, string_of, trailing_white, trim_parts, trimmed,
};
pub use crate::icu::has_generic_plural;
use crate::icu::{
    apply_literals, arg_names_of, branch_holds, collect_arg_names, collect_literals, element_name,
    generic_in, icu_printed, lemma_collect_apply_roundtrip, lemma_names_collected, literals_of,
    message_tree, nodes_of, parse_message, print_icu, relabel, IcuElement, IcuNode,
};
use crate::types::{
    entry_view, has_key, lemma_entries_from_distinct, lookup, FormattedMessage, IntlFile, MessageMap,
    MessageView,
};

verus! {

// ---------------------------------------------------------------------------
// Placeholders by brace matching.

/// The index of the `}` that closes a placeholder whose body starts at `j` with
/// `depth` braces open, or `s.len()` where the placeholder is never closed.
pub open spec fn closing_brace(s: Seq<char>, j: int, depth: nat) -> int
    decreases s.len() - j,
{
    if j < 0 || j >= s.len() {
        s.len() as int
    } else if s[j] == '{' {
        closing_brace(s, j + 1, depth + 1)
    } else if s[j] == '}' {
        if depth <= 1 {
            j
        } else {
            closing_brace(s, j + 1, (depth - 1) as nat)
        }
    } else {
        closing_brace(s, j + 1, depth)
    }
}

/// The closing brace found from `j` lies between `j` and the end of the string.
pub proof fn lemma_closing_brace_bounds(s: Seq<char>, j: int, depth: nat)
    requires
        0 <= j,
    ensures
        j <= closing_brace(s, j, depth) <= s.len() || (j > s.len() && closing_brace(s, j, depth) == s.len()),
    decreases s.len() - j,
{
    if j < s.len() {
        if s[j] == '{' {
            lemma_closing_brace_bounds(s, j + 1, depth + 1);
        } else if s[j] == '}' {
            if depth > 1 {
                lemma_closing_brace_bounds(s, j + 1, (depth - 1) as nat);
            }
        } else {
            lemma_closing_brace_bounds(s, j + 1, depth);
        }
    }
}

/// `a` between braces.
pub open spec fn braced(a: Seq<char>) -> Seq<char> {
    seq!['{'] + a + seq!['}']
}

/// The top-level `{...}` placeholders of `s` from position `i` on, each with its
/// braces: `{{` and `}}` outside a placeholder are escapes and skipped, braces
/// nest, an empty `{}` is left out, and an unclosed placeholder runs to the end.
pub open spec fn placeholders_from(s: Seq<char>, i: int) -> Seq<Seq<char>>
    decreases s.len() + 1 - i,
{
    if i < 0 || i >= s.len() {
        Seq::empty()
    } else if s[i] == '{' {
        if i + 1 < s.len() && s[i + 1] == '{' {
            placeholders_from(s, i + 2)
        } else {
            let c = closing_brace(s, i + 1, 1);
            proof {
                lemma_closing_brace_bounds(s, i + 1, 1);
            }
            let inner = s.subrange(i + 1, c);
            let rest = placeholders_from(s, c + 1);
            if inner.len() > 0 {
                seq![braced(inner)] + rest
            } else {
                rest
            }
        }
    } else if s[i] == '}' && i + 1 < s.len() && s[i + 1] == '}' {
        placeholders_from(s, i + 2)
    } else {
        placeholders_from(s, i + 1)
    }
}

/// The placeholders of a whole string.
pub open spec fn placeholders_of(s: Seq<char>) -> Seq<Seq<char>> {
    placeholders_from(s, 0)
}

/// A string with no `{` has no placeholders.
pub proof fn lemma_no_brace_no_placeholders(s: Seq<char>, i: int)
    requires
        0 <= i,
        !s.contains('{'),
    ensures
        placeholders_from(s, i) == Seq::<Seq<char>>::empty(),
    decreases s.len() + 1 - i,
{
    if i < s.len() {
        assert(s[i] != '{');
        if s[i] == '}' && i + 1 < s.len() && s[i + 1] == '}' {
            lemma_no_brace_no_placeholders(s, i + 2);
        } else {
            lemma_no_brace_no_placeholders(s, i + 1);
        }
    }
}

/// Every placeholder found from position `i` on starts with `{`, ends with `}`
/// and has something between.
pub proof fn lemma_placeholders_braced(s: Seq<char>, i: int)
    requires
        0 <= i,
    ensures
        forall|k: int|
            0 <= k < placeholders_from(s, i).len() ==> {
                let p = #[trigger] placeholders_from(s, i)[k];
                &&& p.len() >= 3
                &&& p[0] == '{'
                &&& p[p.len() - 1] == '}'
            },
    decreases s.len() + 1 - i,
{
    if 0 <= i < s.len() {
        if s[i] == '{' {
            if i + 1 < s.len() && s[i + 1] == '{' {
                lemma_placeholders_braced(s, i + 2);
                assert(placeholders_from(s, i) == placeholders_from(s, i + 2));
            } else {
                let c = closing_brace(s, i + 1, 1);
                lemma_closing_brace_bounds(s, i + 1, 1);
                lemma_placeholders_braced(s, c + 1);
                let inner = s.subrange(i + 1, c);
                let rest = placeholders_from(s, c + 1);
                assert(placeholders_from(s, i) == (if inner.len() > 0 { seq![braced(inner)] + rest } else { rest }));
                if inner.len() > 0 {
                    assert forall|k: int| 0 <= k < placeholders_from(s, i).len() implies {
                        let p = #[trigger] placeholders_from(s, i)[k];
                        &&& p.len() >= 3
                        &&& p[0] == '{'
                        &&& p[p.len() - 1] == '}'
                    } by {
                        if k > 0 {
                            assert(placeholders_from(s, i)[k] == rest[k - 1]);
                        } else {
                            let b = braced(inner);
                            assert(b[0] == '{');
                            assert(b[b.len() - 1] == '}');
                        }
                    }
                } else {
                    assert(placeholders_from(s, i) == rest);
                }
            }
        } else if s[i] == '}' && i + 1 < s.len() && s[i + 1] == '}' {
            lemma_placeholders_braced(s, i + 2);
            assert(placeholders_from(s, i) == placeholders_from(s, i + 2));
        } else {
            lemma_placeholders_braced(s, i + 1);
            assert(placeholders_from(s, i) == placeholders_from(s, i + 1));
        }
    }
}

/// Extracts all `{expr}` placeholders from a string, ignoring escaped `{{` / `}}`.
/// Handles nested braces (e.g. ICU plural expressions).
/// Returns each top-level `{expr}` as a complete string including the braces.
pub fn simple_placeholders(s: &str) -> (r: Vec<String>)
    ensures
        r.deep_view() == placeholders_of(s@),
{
    let cs = chars_of(s);
    let n = cs.len();
    let mut out: Vec<String> = Vec::new();
    let mut i: usize = 0;
    while i < n
        invariant
            cs@ == s@,
            n == cs@.len(),
            i <= n,
            out.deep_view() + placeholders_from(cs@, i as int) == placeholders_of(cs@),
        decreases n - i,
    {
        let c = cs[i];
        if c == '{' {
            if i + 1 < n && cs[i + 1] == '{' {
                i += 2;
            } else {
                let mut j: usize = i + 1;
                let mut depth: usize = 1;
                while j < n
                    invariant
                        n == cs@.len(),
                        i < j <= n,
                        1 <= depth <= j - i,
                                closing_brace(cs@, j as int, depth as nat) == closing_brace(
                            cs@,
                            i + 1,
                            1,
                        ),
                    ensures
                        i < j <= n,
                        j == closing_brace(cs@, i + 1, 1),
                    decreases n - j,
                {
                    if cs[j] == '{' {
                        depth += 1;
                    } else if cs[j] == '}' {
                        if depth == 1 {
                            break;
                        }
                        depth -= 1;
                    }
                    j += 1;
                }
                proof {
                    lemma_closing_brace_bounds(cs@, i + 1, 1);
                }
                assert(j == closing_brace(cs@, i + 1, 1));
                let inner = vstd::slice::slice_subrange(cs.as_slice(), i + 1, j);
                let ghost before = out.deep_view();
                if inner.len() > 0 {
                    let mut p = "{".to_owned();
                    p.append(string_of(inner).as_str());
                    p.append("}");
                    proof {
                        reveal_strlit("{");
                        reveal_strlit("}");
                        assert(p@ =~= braced(cs@.subrange(i + 1, j as int)));
                    }
                    out.push(p);
                    assert(out.deep_view() =~= before.push(braced(cs@.subrange(i + 1, j as int))));
                }
                i = if j < n {
                    j + 1
                } else {
                    n
                };
                proof {
                    if j >= n {
                        assert(placeholders_from(cs@, j + 1) == Seq::<Seq<char>>::empty());
                    }
                }
            }
        } else if c == '}' && i + 1 < n && cs[i + 1] == '}' {
            i += 2;
        } else {
            i += 1;
        }
    }
    proof {
        assert(out.deep_view() + Seq::<Seq<char>>::empty() =~= out.deep_view());
    }
    out
}

// ---------------------------------------------------------------------------
// Placeholder checks.

/// The warning for a list of missing placeholders, if it is not empty.
pub open spec fn missing_report(missing: Seq<Seq<char>>) -> Option<Seq<char>> {
    if missing.len() == 0 {
        None
    } else {
        Some("missing placeholders: "@ + joined(missing, ", "@))
    }
}

/// The names of `src` that `tgt` lacks, each between braces, in order.
pub open spec fn missing_names(src: Seq<Seq<char>>, tgt: Seq<Seq<char>>) -> Seq<Seq<char>>
    decreases src.len(),
{
    if src.len() == 0 {
        Seq::empty()
    } else {
        let rest = missing_names(src.drop_last(), tgt);
        if tgt.contains(src.last()) {
            rest
        } else {
            rest.push(braced(src.last()))
        }
    }
}

/// The placeholders of `ps` that do not occur in `hay`, in order.
pub open spec fn missing_texts(ps: Seq<Seq<char>>, hay: Seq<char>) -> Seq<Seq<char>>
    decreases ps.len(),
{
    if ps.len() == 0 {
        Seq::empty()
    } else {
        let rest = missing_texts(ps.drop_last(), hay);
        if is_infix(ps.last(), hay) {
            rest
        } else {
            rest.push(ps.last())
        }
    }
}

/// The outcome of the placeholder check of a translation against its source,
/// given what the ICU parser made of each: where the source has a `{` and both
/// parse, the argument names are compared; otherwise every brace placeholder of
/// the source must occur verbatim in the translation.
pub open spec fn placeholder_report(
    src: Seq<char>,
    tgt: Seq<char>,
    src_ast: Option<Seq<IcuNode>>,
    tgt_ast: Option<Seq<IcuNode>>,
) -> Option<Seq<char>> {
    if src.contains('{') && src_ast is Some && tgt_ast is Some {
        missing_report(missing_names(arg_names_of(src_ast->0), arg_names_of(tgt_ast->0)))
    } else {
        missing_report(missing_texts(placeholders_of(src), tgt))
    }
}

/// Every placeholder that the scan of `s` from position `i` opens is closed by a
/// matching `}`.
pub open spec fn placeholders_closed_from(s: Seq<char>, i: int) -> bool
    decreases s.len() + 1 - i,
{
    if i < 0 || i >= s.len() {
        true
    } else if s[i] == '{' {
        if i + 1 < s.len() && s[i + 1] == '{' {
            placeholders_closed_from(s, i + 2)
        } else {
            let c = closing_brace(s, i + 1, 1);
            proof {
                lemma_closing_brace_bounds(s, i + 1, 1);
            }
            c < s.len() && placeholders_closed_from(s, c + 1)
        }
    } else if s[i] == '}' && i + 1 < s.len() && s[i + 1] == '}' {
        placeholders_closed_from(s, i + 2)
    } else {
        placeholders_closed_from(s, i + 1)
    }
}

/// Every placeholder that the scan of `s` opens is closed.
pub open spec fn placeholders_closed(s: Seq<char>) -> bool {
    placeholders_closed_from(s, 0)
}

/// A closing brace found inside the string is a `}`.
proof fn lemma_closing_brace_is_brace(s: Seq<char>, j: int, depth: nat)
    requires
        0 <= j,
        closing_brace(s, j, depth) < s.len(),
    ensures
        s[closing_brace(s, j, depth)] == '}',
    decreases s.len() - j,
{
    if j < s.len() {
        if s[j] == '{' {
            lemma_closing_brace_is_brace(s, j + 1, depth + 1);
        } else if s[j] == '}' {
            if depth > 1 {
                lemma_closing_brace_is_brace(s, j + 1, (depth - 1) as nat);
            }
        } else {
            lemma_closing_brace_is_brace(s, j + 1, depth);
        }
    }
}

/// Where every placeholder is closed, each occurs verbatim in the string.
proof fn lemma_placeholders_in_text(s: Seq<char>, i: int)
    requires
        0 <= i,
        placeholders_closed_from(s, i),
    ensures
        forall|k: int|
            0 <= k < placeholders_from(s, i).len() ==> is_infix(
                #[trigger] placeholders_from(s, i)[k],
                s,
            ),
    decreases s.len() + 1 - i,
{
    if i < s.len() {
        if s[i] == '{' {
            if i + 1 < s.len() && s[i + 1] == '{' {
                lemma_placeholders_in_text(s, i + 2);
                assert(placeholders_from(s, i) == placeholders_from(s, i + 2));
            } else {
                lemma_closing_brace_bounds(s, i + 1, 1);
                let c = closing_brace(s, i + 1, 1);
                lemma_closing_brace_is_brace(s, i + 1, 1);
                lemma_placeholders_in_text(s, c + 1);
                let inner = s.subrange(i + 1, c);
                let rest = placeholders_from(s, c + 1);
                assert(placeholders_from(s, i) == (if inner.len() > 0 {
                    seq![braced(inner)] + rest
                } else {
                    rest
                }));
                if inner.len() > 0 {
                    let b = braced(inner);
                    assert(s.subrange(i, i + b.len()) =~= b);
                    assert(is_infix(b, s));
                    assert forall|k: int| 0 <= k < placeholders_from(s, i).len() implies is_infix(
                        #[trigger] placeholders_from(s, i)[k],
                        s,
                    ) by {
                        if k > 0 {
                            assert(placeholders_from(s, i)[k] == rest[k - 1]);
                        }
                    }
                }
            }
        } else if s[i] == '}' && i + 1 < s.len() && s[i + 1] == '}' {
            lemma_placeholders_in_text(s, i + 2);
            assert(placeholders_from(s, i) == placeholders_from(s, i + 2));
        } else {
            lemma_placeholders_in_text(s, i + 1);
            assert(placeholders_from(s, i) == placeholders_from(s, i + 1));
        }
    }
}

/// Placeholders that all occur in `hay` are none of them missing.
proof fn lemma_missing_texts_none(ps: Seq<Seq<char>>, hay: Seq<char>)
    requires
        forall|k: int| 0 <= k < ps.len() ==> is_infix(#[trigger] ps[k], hay),
    ensures
        missing_texts(ps, hay).len() == 0,
    decreases ps.len(),
{
    if ps.len() > 0 {
        let t = ps.drop_last();
        assert forall|k: int| 0 <= k < t.len() implies is_infix(#[trigger] t[k], hay) by {
            assert(t[k] == ps[k]);
        }
        lemma_missing_texts_none(t, hay);
        assert(is_infix(ps[ps.len() - 1], hay));
    }
}

/// Names that all occur in `tgt` are none of them missing.
proof fn lemma_missing_names_none(src: Seq<Seq<char>>, tgt: Seq<Seq<char>>)
    requires
        forall|k: int| 0 <= k < src.len() ==> tgt.contains(#[trigger] src[k]),
    ensures
        missing_names(src, tgt).len() == 0,
    decreases src.len(),
{
    if src.len() > 0 {
        let t = src.drop_last();
        assert forall|k: int| 0 <= k < t.len() implies tgt.contains(#[trigger] t[k]) by {
            assert(t[k] == src[k]);
        }
        lemma_missing_names_none(t, tgt);
        assert(tgt.contains(src[src.len() - 1]));
    }
}

/// A message never misses its own placeholders: checking a text against itself
/// (as `check_placeholders` does with the trees `message_tree` gives) yields no
/// warning, where the text parses as ICU or every placeholder it opens is
/// closed (each then occurs in it verbatim).
pub proof fn lemma_own_placeholders(s: Seq<char>, ast: Option<Seq<IcuNode>>)
    requires
        ast is Some || placeholders_closed(s),
    ensures
        placeholder_report(s, s, ast, ast) is None,
{
    if s.contains('{') && ast is Some {
        let names = arg_names_of(ast->0);
        assert forall|k: int| 0 <= k < names.len() implies names.contains(#[trigger] names[k]) by {}
        lemma_missing_names_none(names, names);
    } else if !s.contains('{') {
        lemma_no_brace_no_placeholders(s, 0);
        lemma_missing_texts_none(placeholders_of(s), s);
    } else {
        lemma_placeholders_in_text(s, 0);
        lemma_missing_texts_none(placeholders_of(s), s);
    }
}

/// `t` has no brace.
pub open spec fn brace_free(t: Seq<char>) -> bool {
    !t.contains('{') && !t.contains('}')
}

/// Scanning for the closing brace looks only forward: after a prefix it finds
/// the same brace, shifted.
proof fn lemma_closing_brace_shift(p: Seq<char>, b: Seq<char>, j: int, depth: nat)
    requires
        0 <= j,
    ensures
        closing_brace(p + b, p.len() + j, depth) == p.len() + closing_brace(b, j, depth),
    decreases b.len() - j,
{
    let s = p + b;
    if j < b.len() {
        assert(s[p.len() + j] == b[j]);
        if b[j] == '{' {
            lemma_closing_brace_shift(p, b, j + 1, depth + 1);
        } else if b[j] == '}' {
            if depth > 1 {
                lemma_closing_brace_shift(p, b, j + 1, (depth - 1) as nat);
            }
        } else {
            lemma_closing_brace_shift(p, b, j + 1, depth);
        }
    }
}

/// The scan for placeholders looks only forward: after a prefix it finds the
/// same placeholders.
proof fn lemma_placeholders_shift(p: Seq<char>, b: Seq<char>, j: int)
    requires
        0 <= j,
    ensures
        placeholders_from(p + b, p.len() + j) == placeholders_from(b, j),
    decreases b.len() + 1 - j,
{
    let s = p + b;
    if j < b.len() {
        assert(s[p.len() + j] == b[j]);
        if j + 1 < b.len() {
            assert(s[p.len() + j + 1] == b[j + 1]);
        }
        if b[j] == '{' {
            if j + 1 < b.len() && b[j + 1] == '{' {
                lemma_placeholders_shift(p, b, j + 2);
            } else {
                lemma_closing_brace_shift(p, b, j + 1, 1);
                lemma_closing_brace_bounds(b, j + 1, 1);
                let c = closing_brace(b, j + 1, 1);
                lemma_placeholders_shift(p, b, c + 1);
                assert(s.subrange(p.len() + j + 1, p.len() + c) =~= b.subrange(j + 1, c));
            }
        } else if b[j] == '}' && j + 1 < b.len() && b[j + 1] == '}' {
            lemma_placeholders_shift(p, b, j + 2);
        } else {
            lemma_placeholders_shift(p, b, j + 1);
        }
    }
}

/// Text without braces holds no placeholder: the scan passes over it.
proof fn lemma_placeholders_skip(s: Seq<char>, i: int, m: int)
    requires
        0 <= i <= m <= s.len(),
        forall|k: int| i <= k < m ==> s[k] != '{' && s[k] != '}',
    ensures
        placeholders_from(s, i) == placeholders_from(s, m),
    decreases m - i,
{
    if i < m {
        lemma_placeholders_skip(s, i + 1, m);
    }
}

/// Inside a group without nested braces, the closing brace is the first `}`.
proof fn lemma_closing_brace_plain(s: Seq<char>, j: int, e: int)
    requires
        0 <= j <= e < s.len(),
        s[e] == '}',
        forall|k: int| j <= k < e ==> s[k] != '{' && s[k] != '}',
    ensures
        closing_brace(s, j, 1) == e,
    decreases e - j,
{
    if j < e {
        lemma_closing_brace_plain(s, j + 1, e);
    }
}

/// Every group `{w}` whose body has no braces is a placeholder, whatever the
/// body holds: in a text that starts with brace-free text, then such a group,
/// then anything, the placeholders are that group followed by those of the
/// rest.
pub proof fn lemma_placeholder_found(a: Seq<char>, w: Seq<char>, b: Seq<char>)
    requires
        brace_free(a),
        brace_free(w),
        w.len() > 0,
    ensures
        placeholders_of(a + braced(w) + b) == seq![braced(w)] + placeholders_of(b),
{
    let s = a + braced(w) + b;
    let m = a.len() as int;
    let e = m + 1 + w.len();
    assert forall|k: int| 0 <= k < m implies s[k] != '{' && s[k] != '}' by {
        assert(s[k] == a[k]);
    }
    lemma_placeholders_skip(s, 0, m);
    assert(s[m] == '{');
    assert(s[m + 1] == w[0]);
    assert(s[e] == '}');
    assert forall|k: int| m + 1 <= k < e implies s[k] != '{' && s[k] != '}' by {
        assert(s[k] == w[k - m - 1]);
    }
    lemma_closing_brace_plain(s, m + 1, e);
    assert(s.subrange(m + 1, e) =~= w);
    let p = a + braced(w);
    assert(s =~= p + b);
    lemma_placeholders_shift(p, b, 0);
    assert(p.len() == e + 1);
}

/// A name of the source that the translation lacks is among the missing ones.
proof fn lemma_missing_name_listed(src: Seq<Seq<char>>, tgt: Seq<Seq<char>>, v: Seq<char>)
    requires
        src.contains(v),
        !tgt.contains(v),
    ensures
        missing_names(src, tgt).contains(braced(v)),
    decreases src.len(),
{
    let t = src.drop_last();
    let rest = missing_names(t, tgt);
    if src.last() == v {
        assert(missing_names(src, tgt) == rest.push(braced(v)));
        assert(missing_names(src, tgt)[rest.len() as int] == braced(v));
    } else {
        let k = choose|k: int| 0 <= k < src.len() && src[k] == v;
        assert(k < src.len() - 1);
        assert(t[k] == v);
        lemma_missing_name_listed(t, tgt, v);
        let m = choose|m: int| 0 <= m < rest.len() && rest[m] == braced(v);
        if tgt.contains(src.last()) {
            assert(missing_names(src, tgt) == rest);
        } else {
            assert(missing_names(src, tgt) == rest.push(braced(src.last())));
            assert(missing_names(src, tgt)[m] == braced(v));
        }
    }
}

/// The check by syntax trees reports every element name of the source, at the
/// top or inside a branch of a `select` or `plural`, that no element of the
/// translation carries: the check warns, and lists that name between braces.
pub proof fn lemma_lost_name_reported(
    src: Seq<char>,
    tgt: Seq<char>,
    ns: Seq<IcuNode>,
    nt: Seq<IcuNode>,
    i: int,
    j: int,
    k: int,
    inner: IcuNode,
    v: Seq<char>,
)
    requires
        src.contains('{'),
        0 <= i < ns.len(),
        element_name(ns[i]) == Some(v) || (branch_holds(ns[i], j, k, inner) && element_name(inner)
            == Some(v)),
        !arg_names_of(nt).contains(v),
    ensures
        placeholder_report(src, tgt, Some(ns), Some(nt)) is Some,
        missing_names(arg_names_of(ns), arg_names_of(nt)).contains(braced(v)),
{
    lemma_names_collected(ns, i, j, k, inner, v);
    lemma_missing_name_listed(arg_names_of(ns), arg_names_of(nt), v);
}

/// A parse result as plain values.
pub open spec fn ast_view(a: Option<Vec<IcuElement>>) -> Option<Seq<IcuNode>> {
    match a {
        Some(v) => Some(nodes_of(v@)),
        None => None,
    }
}

/// Whether `s` is one of the strings of `v`.
fn has_string(v: &Vec<String>, s: &String) -> (r: bool)
    ensures
        r == v.deep_view().contains(s@),
{
    let mut i: usize = 0;
    while i < v.len()
        invariant
            i <= v@.len(),
            forall|k: int| 0 <= k < i ==> #[trigger] v.deep_view()[k] != s@,
        decreases v.len() - i,
    {
        if v[i] == *s {
            assert(v.deep_view()[i as int] == s@);
            return true;
        }
        i += 1;
    }
    false
}

/// `a` between braces.
fn brace(a: &str) -> (r: String)
    ensures
        r@ == braced(a@),
{
    let mut p = "{".to_owned();
    p.append(a);
    p.append("}");
    proof {
        reveal_strlit("{");
        reveal_strlit("}");
        assert(p@ =~= braced(a@));
    }
    p
}

fn missing_arg_names(src: &Vec<String>, tgt: &Vec<String>) -> (r: Vec<String>)
    ensures
        r.deep_view() == missing_names(src.deep_view(), tgt.deep_view()),
{
    let mut out: Vec<String> = Vec::new();
    let mut i: usize = 0;
    while i < src.len()
        invariant
            i <= src@.len(),
            out.deep_view() == missing_names(src.deep_view().take(i as int), tgt.deep_view()),
        decreases src.len() - i,
    {
        proof {
            let d = src.deep_view();
            assert(d.take(i + 1).drop_last() =~= d.take(i as int));
            assert(d.take(i + 1).last() == src@[i as int]@);
        }
        if !has_string(tgt, &src[i]) {
            let b = brace(src[i].as_str());
            let ghost before = out.deep_view();
            out.push(b);
            assert(out.deep_view() =~= before.push(braced(src@[i as int]@)));
        }
        i += 1;
    }
    proof {
        assert(src.deep_view().take(src@.len() as int) =~= src.deep_view());
    }
    out
}

fn missing_placeholder_texts(ps: &Vec<String>, hay: &str) -> (r: Vec<String>)
    ensures
        r.deep_view() == missing_texts(ps.deep_view(), hay@),
{
    let mut out: Vec<String> = Vec::new();
    let mut i: usize = 0;
    while i < ps.len()
        invariant
            i <= ps@.len(),
            out.deep_view() == missing_texts(ps.deep_view().take(i as int), hay@),
        decreases ps.len() - i,
    {
        proof {
            let d = ps.deep_view();
            assert(d.take(i + 1).drop_last() =~= d.take(i as int));
            assert(d.take(i + 1).last() == ps@[i as int]@);
        }
        if !contains_str(hay, ps[i].as_str()) {
            let ghost before = out.deep_view();
            out.push(ps[i].clone());
            assert(out.deep_view() =~= before.push(ps@[i as int]@));
        }
        i += 1;
    }
    proof {
        assert(ps.deep_view().take(ps@.len() as int) =~= ps.deep_view());
    }
    out
}

fn report(missing: &Vec<String>) -> (r: Option<String>)
    ensures
        r.deep_view() == missing_report(missing.deep_view()),
{
    if missing.len() == 0 {
        None
    } else {
        let mut w = "missing placeholders: ".to_owned();
        let j = join_strings(missing, ", ");
        w.append(j.as_str());
        Some(w)
    }
}

/// The placeholder check of a translation against its source, given what the
/// ICU parser made of each text (`None` where it did not parse).
pub fn check_placeholders_parsed(
    source: &FormattedMessage,
    translated: &FormattedMessage,
    source_ast: &Option<Vec<IcuElement>>,
    translated_ast: &Option<Vec<IcuElement>>,
) -> (r: Option<String>)
    ensures
        r.deep_view() == placeholder_report(
            source.text@,
            translated.text@,
            ast_view(*source_ast),
            ast_view(*translated_ast),
        ),
{
    if has_char(source.text.as_str(), '{') {
        match (source_ast, translated_ast) {
            (Some(src_ast), Some(tgt_ast)) => {
                let src_args = collect_arg_names(src_ast);
                let tgt_args = collect_arg_names(tgt_ast);
                let missing = missing_arg_names(&src_args, &tgt_args);
                return report(&missing);
            },
            _ => {},
        }
    }
    let ps = simple_placeholders(source.text.as_str());
    let missing = missing_placeholder_texts(&ps, translated.text.as_str());
    report(&missing)
}

/// Verify that all placeholders from `source` are present in `translated`.
/// Uses the ICU syntax tree when both parse and the source has a `{`
/// (whitespace-independent), and falls back to substring matching otherwise.
/// Returns `None` if valid, or a warning string listing the missing ones.
pub fn check_placeholders(source: &FormattedMessage, translated: &FormattedMessage) -> (r: Option<
    String,
>)
    ensures
        r.deep_view() == placeholder_report(
            source.text@,
            translated.text@,
            message_tree(source.text@),
            message_tree(translated.text@),
        ),
{
    if has_char(source.text.as_str(), '{') {
        let src_ast = parse_message(source.text.as_str());
        let tgt_ast = parse_message(translated.text.as_str());
        check_placeholders_parsed(source, translated, &src_ast, &tgt_ast)
    } else {
        check_placeholders_parsed(source, translated, &None, &None)
    }
}

// ---------------------------------------------------------------------------
// Translating one message.

/// How one literal of a message is handled: kept as it is (all white space), or
/// its text between the leading and trailing white space sent for translation.
pub enum LiteralPiece {
    Keep(String),
    Translate(String, String, String),
}

/// [`LiteralPiece`] as plain values.
pub enum PieceView {
    Keep(Seq<char>),
    Translate(Seq<char>, Seq<char>, Seq<char>),
}

pub open spec fn piece_view(p: LiteralPiece) -> PieceView {
    match p {
        LiteralPiece::Keep(s) => PieceView::Keep(s@),
        LiteralPiece::Translate(a, t, b) => PieceView::Translate(a@, t@, b@),
    }
}

pub open spec fn pieces_view(ps: Seq<LiteralPiece>) -> Seq<PieceView> {
    ps.map_values(|p: LiteralPiece| piece_view(p))
}

/// The handling of a literal: a literal that is all white space is kept, any
/// other is split into its leading white space, its trimmed text and its
/// trailing white space.
pub open spec fn piece_for(lit: Seq<char>) -> PieceView {
    if is_blank(lit) {
        PieceView::Keep(lit)
    } else {
        PieceView::Translate(
            lit.take(leading_white(lit) as int),
            trimmed(lit),
            lit.skip(lit.len() - trailing_white(lit)),
        )
    }
}

/// The handling of each literal, in order.
pub open spec fn pieces_for(lits: Seq<Seq<char>>) -> Seq<PieceView> {
    lits.map_values(|l: Seq<char>| piece_for(l))
}

/// How a message is translated: sent whole, or literal by literal through its
/// ICU syntax tree, which keeps every other token.
pub enum TranslationPlan {
    Whole(String),
    Literals(Vec<IcuElement>, Vec<LiteralPiece>),
}

/// A message goes literal by literal when it has a `{` and parses as ICU.
pub open spec fn goes_by_literals(text: Seq<char>) -> bool {
    text.contains('{') && message_tree(text) is Some
}

/// A plan whose pieces match the literals of its tree, one for one.
pub open spec fn plan_well_formed(plan: TranslationPlan) -> bool {
    match plan {
        TranslationPlan::Whole(_) => true,
        TranslationPlan::Literals(ast, ps) => ps@.len() == literals_of(nodes_of(ast@)).len(),
    }
}

/// The texts sent for translation by a list of pieces, in order.
pub open spec fn piece_requests(ps: Seq<PieceView>) -> Seq<Seq<char>>
    decreases ps.len(),
{
    if ps.len() == 0 {
        Seq::empty()
    } else {
        let rest = piece_requests(ps.drop_last());
        match ps.last() {
            PieceView::Keep(_) => rest,
            PieceView::Translate(_, t, _) => rest.push(t),
        }
    }
}

/// The texts a plan sends for translation, in order.
pub open spec fn plan_requests(plan: TranslationPlan) -> Seq<Seq<char>> {
    match plan {
        TranslationPlan::Whole(t) => seq![t@],
        TranslationPlan::Literals(_, ps) => piece_requests(pieces_view(ps@)),
    }
}

/// The new literals: a kept literal as it was, a translated one as its leading
/// white space, the reply to its request and its trailing white space.
pub open spec fn assembled(ps: Seq<PieceView>, replies: Seq<Seq<char>>) -> Seq<Seq<char>>
    decreases ps.len(),
{
    if ps.len() == 0 {
        Seq::empty()
    } else {
        let rest = assembled(ps.drop_last(), replies);
        let k = piece_requests(ps.drop_last()).len();
        match ps.last() {
            PieceView::Keep(l) => rest.push(l),
            PieceView::Translate(a, _, b) => rest.push(a + replies[k as int] + b),
        }
    }
}

/// The text a plan yields from the replies to its requests.
pub open spec fn plan_result(plan: TranslationPlan, replies: Seq<Seq<char>>) -> Seq<char> {
    match plan {
        TranslationPlan::Whole(_) => replies[0],
        TranslationPlan::Literals(ast, ps) => icu_printed(
            relabel(nodes_of(ast@), assembled(pieces_view(ps@), replies), 0),
        ),
    }
}

proof fn lemma_pieces_push(ps: Seq<LiteralPiece>, p: LiteralPiece)
    ensures
        pieces_view(ps.push(p)) == pieces_view(ps).push(piece_view(p)),
{
    assert(pieces_view(ps.push(p)) =~= pieces_view(ps).push(piece_view(p)));
}

proof fn lemma_seq_push_drop<A>(s: Seq<A>, a: A)
    ensures
        s.push(a).drop_last() == s,
        s.push(a).last() == a,
{
    assert(s.push(a).drop_last() =~= s);
}

/// The handling of one literal.
fn plan_literal(lit: &String) -> (r: LiteralPiece)
    ensures
        piece_view(r) == piece_for(lit@),
{
    if blank(lit.as_str()) {
        return LiteralPiece::Keep(lit.clone());
    }
    let (lead, core, trail) = trim_parts(lit.as_str());
    proof {
        let s = lit@;
        assert(lead@ =~= s.take(leading_white(s) as int));
        assert(trail@ =~= s.skip(s.len() - trailing_white(s)));
    }
    LiteralPiece::Translate(lead, core, trail)
}

/// The plan fits the text: by literals, with its parsed tree and one piece per
/// literal, when the text goes by literals; otherwise the whole text.
pub open spec fn planned(text: Seq<char>, plan: TranslationPlan) -> bool {
    if goes_by_literals(text) {
        match plan {
            TranslationPlan::Literals(ast, ps) => message_tree(text) == Some(nodes_of(ast@))
                && pieces_view(ps@) == pieces_for(literals_of(nodes_of(ast@))),
            _ => false,
        }
    } else {
        match plan {
            TranslationPlan::Whole(t) => t@ == text,
            _ => false,
        }
    }
}

/// Decides how a message is translated: when it has a `{` and parses as ICU,
/// literal by literal (each literal of the tree, depth first, either kept or
/// sent trimmed); otherwise whole.
pub fn plan_translation(text: &str) -> (r: TranslationPlan)
    ensures
        plan_well_formed(r),
        planned(text@, r),
{
    if has_char(text, '{') {
        match parse_message(text) {
            Some(ast) => {
                let lits = collect_literals(&ast);
                let mut pieces: Vec<LiteralPiece> = Vec::new();
                let mut i: usize = 0;
                while i < lits.len()
                    invariant
                        i <= lits@.len(),
                        pieces_view(pieces@) == pieces_for(lits.deep_view().take(i as int)),
                    decreases lits.len() - i,
                {
                    let p = plan_literal(&lits[i]);
                    proof {
                        lemma_pieces_push(pieces@, p);
                        assert(pieces_for(lits.deep_view().take(i + 1)) =~= pieces_for(
                            lits.deep_view().take(i as int),
                        ).push(piece_for(lits@[i as int]@)));
                    }
                    pieces.push(p);
                    i += 1;
                }
                proof {
                    assert(lits.deep_view().take(lits@.len() as int) =~= lits.deep_view());
                }
                return TranslationPlan::Literals(ast, pieces);
            },
            None => {},
        }
    }
    TranslationPlan::Whole(text.to_owned())
}

/// The texts to send for translation, in order.
pub fn translation_requests(plan: &TranslationPlan) -> (r: Vec<String>)
    ensures
        r.deep_view() == plan_requests(*plan),
{
    match plan {
        TranslationPlan::Whole(t) => {
            let mut v = Vec::new();
            v.push(t.clone());
            assert(v.deep_view() =~= seq![t@]);
            v
        },
        TranslationPlan::Literals(_, ps) => {
            let mut v: Vec<String> = Vec::new();
            let mut i: usize = 0;
            while i < ps.len()
                invariant
                    i <= ps@.len(),
                    v.deep_view() == piece_requests(pieces_view(ps@.take(i as int))),
                decreases ps.len() - i,
            {
                proof {
                    assert(ps@.take(i + 1) =~= ps@.take(i as int).push(ps@[i as int]));
                    lemma_pieces_push(ps@.take(i as int), ps@[i as int]);
                    lemma_seq_push_drop(pieces_view(ps@.take(i as int)), piece_view(ps@[i as int]));
                }
                match &ps[i] {
                    LiteralPiece::Translate(_, t, _) => {
                        let ghost before = v.deep_view();
                        v.push(t.clone());
                        assert(v.deep_view() =~= before.push(t@));
                    },
                    LiteralPiece::Keep(_) => {},
                }
                i += 1;
            }
            proof {
                assert(ps@.take(ps@.len() as int) =~= ps@);
            }
            v
        },
    }
}

proof fn lemma_assembled_len(ps: Seq<PieceView>, replies: Seq<Seq<char>>)
    ensures
        assembled(ps, replies).len() == ps.len(),
        piece_requests(ps).len() <= ps.len(),
    decreases ps.len(),
{
    if ps.len() > 0 {
        lemma_assembled_len(ps.drop_last(), replies);
    }
}

/// Assembles the translated text from the replies to the plan's requests, in
/// order: a whole message is its reply; otherwise the literals are rebuilt and
/// written back into the tree, which is printed again.
pub fn finish_translation(plan: TranslationPlan, replies: &Vec<String>) -> (r: String)
    requires
        plan_well_formed(plan),
        replies@.len() == plan_requests(plan).len(),
    ensures
        r@ == plan_result(plan, replies.deep_view()),
{
    match plan {
        TranslationPlan::Whole(_) => replies[0].clone(),
        TranslationPlan::Literals(ast, ps) => {
            let ghost rv = replies.deep_view();
            let rl = replies.len();
            let mut lits: Vec<String> = Vec::new();
            let mut k: usize = 0;
            let mut i: usize = 0;
            while i < ps.len()
                invariant
                    i <= ps@.len(),
                    replies@.len() == piece_requests(pieces_view(ps@)).len(),
                    rl == replies@.len(),
                    rv == replies.deep_view(),
                    k == piece_requests(pieces_view(ps@.take(i as int))).len(),
                    lits.deep_view() == assembled(pieces_view(ps@.take(i as int)), rv),
                decreases ps.len() - i,
            {
                proof {
                    assert(ps@.take(i + 1) =~= ps@.take(i as int).push(ps@[i as int]));
                    lemma_pieces_push(ps@.take(i as int), ps@[i as int]);
                    lemma_seq_push_drop(pieces_view(ps@.take(i as int)), piece_view(ps@[i as int]));
                    lemma_requests_prefix(pieces_view(ps@), i + 1);
                    assert(pieces_view(ps@).take(i + 1) =~= pieces_view(ps@.take(i + 1)));
                }
                let ghost before = lits.deep_view();
                match &ps[i] {
                    LiteralPiece::Keep(l) => {
                        lits.push(l.clone());
                        assert(lits.deep_view() =~= before.push(l@));
                    },
                    LiteralPiece::Translate(a, _, b) => {
                        let mut t = a.clone();
                        t.append(replies[k].as_str());
                        t.append(b.as_str());
                        lits.push(t);
                        assert(lits.deep_view() =~= before.push(a@ + rv[k as int] + b@));
                        k += 1;
                    },
                }
                i += 1;
            }
            proof {
                assert(ps@.take(ps@.len() as int) =~= ps@);
                lemma_assembled_len(pieces_view(ps@), rv);
            }
            let mut tree = ast;
            let mut idx: usize = 0;
            apply_literals(&mut tree, &lits, &mut idx);
            print_icu(&tree)
        },
    }
}

/// The text a piece stands for: a kept literal, or the white space around the
/// text it sends.
pub open spec fn piece_text(p: PieceView) -> Seq<char> {
    match p {
        PieceView::Keep(l) => l,
        PieceView::Translate(a, t, b) => a + t + b,
    }
}

/// Assembling with replies that begin with the pieces' own requests gives back
/// the texts the pieces stand for.
proof fn lemma_assembled_own_requests(ps: Seq<PieceView>, replies: Seq<Seq<char>>)
    requires
        piece_requests(ps).is_prefix_of(replies),
    ensures
        assembled(ps, replies) == ps.map_values(|p: PieceView| piece_text(p)),
    decreases ps.len(),
{
    if ps.len() > 0 {
        let init = ps.drop_last();
        let k = piece_requests(init).len();
        match ps.last() {
            PieceView::Keep(_) => {},
            PieceView::Translate(_, t, _) => {
                assert(piece_requests(ps)[k as int] == t);
                assert(replies[k as int] == piece_requests(ps)[k as int]);
            },
        }
        assert(piece_requests(init).is_prefix_of(replies)) by {
            assert forall|i: int| 0 <= i < piece_requests(init).len() implies piece_requests(init)[i]
                == replies[i] by {
                assert(piece_requests(init)[i] == piece_requests(ps)[i]);
            }
            assert(piece_requests(init) =~= replies.subrange(0, k as int));
        }
        lemma_assembled_own_requests(init, replies);
        assert(assembled(ps, replies) =~= ps.map_values(|p: PieceView| piece_text(p)));
    }
}

/// Each literal is the text its piece stands for.
proof fn lemma_pieces_text(lits: Seq<Seq<char>>)
    ensures
        pieces_for(lits).map_values(|p: PieceView| piece_text(p)) == lits,
{
    assert forall|i: int| 0 <= i < lits.len() implies #[trigger] piece_text(piece_for(lits[i])) == lits[i] by {
        if !is_blank(lits[i]) {
            lemma_trim_parts(lits[i]);
        }
    }
    assert(pieces_for(lits).map_values(|p: PieceView| piece_text(p)) =~= lits);
}

/// Sending each request back unchanged as its reply yields the message as it
/// stands: a text sent whole comes back as it was, and a text handled literal
/// by literal comes back as the printer writes its parsed tree.
pub proof fn lemma_plan_identity(text: Seq<char>, plan: TranslationPlan)
    requires
        planned(text, plan),
    ensures
        plan_result(plan, plan_requests(plan)) == if goes_by_literals(text) {
            icu_printed(message_tree(text)->0)
        } else {
            text
        },
{
    match plan {
        TranslationPlan::Whole(t) => {},
        TranslationPlan::Literals(ast, ps) => {
            let ns = nodes_of(ast@);
            let lits = literals_of(ns);
            let pv = pieces_view(ps@);
            let reqs = piece_requests(pv);
            assert(reqs.is_prefix_of(reqs)) by {
                assert(reqs =~= reqs.subrange(0, reqs.len() as int));
            }
            lemma_assembled_own_requests(pv, reqs);
            lemma_pieces_text(lits);
            lemma_collect_apply_roundtrip(ns);
        },
    }
}

proof fn lemma_requests_prefix(ps: Seq<PieceView>, n: int)
    requires
        0 <= n <= ps.len(),
    ensures
        piece_requests(ps.take(n)).len() <= piece_requests(ps).len(),
    decreases ps.len(),
{
    if n < ps.len() {
        assert(ps.drop_last().take(n) =~= ps.take(n));
        lemma_requests_prefix(ps.drop_last(), n);
    } else {
        assert(ps.take(n) =~= ps);
    }
}

// ---------------------------------------------------------------------------
// Settling each message of a file.

/// A message whose ICU tree holds a generic plural (see `generic_in`) is left
/// untranslated.
pub open spec fn skips_generic_plural(text: Seq<char>) -> bool {
    text.contains('{') && match message_tree(text) {
        Some(ns) => generic_in(ns),
        None => false,
    }
}

/// Whether a message is left untranslated because it uses a generic plural
/// pattern like `{# {unit}s}`, which static translation cannot get right.
pub fn is_generic_plural_message(text: &str) -> (r: bool)
    ensures
        r == skips_generic_plural(text@),
{
    if has_char(text, '{') {
        match parse_message(text) {
            Some(ast) => has_generic_plural(&ast),
            None => false,
        }
    } else {
        false
    }
}

/// The text a translation is checked against: that of the source file's message
/// under the same key, or the current text where the source has none.
pub open spec fn source_text_for(source: IntlFile, key: Seq<char>, current: Seq<char>) -> Seq<char> {
    match lookup(source.table()@, key) {
        Some(m) => m.0,
        None => current,
    }
}

/// The text a translation attempt yields: the reply, or the current text where
/// the attempt failed.
pub open spec fn attempt_text(current: Seq<char>, translated: Option<Seq<char>>) -> Seq<char> {
    match translated {
        Some(t) => t,
        None => current,
    }
}

/// The warning that settling a message gives: the placeholder check of the
/// attempt's text against the source text.
pub open spec fn settle_warning(
    source: IntlFile,
    key: Seq<char>,
    current: Seq<char>,
    translated: Option<Seq<char>>,
) -> Option<Seq<char>> {
    let src = source_text_for(source, key, current);
    let tgt = attempt_text(current, translated);
    placeholder_report(src, tgt, message_tree(src), message_tree(tgt))
}

/// The text that settling a message keeps: the source text on a warning,
/// otherwise the attempt's text.
pub open spec fn settled_text(
    source: IntlFile,
    key: Seq<char>,
    current: Seq<char>,
    translated: Option<Seq<char>>,
) -> Seq<char> {
    if settle_warning(source, key, current, translated) is Some {
        source_text_for(source, key, current)
    } else {
        attempt_text(current, translated)
    }
}

/// Settles one message after a translation attempt (`None` when it failed): the
/// attempt's text is checked for placeholders against the source message; on a
/// warning the source text is kept, otherwise the attempt's text. Returns the
/// text to store and the warning.
pub fn resolve_translation(
    source: &IntlFile,
    key: &str,
    current: &FormattedMessage,
    translated: Option<String>,
) -> (r: (String, Option<String>))
    ensures
        r.1.deep_view() == settle_warning(*source, key@, current.text@, translated.deep_view()),
        r.0@ == settled_text(*source, key@, current.text@, translated.deep_view()),
{
    let text = match translated {
        Some(t) => t,
        None => current.text.clone(),
    };
    let translated_msg = FormattedMessage { text, note: crate::types::copy_note(&current.note) };
    let source_msg = match source.messages().get(key) {
        Some(m) => m,
        None => current,
    };
    let warn = check_placeholders(source_msg, &translated_msg);
    match warn {
        Some(w) => (source_msg.text.clone(), Some(w)),
        None => (translated_msg.text, None),
    }
}

/// The table of an existing translation, if there is one.
pub open spec fn existing_table(existing: Option<&IntlFile>) -> Option<Seq<(Seq<char>, MessageView)>> {
    match existing {
        Some(f) => Some(f.table()@),
        None => None,
    }
}

/// A key keeps its existing translation: `force` is off and the existing
/// translation has the key.
pub open spec fn keeps_existing(
    existing: Option<Seq<(Seq<char>, MessageView)>>,
    force: bool,
    key: Seq<char>,
) -> bool {
    !force && existing is Some && lookup(existing->0, key) is Some
}

/// The entry that the file to translate holds for an entry of the source: the
/// existing translation's message where the key keeps it, otherwise the
/// source's own message.
pub open spec fn target_entry(
    e: (Seq<char>, MessageView),
    existing: Option<Seq<(Seq<char>, MessageView)>>,
    force: bool,
) -> (Seq<char>, MessageView) {
    if keeps_existing(existing, force, e.0) {
        (e.0, lookup(existing->0, e.0)->0)
    } else {
        e
    }
}

/// Prepares the file to translate into one target language from the source and
/// the translation already written for it, if any: the source's format, locale
/// and keys, in the source's order, so that keys the source lacks are dropped;
/// each message is the existing translation's where that has the key and
/// `force` is off, otherwise the source's. The flags tell, entry by entry,
/// which messages still need translating.
pub fn prepare_target(source: &IntlFile, existing: Option<&IntlFile>, force: bool) -> (r: (
    IntlFile,
    Vec<bool>,
))
    ensures
        r.0 == source.with_table(r.0.table()),
        r.0.table()@ == source.table()@.map_values(
            |e: (Seq<char>, MessageView)| target_entry(e, existing_table(existing), force),
        ),
        forall|k: Seq<char>| has_key(r.0.table()@, k) <==> has_key(source.table()@, k),
        r.1@.len() == source.table()@.len(),
        forall|i: int|
            0 <= i < r.1@.len() ==> #[trigger] r.1@[i] == !keeps_existing(
                existing_table(existing),
                force,
                source.table()@[i].0,
            ),
{
    let es = source.messages().entries();
    let ghost sv = source.table()@;
    let ghost ex = existing_table(existing);
    let mut out: Vec<(String, FormattedMessage)> = Vec::new();
    let mut to_translate: Vec<bool> = Vec::new();
    let mut i: usize = 0;
    while i < es.len()
        invariant
            i <= es@.len(),
            sv == es@.map_values(|e: (String, FormattedMessage)| entry_view(e)),
            ex == existing_table(existing),
            out@.len() == i,
            to_translate@.len() == i,
            forall|j: int|
                0 <= j < i ==> #[trigger] entry_view(out@[j]) == target_entry(sv[j], ex, force),
            forall|j: int| 0 <= j < i ==> #[trigger] to_translate@[j] == !keeps_existing(ex, force, sv[j].0),
        decreases es.len() - i,
    {
        let key = &es[i].0;
        assert(sv[i as int] == entry_view(es@[i as int]));
        let found = if force {
            None
        } else {
            match existing {
                Some(f) => f.messages().get(key.as_str()),
                None => None,
            }
        };
        match found {
            Some(m) => {
                out.push((key.clone(), m.duplicate()));
                to_translate.push(false);
            },
            None => {
                out.push((key.clone(), es[i].1.duplicate()));
                to_translate.push(true);
            },
        }
        i += 1;
    }
    let ghost ov = out@.map_values(|e: (String, FormattedMessage)| entry_view(e));
    let ghost tv = sv.map_values(|e: (Seq<char>, MessageView)| target_entry(e, ex, force));
    proof {
        assert(ov =~= tv) by {
            assert forall|j: int| 0 <= j < ov.len() implies ov[j] == tv[j] by {
                assert(ov[j] == entry_view(out@[j]));
            }
        }
        assert forall|a: int, b: int| 0 <= a < b < tv.len() implies #[trigger] tv[a].0
            != #[trigger] tv[b].0 by {
            assert(tv[a].0 == sv[a].0 && tv[b].0 == sv[b].0);
        }
        lemma_entries_from_distinct(tv);
        assert forall|k: Seq<char>| has_key(tv, k) <==> has_key(sv, k) by {
            if has_key(tv, k) {
                let j = choose|j: int| 0 <= j < tv.len() && #[trigger] tv[j].0 == k;
                assert(sv[j].0 == k);
            }
            if has_key(sv, k) {
                let j = choose|j: int| 0 <= j < sv.len() && #[trigger] sv[j].0 == k;
                assert(tv[j].0 == k);
            }
        }
    }
    let table = MessageMap::from_pairs(out);
    let file = match source {
        IntlFile::Simple(_) => IntlFile::Simple(table),
        IntlFile::FormatJS(_) => IntlFile::FormatJS(table),
        IntlFile::Rails(l, _) => IntlFile::Rails(l.clone(), table),
    };
    (file, to_translate)
}

/// The text of message `i` to send for translation, or `None` where the message
/// is left untranslated because of a generic plural.
pub fn pending_text(file: &IntlFile, i: usize) -> (r: Option<String>)
    requires
        i < file.table()@.len(),
    ensures
        r is None <==> skips_generic_plural(file.table()@[i as int].1.0),
        r matches Some(t) ==> t@ == file.table()@[i as int].1.0,
{
    let es = file.messages().entries();
    let text = &es[i].1.text;
    assert(file.table()@[i as int] == entry_view(es@[i as int]));
    if is_generic_plural_message(text.as_str()) {
        None
    } else {
        Some(text.clone())
    }
}

/// Settles message `i` of a file being translated after the attempt for it
/// (`None` when it failed), checking it against the source file: the message
/// keeps its key and note and takes the settled text; the file keeps its
/// format, locale and every other message. Returns the warning.
pub fn settle_message(
    source: &IntlFile,
    file: &mut IntlFile,
    i: usize,
    translated: Option<String>,
) -> (r: Option<String>)
    requires
        i < old(file).table()@.len(),
    ensures
        *final(file) == old(file).with_table(final(file).table()),
        r.deep_view() == settle_warning(
            *source,
            old(file).table()@[i as int].0,
            old(file).table()@[i as int].1.0,
            translated.deep_view(),
        ),
        final(file).table()@ == old(file).table()@.update(
            i as int,
            (
                old(file).table()@[i as int].0,
                (
                    settled_text(
                        *source,
                        old(file).table()@[i as int].0,
                        old(file).table()@[i as int].1.0,
                        translated.deep_view(),
                    ),
                    old(file).table()@[i as int].1.1,
                ),
            ),
        ),
{
    let (key, current) = {
        let es = file.messages().entries();
        assert(file.table()@[i as int] == entry_view(es@[i as int]));
        (es[i].0.clone(), es[i].1.duplicate())
    };
    let (text, warn) = resolve_translation(source, key.as_str(), &current, translated);
    file.messages_mut().set_text(i, text);
    warn
}

// ---------------------------------------------------------------------------
// The request to the model.

/// Where and how to translate: the endpoint, the model, the key, and the source
/// and target languages by name and code.
#[derive(Clone, Debug)]
pub struct TranslateConfig {
    pub url: String,
    pub model: String,
    pub api_key: String,
    pub source_lang: String,
    pub source_code: String,
    pub target_lang: String,
    pub target_code: String,
}

/// The prompt for one text: the TranslateGemma instruction for the configured
/// languages, with the rule that placeholders are copied verbatim.
pub open spec fn prompt_text(
    sl: Seq<char>,
    sc: Seq<char>,
    tl: Seq<char>,
    tc: Seq<char>,
    text: Seq<char>,
) -> Seq<char> {
    "You are a professional "@ + sl + " ("@ + sc + ") to "@ + tl + " ("@ + tc
        + ") translator. Your goal is to accurately convey the meaning and nuances of the original "@
        + sl + " text while adhering to "@ + tl + PROMPT_RULES@ + tl
        + " translation, without any additional explanations or commentary. Please translate the following "@
        + sl + " text into "@ + tl + ":\n\n\n"@ + text
}

/// The middle of the prompt: style, placeholders and time units.
pub const PROMPT_RULES: &'static str = " grammar, vocabulary, and cultural sensitivities.\nAny placeholders in curly braces such as {name}, {count}, {region} are code tokens and must be\ncopied exactly as-is, preserving their original capitalisation and spelling.\nShort forms such as \"sec\", \"min\" and \"hr\" are units of time and must be translated as units of time.\nProduce only the ";

/// Builds the prompt for one text.
pub fn build_prompt(cfg: &TranslateConfig, text: &str) -> (r: String)
    ensures
        r@ == prompt_text(
            cfg.source_lang@,
            cfg.source_code@,
            cfg.target_lang@,
            cfg.target_code@,
            text@,
        ),
{
    let mut p = "You are a professional ".to_owned();
    p.append(cfg.source_lang.as_str());
    p.append(" (");
    p.append(cfg.source_code.as_str());
    p.append(") to ");
    p.append(cfg.target_lang.as_str());
    p.append(" (");
    p.append(cfg.target_code.as_str());
    p.append(
        ") translator. Your goal is to accurately convey the meaning and nuances of the original ",
    );
    p.append(cfg.source_lang.as_str());
    p.append(" text while adhering to ");
    p.append(cfg.target_lang.as_str());
    p.append(PROMPT_RULES);
    p.append(cfg.target_lang.as_str());
    p.append(
        " translation, without any additional explanations or commentary. Please translate the following ",
    );
    p.append(cfg.source_lang.as_str());
    p.append(" text into ");
    p.append(cfg.target_lang.as_str());
    p.append(":\n\n\n");
    p.append(text);
    p
}

/// The text of a model reply: its content without surrounding white space, or
/// empty where it has none.
pub fn clean_reply(content: Option<String>) -> (r: String)
    ensures
        r@ == trimmed(
            match content {
                Some(c) => c@,
                None => Seq::empty(),
            },
        ),
{
    match content {
        Some(c) => {
            let (_, core, _) = trim_parts(c.as_str());
            core
        },
        None => {
            let e = String::new();
            let (_, core, _) = trim_parts(e.as_str());
            core
        },
    }
}

// ---------------------------------------------------------------------------
// Languages on the command line.

/// A language given as "Name:code", e.g. "German:de".
#[derive(Debug, Clone)]
pub struct Target {
    pub lang: String,
    pub code: String,
}

/// The refusal of a language argument without a `:`.
pub open spec fn target_error(s: Seq<char>) -> Seq<char> {
    "expected \"Language:code\", got \""@ + s + "\""@
}

/// Splits "Name:code" at its first `:`.
pub fn parse_target(s: &str) -> (r: Result<Target, String>)
    ensures
        r is Ok <==> s@.contains(':'),
        r matches Ok(t) ==> t.lang@ + seq![':'] + t.code@ == s@ && !t.lang@.contains(':'),
        r matches Err(e) ==> e@ == target_error(s@),
{
    let cs = chars_of(s);
    let mut i: usize = 0;
    while i < cs.len()
        invariant
            cs@ == s@,
            i <= cs@.len(),
            forall|k: int| 0 <= k < i ==> cs@[k] != ':',
        decreases cs.len() - i,
    {
        if cs[i] == ':' {
            let lang = string_of(vstd::slice::slice_subrange(cs.as_slice(), 0, i));
            let code = string_of(vstd::slice::slice_subrange(cs.as_slice(), i + 1, cs.len()));
            proof {
                assert(lang@ + seq![':'] + code@ =~= s@);
                assert(!lang@.contains(':')) by {
                    if lang@.contains(':') {
                        let k = choose|k: int| 0 <= k < lang@.len() && lang@[k] == ':';
                        assert(cs@[k] == ':');
                    }
                }
            }
            return Ok(Target { lang, code });
        }
        i += 1;
    }
    let mut e = "expected \"Language:code\", got \"".to_owned();
    e.append(s);
    e.append("\"");
    Err(e)
}

impl std::str::FromStr for Target {
    type Err = String;

    fn from_str(s: &str) -> (r: Result<Self, Self::Err>)
        ensures
            r is Ok <==> s@.contains(':'),
            r matches Ok(t) ==> t.lang@ + seq![':'] + t.code@ == s@ && !t.lang@.contains(':'),
            r matches Err(e) ==> e@ == target_error(s@),
    {
        parse_target(s)
    }
}

} // verus!
