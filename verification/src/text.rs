//! Character-level helpers over strings: white space, trimming, searching, joining.
use vstd::prelude::*;

verus! {

/// The Unicode `White_Space` property, which std documents as the meaning of
/// `char::is_whitespace`.
pub open spec fn is_white_space(c: char) -> bool {
    let u = c as int;
    ||| 9 <= u <= 13
    ||| u == 32
    ||| u == 0x85
    ||| u == 0xA0
    ||| u == 0x1680
    ||| 0x2000 <= u <= 0x200A
    ||| u == 0x2028
    ||| u == 0x2029
    ||| u == 0x202F
    ||| u == 0x205F
    ||| u == 0x3000
}

/// Whether `c` has the Unicode `White_Space` property (`char::is_whitespace`).
pub(crate) fn is_whitespace(c: char) -> (r: bool)
    ensures
        r == is_white_space(c),
{
    ('\u{9}' <= c && c <= '\u{d}') || c == ' ' || c == '\u{85}' || c == '\u{a0}' || c == '\u{1680}'
        || ('\u{2000}' <= c && c <= '\u{200a}') || c == '\u{2028}' || c == '\u{2029}' || c
        == '\u{202f}' || c == '\u{205f}' || c == '\u{3000}'
}

/// Collects characters into a `String` (`FromIterator<&char>` of std).
#[verifier::external_body]
pub(crate) fn string_of(cs: &[char]) -> (r: String)
    ensures
        r@ == cs@,
{
    cs.iter().collect()
}

/// Every character of `s` is white space (so `s.trim()` is empty).
pub open spec fn is_blank(s: Seq<char>) -> bool {
    forall|i: int| 0 <= i < s.len() ==> is_white_space(#[trigger] s[i])
}

/// The number of white-space characters at the start of `s`.
pub open spec fn leading_white(s: Seq<char>) -> nat
    decreases s.len(),
{
    if s.len() > 0 && is_white_space(s[0]) {
        1 + leading_white(s.drop_first())
    } else {
        0
    }
}

/// The number of white-space characters at the end of `s`.
pub open spec fn trailing_white(s: Seq<char>) -> nat
    decreases s.len(),
{
    if s.len() > 0 && is_white_space(s.last()) {
        1 + trailing_white(s.drop_last())
    } else {
        0
    }
}

/// `s` without its leading and trailing white space (`str::trim`).
pub open spec fn trimmed(s: Seq<char>) -> Seq<char> {
    if is_blank(s) {
        Seq::empty()
    } else {
        s.subrange(leading_white(s) as int, s.len() - trailing_white(s))
    }
}

/// `needle` occurs in `hay` as a contiguous run (`str::contains` with a `&str`).
pub open spec fn is_infix(needle: Seq<char>, hay: Seq<char>) -> bool {
    exists|i: int|
        0 <= i && i + needle.len() <= hay.len() && #[trigger] hay.subrange(i, i + needle.len())
            == needle
}

/// The parts joined with `sep` between neighbours (`[String]::join`).
pub open spec fn joined(parts: Seq<Seq<char>>, sep: Seq<char>) -> Seq<char>
    decreases parts.len(),
{
    if parts.len() == 0 {
        Seq::empty()
    } else if parts.len() == 1 {
        parts[0]
    } else {
        joined(parts.drop_last(), sep) + sep + parts.last()
    }
}

/// The leading white space of `s` is white, and is followed by the end of `s`
/// or by a character that is not white space.
pub proof fn lemma_leading_white_bounds(s: Seq<char>)
    ensures
        leading_white(s) <= s.len(),
        forall|k: int| 0 <= k < leading_white(s) ==> is_white_space(#[trigger] s[k]),
        leading_white(s) < s.len() ==> !is_white_space(s[leading_white(s) as int]),
    decreases s.len(),
{
    if s.len() > 0 && is_white_space(s[0]) {
        let t = s.drop_first();
        lemma_leading_white_bounds(t);
        assert forall|k: int| 0 <= k < leading_white(s) implies is_white_space(#[trigger] s[k]) by {
            if k > 0 {
                assert(s[k] == t[k - 1]);
            }
        }
        if leading_white(s) < s.len() {
            assert(s[leading_white(s) as int] == t[leading_white(t) as int]);
        }
    }
}

/// The trailing white space of `s` is white, and is preceded by the start of `s`
/// or by a character that is not white space.
pub proof fn lemma_trailing_white_bounds(s: Seq<char>)
    ensures
        trailing_white(s) <= s.len(),
        forall|k: int| s.len() - trailing_white(s) <= k < s.len() ==> is_white_space(#[trigger] s[k]),
        trailing_white(s) < s.len() ==> !is_white_space(s[s.len() - trailing_white(s) - 1]),
    decreases s.len(),
{
    if s.len() > 0 && is_white_space(s.last()) {
        let t = s.drop_last();
        lemma_trailing_white_bounds(t);
        assert forall|k: int| s.len() - trailing_white(s) <= k < s.len() implies is_white_space(
            #[trigger] s[k],
        ) by {
            if k < s.len() - 1 {
                assert(s[k] == t[k]);
            }
        }
        if trailing_white(s) < s.len() {
            assert(s[s.len() - trailing_white(s) - 1] == t[t.len() - trailing_white(t) - 1]);
        }
    }
}

/// A string that is not blank is its leading white space, its trimmed text and
/// its trailing white space, in that order.
pub proof fn lemma_trim_parts(s: Seq<char>)
    requires
        !is_blank(s),
    ensures
        leading_white(s) < s.len() - trailing_white(s),
        s.take(leading_white(s) as int) + trimmed(s) + s.skip(s.len() - trailing_white(s)) == s,
{
    lemma_leading_white_bounds(s);
    lemma_trailing_white_bounds(s);
    let j = choose|j: int| 0 <= j < s.len() && !is_white_space(#[trigger] s[j]);
    assert(leading_white(s) <= j);
    assert(j < s.len() - trailing_white(s));
    assert(s.take(leading_white(s) as int) + trimmed(s) + s.skip(s.len() - trailing_white(s)) =~= s);
}

/// A string whose first `n` characters are white space, and not the next one,
/// has `n` characters of leading white space.
pub proof fn lemma_leading_white(s: Seq<char>, n: int)
    requires
        0 <= n <= s.len(),
        forall|k: int| 0 <= k < n ==> is_white_space(#[trigger] s[k]),
        n < s.len() ==> !is_white_space(s[n]),
    ensures
        leading_white(s) == n,
    decreases n,
{
    if n > 0 {
        assert(is_white_space(s[0]));
        let t = s.drop_first();
        assert forall|k: int| 0 <= k < n - 1 implies is_white_space(#[trigger] t[k]) by {
            assert(t[k] == s[k + 1]);
        }
        if n - 1 < t.len() {
            assert(t[n - 1] == s[n]);
        }
        lemma_leading_white(t, n - 1);
    }
}

/// A string whose last `n` characters are white space, and not the one before
/// them, has `n` characters of trailing white space.
pub proof fn lemma_trailing_white(s: Seq<char>, n: int)
    requires
        0 <= n <= s.len(),
        forall|k: int| s.len() - n <= k < s.len() ==> is_white_space(#[trigger] s[k]),
        n < s.len() ==> !is_white_space(s[s.len() - n - 1]),
    ensures
        trailing_white(s) == n,
    decreases n,
{
    if n > 0 {
        assert(is_white_space(s[s.len() - 1]));
        let t = s.drop_last();
        assert forall|k: int| t.len() - (n - 1) <= k < t.len() implies is_white_space(
            #[trigger] t[k],
        ) by {
            assert(t[k] == s[k]);
        }
        if n - 1 < t.len() {
            assert(t[t.len() - (n - 1) - 1] == s[s.len() - n - 1]);
        }
        lemma_trailing_white(t, n - 1);
    }
}

/// The characters of `s`, in order.
pub fn chars_of(s: &str) -> (r: Vec<char>)
    ensures
        r@ == s@,
{
    let mut out: Vec<char> = Vec::new();
    for c in it: s.chars()
        invariant
            out@ == it.seq().take(it.index() as int),
    {
        out.push(c);
    }
    proof {
        broadcast use vstd::string::group_string_axioms;

    }
    out
}

/// Whether `c` occurs in `s` (`str::contains` with a `char`).
pub fn has_char(s: &str, c: char) -> (r: bool)
    ensures
        r == s@.contains(c),
{
    let cs = chars_of(s);
    let mut i: usize = 0;
    while i < cs.len()
        invariant
            i <= cs@.len(),
            cs@ == s@,
            forall|k: int| 0 <= k < i ==> cs@[k] != c,
        decreases cs.len() - i,
    {
        if cs[i] == c {
            return true;
        }
        i += 1;
    }
    false
}

/// Whether every character of `s` is white space (`s.trim().is_empty()`).
pub fn blank(s: &str) -> (r: bool)
    ensures
        r == is_blank(s@),
{
    let cs = chars_of(s);
    let mut i: usize = 0;
    while i < cs.len()
        invariant
            i <= cs@.len(),
            cs@ == s@,
            forall|k: int| 0 <= k < i ==> is_white_space(#[trigger] cs@[k]),
        decreases cs.len() - i,
    {
        if !is_whitespace(cs[i]) {
            return false;
        }
        i += 1;
    }
    true
}

/// Splits `s` into its leading white space, the text between, and its trailing
/// white space; on a blank `s` the leading part is all of it.
pub fn trim_parts(s: &str) -> (r: (String, String, String))
    ensures
        r.0@ + r.1@ + r.2@ == s@,
        r.0@.len() == leading_white(s@),
        !is_blank(s@) ==> r.2@.len() == trailing_white(s@) && r.1@ == trimmed(s@),
        is_blank(s@) ==> r.1@.len() == 0 && r.2@.len() == 0,
        r.1@ == trimmed(s@),
{
    let cs = chars_of(s);
    let n = cs.len();
    let mut a: usize = 0;
    while a < n && is_whitespace(cs[a])
        invariant
            a <= n == cs@.len(),
            cs@ == s@,
            forall|k: int| 0 <= k < a ==> is_white_space(#[trigger] cs@[k]),
        decreases n - a,
    {
        a += 1;
    }
    proof {
        lemma_leading_white(s@, a as int);
    }
    let mut b: usize = n;
    while b > a && is_whitespace(cs[b - 1])
        invariant
            a <= b <= n == cs@.len(),
            cs@ == s@,
            forall|k: int| b <= k < n ==> is_white_space(#[trigger] cs@[k]),
        decreases b,
    {
        b -= 1;
    }
    let lead = string_of(vstd::slice::slice_subrange(cs.as_slice(), 0, a));
    let core = string_of(vstd::slice::slice_subrange(cs.as_slice(), a, b));
    let trail = string_of(vstd::slice::slice_subrange(cs.as_slice(), b, n));
    proof {
        assert(s@ =~= s@.subrange(0, a as int) + s@.subrange(a as int, b as int) + s@.subrange(
            b as int,
            n as int,
        ));
        if a == n {
            assert(is_blank(s@));
        } else {
            assert(!is_white_space(s@[a as int]));
            assert(!is_blank(s@));
            lemma_trailing_white(s@, n - b);
        }
        if is_blank(s@) {
            if a < n {
                assert(is_white_space(s@[a as int]));
            }
        }
    }
    (lead, core, trail)
}

/// Whether `nd` occurs in `h` at position `i`.
fn occurs_at(h: &Vec<char>, nd: &Vec<char>, i: usize) -> (r: bool)
    requires
        i + nd@.len() <= h@.len(),
    ensures
        r == (h@.subrange(i as int, i + nd@.len()) == nd@),
{
    let hl = h.len();
    let mut j: usize = 0;
    while j < nd.len()
        invariant
            hl == h@.len(),
            i + nd@.len() <= h@.len(),
            j <= nd@.len(),
            forall|k: int| 0 <= k < j ==> h@[i + k] == nd@[k],
        decreases nd.len() - j,
    {
        if h[i + j] != nd[j] {
            assert(h@.subrange(i as int, i + nd@.len())[j as int] != nd@[j as int]);
            return false;
        }
        j += 1;
    }
    assert(h@.subrange(i as int, i + nd@.len()) =~= nd@);
    true
}

/// Whether `needle` occurs in `hay` (`str::contains` with a `&str`).
pub fn contains_str(hay: &str, needle: &str) -> (r: bool)
    ensures
        r == is_infix(needle@, hay@),
{
    let h = chars_of(hay);
    let nd = chars_of(needle);
    if nd.len() > h.len() {
        return false;
    }
    let last = h.len() - nd.len();
    let mut i: usize = 0;
    while i < last
        invariant
            h@ == hay@,
            nd@ == needle@,
            nd@.len() <= h@.len(),
            i <= last,
            last == h@.len() - nd@.len(),
            forall|k: int| 0 <= k < i ==> #[trigger] h@.subrange(k, k + nd@.len()) != nd@,
        decreases last - i,
    {
        if occurs_at(&h, &nd, i) {
            return true;
        }
        i += 1;
    }
    if occurs_at(&h, &nd, last) {
        return true;
    }
    assert forall|k: int|
        0 <= k && k + needle@.len() <= hay@.len() implies #[trigger] hay@.subrange(
        k,
        k + needle@.len(),
    ) != needle@ by {}
    false
}

/// The strings joined with `sep` between neighbours.
pub fn join_strings(parts: &Vec<String>, sep: &str) -> (r: String)
    ensures
        r@ == joined(parts.deep_view(), sep@),
{
    let mut out = String::new();
    let mut i: usize = 0;
    while i < parts.len()
        invariant
            i <= parts@.len(),
            out@ == joined(parts.deep_view().take(i as int), sep@),
        decreases parts.len() - i,
    {
        proof {
            let d = parts.deep_view();
            assert(d.take(i + 1).drop_last() =~= d.take(i as int));
        }
        if i > 0 {
            out.append(sep);
        }
        out.append(parts[i].as_str());
        i += 1;
    }
    proof {
        assert(parts.deep_view().take(parts@.len() as int) =~= parts.deep_view());
    }
    out
}

/// `s` ends with `suffix`.
pub open spec fn has_suffix(s: Seq<char>, suffix: Seq<char>) -> bool {
    s.len() >= suffix.len() && s.subrange(s.len() - suffix.len(), s.len() as int) == suffix
}

/// Whether `s` ends with `suffix` (`str::ends_with`).
pub fn ends_with(s: &str, suffix: &str) -> (r: bool)
    ensures
        r == has_suffix(s@, suffix@),
{
    let a = chars_of(s);
    let b = chars_of(suffix);
    if b.len() > a.len() {
        return false;
    }
    let al = a.len();
    let off = al - b.len();
    let mut i: usize = 0;
    while i < b.len()
        invariant
            al == a@.len(),
            a@ == s@,
            b@ == suffix@,
            off + b@.len() == a@.len(),
            i <= b@.len(),
            forall|k: int| 0 <= k < i ==> a@[off + k] == b@[k],
        decreases b.len() - i,
    {
        if a[off + i] != b[i] {
            assert(s@.subrange(off as int, s@.len() as int)[i as int] != suffix@[i as int]);
            return false;
        }
        i += 1;
    }
    assert(s@.subrange(off as int, s@.len() as int) =~= suffix@);
    true
}

} // verus!
