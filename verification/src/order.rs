//! The order of keys in written files: strings compared character by character
//! (the order of `str`, whose UTF-8 bytes follow the code points), and the
//! arrangement of a table's entries in that order.
use vstd::prelude::*;
use crate::text::chars_of;

verus! {

/// `a` sorts before `b`: at the first position where they differ, `a` has the
/// smaller character, or `a` ends there and `b` does not.
pub open spec fn key_lt(a: Seq<char>, b: Seq<char>) -> bool {
    exists|i: int| #[trigger] differs_first_at(a, b, i) && lt_at(a, b, i)
}

/// `a` and `b` agree before position `i`, and `i` is where one ends or they differ.
pub open spec fn differs_first_at(a: Seq<char>, b: Seq<char>, i: int) -> bool {
    &&& 0 <= i <= a.len()
    &&& i <= b.len()
    &&& a.take(i) == b.take(i)
    &&& (i == a.len() || i == b.len() || a[i] != b[i])
}

/// At their first difference `i`, `a` is the smaller.
pub open spec fn lt_at(a: Seq<char>, b: Seq<char>, i: int) -> bool {
    (i == a.len() && i < b.len()) || (i < a.len() && i < b.len() && (a[i] as int) < (b[i] as int))
}

proof fn lemma_first_difference_unique(a: Seq<char>, b: Seq<char>, i: int, j: int)
    requires
        differs_first_at(a, b, i),
        differs_first_at(a, b, j),
    ensures
        i == j,
{
    if i < j {
        assert(a.take(j)[i] == b.take(j)[i]);
    } else if j < i {
        assert(a.take(i)[j] == b.take(i)[j]);
    }
}

/// The first position, from `i` on, at which two strings that agree before `i`
/// differ or one ends.
proof fn lemma_first_difference_from(a: Seq<char>, b: Seq<char>, i: int) -> (j: int)
    requires
        0 <= i <= a.len(),
        i <= b.len(),
        a.take(i) == b.take(i),
    ensures
        differs_first_at(a, b, j),
    decreases a.len() - i,
{
    if i == a.len() || i == b.len() || a[i] != b[i] {
        i
    } else {
        assert(a.take(i + 1) =~= a.take(i).push(a[i]));
        assert(b.take(i + 1) =~= b.take(i).push(b[i]));
        lemma_first_difference_from(a, b, i + 1)
    }
}

/// The first position at which two strings differ or one ends.
pub proof fn lemma_first_difference_exists(a: Seq<char>, b: Seq<char>) -> (i: int)
    ensures
        differs_first_at(a, b, i),
{
    assert(a.take(0) =~= b.take(0));
    lemma_first_difference_from(a, b, 0)
}

/// No string sorts before itself.
pub proof fn lemma_key_lt_irreflexive(a: Seq<char>)
    ensures
        !key_lt(a, a),
{
}

/// Of two different strings, one sorts before the other.
pub proof fn lemma_key_lt_total(a: Seq<char>, b: Seq<char>)
    requires
        a != b,
    ensures
        key_lt(a, b) || key_lt(b, a),
{
    let i = lemma_first_difference_exists(a, b);
    if i == a.len() && i == b.len() {
        assert(a =~= a.take(i));
        assert(b =~= b.take(i));
        assert(false);
    }
    assert(differs_first_at(b, a, i));
    if i < a.len() && i < b.len() {
        assert(a[i] != b[i]);
        assert((a[i] as int) != (b[i] as int));
    }
    assert(lt_at(a, b, i) || lt_at(b, a, i));
    if lt_at(a, b, i) {
        assert(key_lt(a, b));
    } else {
        assert(key_lt(b, a));
    }
}

/// No two strings sort before each other.
pub proof fn lemma_key_lt_asymmetric(a: Seq<char>, b: Seq<char>)
    ensures
        !(key_lt(a, b) && key_lt(b, a)),
{
    if key_lt(a, b) && key_lt(b, a) {
        let i = choose|i: int| #[trigger] differs_first_at(a, b, i) && lt_at(a, b, i);
        let j = choose|j: int| #[trigger] differs_first_at(b, a, j) && lt_at(b, a, j);
        assert(differs_first_at(a, b, j));
        lemma_first_difference_unique(a, b, i, j);
    }
}

/// The order is transitive.
pub proof fn lemma_key_lt_transitive(a: Seq<char>, b: Seq<char>, c: Seq<char>)
    requires
        key_lt(a, b),
        key_lt(b, c),
    ensures
        key_lt(a, c),
{
    let i = choose|i: int| #[trigger] differs_first_at(a, b, i) && lt_at(a, b, i);
    let j = choose|j: int| #[trigger] differs_first_at(b, c, j) && lt_at(b, c, j);
    if i < j {
        assert(a.take(i) =~= c.take(i)) by {
            assert forall|k: int| 0 <= k < i implies a.take(i)[k] == c.take(i)[k] by {
                assert(a.take(i)[k] == b.take(i)[k]);
                assert(b.take(j)[k] == c.take(j)[k]);
            }
        }
        assert(b.take(j)[i] == c.take(j)[i]);
        assert(differs_first_at(a, c, i) && lt_at(a, c, i));
    } else if j < i {
        assert(a.take(j) =~= c.take(j)) by {
            assert forall|k: int| 0 <= k < j implies a.take(j)[k] == c.take(j)[k] by {
                assert(a.take(i)[k] == b.take(i)[k]);
                assert(b.take(j)[k] == c.take(j)[k]);
            }
        }
        assert(a.take(i)[j] == b.take(i)[j]);
        assert(differs_first_at(a, c, j) && lt_at(a, c, j));
    } else {
        assert(a.take(i) =~= c.take(i)) by {
            assert forall|k: int| 0 <= k < i implies a.take(i)[k] == c.take(i)[k] by {
                assert(a.take(i)[k] == b.take(i)[k]);
                assert(b.take(j)[k] == c.take(j)[k]);
            }
        }
        assert(differs_first_at(a, c, i) && lt_at(a, c, i));
    }
}

/// Whether `a` sorts before `b`.
pub fn key_less(a: &str, b: &str) -> (r: bool)
    ensures
        r == key_lt(a@, b@),
{
    let x = chars_of(a);
    let y = chars_of(b);
    let mut i: usize = 0;
    while i < x.len() && i < y.len() && x[i] == y[i]
        invariant
            x@ == a@,
            y@ == b@,
            i <= x@.len(),
            i <= y@.len(),
            x@.take(i as int) == y@.take(i as int),
        decreases x.len() - i,
    {
        proof {
            assert(x@.take(i + 1) =~= x@.take(i as int).push(x@[i as int]));
            assert(y@.take(i + 1) =~= y@.take(i as int).push(y@[i as int]));
        }
        i += 1;
    }
    assert(differs_first_at(a@, b@, i as int));
    proof {
        if key_lt(a@, b@) {
            let j = choose|j: int| #[trigger] differs_first_at(a@, b@, j) && lt_at(a@, b@, j);
            lemma_first_difference_unique(a@, b@, i as int, j);
        }
    }
    if i == x.len() {
        i < y.len()
    } else if i == y.len() {
        false
    } else {
        x[i] < y[i]
    }
}

/// The entries are in strictly increasing key order.
pub open spec fn sorted_by_key<V>(s: Seq<(Seq<char>, V)>) -> bool {
    forall|i: int, j: int| 0 <= i < j < s.len() ==> key_lt(#[trigger] s[i].0, #[trigger] s[j].0)
}

/// `t` holds the same entries as `s`, as many of them.
pub open spec fn same_entries<V>(t: Seq<(Seq<char>, V)>, s: Seq<(Seq<char>, V)>) -> bool {
    &&& t.len() == s.len()
    &&& forall|x: (Seq<char>, V)| t.contains(x) <==> s.contains(x)
}

/// The entries of `s` in increasing key order.
pub open spec fn in_key_order<V>(s: Seq<(Seq<char>, V)>) -> Seq<(Seq<char>, V)> {
    choose|t: Seq<(Seq<char>, V)>| sorted_by_key(t) && same_entries(t, s)
}

/// Two key-sorted sequences of the same entries are the same sequence.
pub proof fn lemma_sorted_unique<V>(s: Seq<(Seq<char>, V)>, t: Seq<(Seq<char>, V)>)
    requires
        sorted_by_key(s),
        sorted_by_key(t),
        s.len() == t.len(),
        forall|x: (Seq<char>, V)| t.contains(x) <==> s.contains(x),
    ensures
        s == t,
    decreases s.len(),
{
    if s.len() > 0 {
        assert(t.contains(s[0]));
        let k = choose|k: int| 0 <= k < t.len() && t[k] == s[0];
        assert(s.contains(t[0]));
        let m = choose|m: int| 0 <= m < s.len() && s[m] == t[0];
        if k > 0 {
            if m > 0 {
                assert(key_lt(s[0].0, s[m].0));
                assert(key_lt(t[0].0, t[k].0));
                lemma_key_lt_asymmetric(s[0].0, t[0].0);
            } else {
                assert(key_lt(t[0].0, t[k].0));
                lemma_key_lt_irreflexive(t[0].0);
            }
        }
        assert(s[0] == t[0]);
        let s1 = s.drop_first();
        let t1 = t.drop_first();
        assert(sorted_by_key(s1)) by {
            assert forall|i: int, j: int| 0 <= i < j < s1.len() implies key_lt(
                #[trigger] s1[i].0,
                #[trigger] s1[j].0,
            ) by {
                assert(s1[i] == s[i + 1] && s1[j] == s[j + 1]);
            }
        }
        assert(sorted_by_key(t1)) by {
            assert forall|i: int, j: int| 0 <= i < j < t1.len() implies key_lt(
                #[trigger] t1[i].0,
                #[trigger] t1[j].0,
            ) by {
                assert(t1[i] == t[i + 1] && t1[j] == t[j + 1]);
            }
        }
        assert forall|x: (Seq<char>, V)| t1.contains(x) <==> s1.contains(x) by {
            if t1.contains(x) {
                let a = choose|a: int| 0 <= a < t1.len() && t1[a] == x;
                assert(t.contains(x) && t[a + 1] == x);
                let b = choose|b: int| 0 <= b < s.len() && s[b] == x;
                if b == 0 {
                    assert(key_lt(t[0].0, t[a + 1].0));
                    lemma_key_lt_irreflexive(t[0].0);
                }
                assert(s1[b - 1] == x);
            }
            if s1.contains(x) {
                let a = choose|a: int| 0 <= a < s1.len() && s1[a] == x;
                assert(s.contains(x) && s[a + 1] == x);
                let b = choose|b: int| 0 <= b < t.len() && t[b] == x;
                if b == 0 {
                    assert(key_lt(s[0].0, s[a + 1].0));
                    lemma_key_lt_irreflexive(s[0].0);
                }
                assert(t1[b - 1] == x);
            }
        }
        lemma_sorted_unique(s1, t1);
        assert(s =~= seq![s[0]] + s1);
        assert(t =~= seq![t[0]] + t1);
    }
}

/// A key-sorted arrangement of `s` is the one `in_key_order` names.
pub proof fn lemma_in_key_order<V>(s: Seq<(Seq<char>, V)>, t: Seq<(Seq<char>, V)>)
    requires
        sorted_by_key(t),
        same_entries(t, s),
    ensures
        in_key_order(s) == t,
{
    let c = in_key_order(s);
    assert(sorted_by_key(c) && same_entries(c, s));
    lemma_sorted_unique(c, t);
}

/// The positions of `keys` in increasing key order, for distinct keys.
pub fn sorted_positions(keys: &Vec<String>) -> (r: Vec<usize>)
    requires
        forall|i: int, j: int| 0 <= i < j < keys@.len() ==> keys@[i]@ != keys@[j]@,
    ensures
        r@.len() == keys@.len(),
        forall|j: int| 0 <= j < r@.len() ==> #[trigger] r@[j] < keys@.len(),
        forall|k: usize| k < keys@.len() ==> #[trigger] r@.contains(k),
        forall|a: int, b: int|
            0 <= a < b < r@.len() ==> key_lt(keys@[#[trigger] r@[a] as int]@, keys@[#[trigger] r@[b] as int]@),
{
    let n = keys.len();
    let mut out: Vec<usize> = Vec::new();
    let mut i: usize = 0;
    while i < n
        invariant
            n == keys@.len(),
            i <= n,
            forall|a: int, b: int| 0 <= a < b < keys@.len() ==> keys@[a]@ != keys@[b]@,
            out@.len() == i,
            forall|j: int| 0 <= j < out@.len() ==> #[trigger] out@[j] < i,
            forall|k: usize| k < i ==> #[trigger] out@.contains(k),
            forall|a: int, b: int|
                0 <= a < b < out@.len() ==> key_lt(keys@[#[trigger] out@[a] as int]@, keys@[#[trigger] out@[b] as int]@),
        decreases n - i,
    {
        let mut p: usize = 0;
        while p < out.len() && key_less(keys[out[p]].as_str(), keys[i].as_str())
            invariant
                n == keys@.len(),
                i < n,
                p <= out@.len(),
                forall|j: int| 0 <= j < out@.len() ==> #[trigger] out@[j] < i,
                forall|j: int| 0 <= j < p ==> key_lt(keys@[#[trigger] out@[j] as int]@, keys@[i as int]@),
            decreases out.len() - p,
        {
            p += 1;
        }
        proof {
            if p < out@.len() {
                let q = out@[p as int];
                assert(keys@[q as int]@ != keys@[i as int]@);
                lemma_key_lt_total(keys@[q as int]@, keys@[i as int]@);
                assert forall|j: int| p <= j < out@.len() implies key_lt(
                    keys@[i as int]@,
                    keys@[#[trigger] out@[j] as int]@,
                ) by {
                    if j > p {
                        assert(key_lt(keys@[out@[p as int] as int]@, keys@[out@[j] as int]@));
                        lemma_key_lt_transitive(keys@[i as int]@, keys@[q as int]@, keys@[out@[j] as int]@);
                    }
                }
            }
        }
        let ghost before = out@;
        out.insert(p, i);
        proof {
            assert(out@ =~= before.take(p as int).push(i).add(before.skip(p as int)));
            assert forall|a: int, b: int| 0 <= a < b < out@.len() implies key_lt(
                keys@[#[trigger] out@[a] as int]@,
                keys@[#[trigger] out@[b] as int]@,
            ) by {
                if b < p {
                    assert(out@[a] == before[a] && out@[b] == before[b]);
                } else if b == p {
                    assert(out@[a] == before[a]);
                } else if a < p {
                    assert(out@[a] == before[a] && out@[b] == before[b - 1]);
                } else if a == p {
                    assert(out@[b] == before[b - 1]);
                } else {
                    assert(out@[a] == before[a - 1] && out@[b] == before[b - 1]);
                }
            }
            assert forall|k: usize| k < i + 1 implies #[trigger] out@.contains(k) by {
                if k == i {
                    assert(out@[p as int] == i);
                } else {
                    assert(before.contains(k));
                    let w = choose|w: int| 0 <= w < before.len() && before[w] == k;
                    if w < p {
                        assert(out@[w] == k);
                    } else {
                        assert(out@[w + 1] == k);
                    }
                }
            }
            assert forall|j: int| 0 <= j < out@.len() implies #[trigger] out@[j] < i + 1 by {
                if j < p {
                    assert(out@[j] == before[j]);
                } else if j > p {
                    assert(out@[j] == before[j - 1]);
                }
            }
        }
        i += 1;
    }
    out
}

} // verus!
