//! Orders used by the crate's sorted indexes: lexicographic order on character sequences (by
//! code point, which is also the order of their UTF-8 encodings) and a stable insertion sort for
//! any totally preordered element type.

use vstd::multiset::Multiset;
use vstd::prelude::*;

verus! {

/// Lexicographic "strictly less" on character sequences, comparing code points.
pub open spec fn spec_chars_lt(a: Seq<char>, b: Seq<char>) -> bool
    decreases a.len(),
{
    if a.len() == 0 {
        b.len() > 0
    } else if b.len() == 0 {
        false
    } else if a[0] != b[0] {
        a[0] < b[0]
    } else {
        spec_chars_lt(a.drop_first(), b.drop_first())
    }
}

pub open spec fn spec_chars_le(a: Seq<char>, b: Seq<char>) -> bool {
    a == b || spec_chars_lt(a, b)
}

pub proof fn lemma_chars_lt_irreflexive(a: Seq<char>)
    ensures
        !spec_chars_lt(a, a),
    decreases a.len(),
{
    if a.len() > 0 {
        lemma_chars_lt_irreflexive(a.drop_first());
    }
}

pub proof fn lemma_chars_lt_trichotomy(a: Seq<char>, b: Seq<char>)
    ensures
        a == b || spec_chars_lt(a, b) || spec_chars_lt(b, a),
        !(spec_chars_lt(a, b) && spec_chars_lt(b, a)),
    decreases a.len(),
{
    if a.len() > 0 && b.len() > 0 {
        if a[0] == b[0] {
            lemma_chars_lt_trichotomy(a.drop_first(), b.drop_first());
            if a.drop_first() == b.drop_first() {
                assert(a =~= seq![a[0]] + a.drop_first());
                assert(b =~= seq![b[0]] + b.drop_first());
            }
        } else {
        }
    } else if a.len() == 0 && b.len() == 0 {
        assert(a =~= b);
    }
}

pub proof fn lemma_chars_lt_transitive(a: Seq<char>, b: Seq<char>, c: Seq<char>)
    requires
        spec_chars_lt(a, b),
        spec_chars_lt(b, c),
    ensures
        spec_chars_lt(a, c),
    decreases a.len(),
{
    if a.len() > 0 && b.len() > 0 && c.len() > 0 {
        if a[0] == b[0] && b[0] == c[0] {
            lemma_chars_lt_transitive(a.drop_first(), b.drop_first(), c.drop_first());
        }
    }
}

pub proof fn lemma_chars_le_total(a: Seq<char>, b: Seq<char>)
    ensures
        spec_chars_le(a, b) || spec_chars_le(b, a),
{
    lemma_chars_lt_trichotomy(a, b);
}

pub proof fn lemma_chars_le_transitive(a: Seq<char>, b: Seq<char>, c: Seq<char>)
    requires
        spec_chars_le(a, b),
        spec_chars_le(b, c),
    ensures
        spec_chars_le(a, c),
{
    if spec_chars_lt(a, b) && spec_chars_lt(b, c) {
        lemma_chars_lt_transitive(a, b, c);
    }
}

/// Lexicographic comparison by code point: `-1`, `0` or `1`.
pub fn chars_order(a: &[char], b: &[char]) -> (r: i8)
    ensures
        r == 0 <==> a@ == b@,
        r < 0 <==> spec_chars_lt(a@, b@),
        r > 0 <==> spec_chars_lt(b@, a@),
{
    let mut i: usize = 0;
    while i < a.len() && i < b.len()
        invariant
            i <= a.len(),
            i <= b.len(),
            a@.take(i as int) == b@.take(i as int),
        decreases a.len() - i,
    {
        if a[i] != b[i] {
            proof {
                lemma_chars_lt_common_prefix(a@, b@, i as int);
            }
            if a[i] < b[i] {
                return -1;
            } else {
                return 1;
            }
        }
        assert(a@.take(i + 1) =~= a@.take(i as int).push(a@[i as int]));
        assert(b@.take(i + 1) =~= b@.take(i as int).push(b@[i as int]));
        i = i + 1;
    }
    proof {
        lemma_chars_lt_common_prefix(a@, b@, i as int);
        lemma_chars_lt_irreflexive(a@);
        lemma_chars_lt_trichotomy(a@, b@);
    }
    if a.len() < b.len() {
        -1
    } else if a.len() > b.len() {
        1
    } else {
        assert(a@ =~= b@.take(i as int));
        assert(b@ =~= b@.take(i as int));
        0
    }
}

/// Sequences that agree on their first `i` elements compare as their suffixes do.
pub proof fn lemma_chars_lt_common_prefix(a: Seq<char>, b: Seq<char>, i: int)
    requires
        0 <= i <= a.len(),
        i <= b.len(),
        a.take(i) == b.take(i),
    ensures
        spec_chars_lt(a, b) == spec_chars_lt(a.skip(i), b.skip(i)),
        spec_chars_lt(b, a) == spec_chars_lt(b.skip(i), a.skip(i)),
    decreases i,
{
    if i > 0 {
        assert(a[0] == a.take(i)[0]);
        assert(b[0] == b.take(i)[0]);
        assert(a.drop_first().take(i - 1) =~= a.take(i).drop_first());
        assert(b.drop_first().take(i - 1) =~= b.take(i).drop_first());
        lemma_chars_lt_common_prefix(a.drop_first(), b.drop_first(), i - 1);
        assert(a.drop_first().skip(i - 1) =~= a.skip(i));
        assert(b.drop_first().skip(i - 1) =~= b.skip(i));
    } else {
        assert(a.skip(0) =~= a);
        assert(b.skip(0) =~= b);
    }
}

/// A total preorder on the elements of a type, with an executable test.
pub trait Ranked: Sized {
    spec fn spec_precedes(a: Self, b: Self) -> bool;

    proof fn lemma_precedes_total(a: Self, b: Self)
        ensures
            Self::spec_precedes(a, b) || Self::spec_precedes(b, a),
    ;

    proof fn lemma_precedes_transitive(a: Self, b: Self, c: Self)
        requires
            Self::spec_precedes(a, b),
            Self::spec_precedes(b, c),
        ensures
            Self::spec_precedes(a, c),
    ;

    fn precedes(&self, other: &Self) -> (r: bool)
        ensures
            r == Self::spec_precedes(*self, *other),
    ;
}

pub open spec fn spec_sorted<T: Ranked>(s: Seq<T>) -> bool {
    forall|i: int, j: int| 0 <= i < j < s.len() ==> T::spec_precedes(s[i], s[j])
}

proof fn lemma_multiset_insert<T>(s: Seq<T>, i: int, x: T)
    requires
        0 <= i <= s.len(),
    ensures
        s.insert(i, x).to_multiset() =~= s.to_multiset().insert(x),
{
    broadcast use vstd::seq_lib::group_to_multiset_ensures;

    let t = s.insert(i, x);
    t.to_multiset_ensures();
    assert(t.remove(i) =~= s);
    assert(t[i] == x);
    assert(t.to_multiset().remove(x) =~= s.to_multiset());
    assert(t.contains(x));
    assert(t.to_multiset().count(x) > 0);
    assert forall|y: T| #[trigger] t.to_multiset().count(y) == s.to_multiset().insert(x).count(y) by {
        if y == x {
        } else {
        }
    }
}

/// Stable insertion sort: the result holds the same elements, in an order in which each
/// element precedes every later one.
pub fn sort_ranked<T: Ranked>(v: Vec<T>) -> (r: Vec<T>)
    ensures
        r@.to_multiset() == v@.to_multiset(),
        spec_sorted(r@),
{
    broadcast use vstd::seq_lib::group_to_multiset_ensures;

    let mut rest = v;
    let mut out: Vec<T> = Vec::new();
    let ghost original = rest@;
    while rest.len() > 0
        invariant
            out@.to_multiset().add(rest@.to_multiset()) == original.to_multiset(),
            spec_sorted(out@),
        decreases rest.len(),
    {
        let ghost before_rest = rest@;
        let x = rest.remove(0);
        proof {
            assert(before_rest.remove(0) =~= rest@);
            assert(before_rest.to_multiset() =~= rest@.to_multiset().insert(x)) by {
                before_rest.to_multiset_ensures();
                assert(before_rest.to_multiset().remove(before_rest[0]) =~= rest@.to_multiset());
                assert(before_rest.contains(x));
            }
        }
        let mut j: usize = 0;
        while j < out.len() && out[j].precedes(&x)
            invariant
                j <= out.len(),
                forall|k: int| 0 <= k < j ==> T::spec_precedes(out@[k], x),
            decreases out.len() - j,
        {
            j = j + 1;
        }
        proof {
            if j < out.len() {
                T::lemma_precedes_total(out@[j as int], x);
                assert forall|k: int| j <= k < out@.len() implies T::spec_precedes(
                    x,
                    #[trigger] out@[k],
                ) by {
                    if k > j {
                        T::lemma_precedes_transitive(x, out@[j as int], out@[k]);
                    }
                }
            }
        }
        let ghost before_out = out@;
        out.insert(j, x);
        proof {
            lemma_multiset_insert(before_out, j as int, x);
            assert forall|a: int, b: int| 0 <= a < b < out@.len() implies T::spec_precedes(
                out@[a],
                out@[b],
            ) by {
                if b < j {
                } else if a < j && b == j {
                } else if a < j && b > j {
                    T::lemma_precedes_transitive(out@[a], x, out@[b]);
                } else if a == j {
                } else {
                }
            }
        }
    }
    proof {
        assert(rest@ =~= Seq::<T>::empty());
        assert(rest@.to_multiset() =~= Multiset::empty());
    }
    out
}

} // verus!
