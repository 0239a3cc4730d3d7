//! The order of `String`s (byte-wise, which for UTF-8 is the order of the
//! code points) and sorting by it.
use vstd::prelude::*;
use crate::text::chars_of;

verus! {

/// `a <= b` in the order of `String`: code point by code point, a proper
/// prefix before the longer string.
pub open spec fn lex_le(a: Seq<char>, b: Seq<char>) -> bool
    decreases a.len(),
{
    if a.len() == 0 {
        true
    } else if b.len() == 0 {
        false
    } else if a[0] != b[0] {
        (a[0] as u32) < (b[0] as u32)
    } else {
        lex_le(a.drop_first(), b.drop_first())
    }
}

/// Any two strings are ordered one way or the other.
pub proof fn lemma_lex_total(a: Seq<char>, b: Seq<char>)
    ensures
        lex_le(a, b) || lex_le(b, a),
    decreases a.len(),
{
    if a.len() > 0 && b.len() > 0 {
        if a[0] == b[0] {
            lemma_lex_total(a.drop_first(), b.drop_first());
        } else {
            vstd::utf8::char_u32_cast(a[0], a[0] as u32);
            vstd::utf8::char_u32_cast(b[0], b[0] as u32);
        }
    }
}

/// Every string is below or equal to itself.
pub proof fn lemma_lex_refl(a: Seq<char>)
    ensures
        lex_le(a, a),
    decreases a.len(),
{
    if a.len() > 0 {
        lemma_lex_refl(a.drop_first());
    }
}

/// The order is transitive.
pub proof fn lemma_lex_trans(a: Seq<char>, b: Seq<char>, c: Seq<char>)
    requires
        lex_le(a, b),
        lex_le(b, c),
    ensures
        lex_le(a, c),
    decreases a.len(),
{
    if a.len() > 0 && b.len() > 0 && c.len() > 0 && a[0] == b[0] && b[0] == c[0] {
        lemma_lex_trans(a.drop_first(), b.drop_first(), c.drop_first());
    }
}

/// Strings that are ordered both ways are equal.
pub proof fn lemma_lex_antisym(a: Seq<char>, b: Seq<char>)
    requires
        lex_le(a, b),
        lex_le(b, a),
    ensures
        a == b,
    decreases a.len(),
{
    if a.len() > 0 && b.len() > 0 {
        lemma_lex_antisym(a.drop_first(), b.drop_first());
        assert(a =~= seq![a[0]] + a.drop_first());
        assert(b =~= seq![b[0]] + b.drop_first());
    }
}

/// The order of strings is the usual one: `a <= b` exactly when `a` is a
/// prefix of `b` (a proper prefix comes first) or, at the first position
/// where they differ, the code point of `a` is the smaller.
pub proof fn lemma_lex_le_is_string_order(a: Seq<char>, b: Seq<char>)
    ensures
        lex_le(a, b) <==> (a.is_prefix_of(b) || exists|k: int|
            0 <= k < a.len() && k < b.len() && a.take(k) == b.take(k) && (a[k] as u32) < (
            b[k] as u32)),
    decreases a.len(),
{
    if a.len() == 0 {
        assert(a.is_prefix_of(b)) by {
            assert(a =~= b.subrange(0, 0));
        }
    } else if b.len() == 0 {
        assert(!a.is_prefix_of(b));
    } else if a[0] != b[0] {
        assert(!a.is_prefix_of(b)) by {
            if a.is_prefix_of(b) {
                assert(b.subrange(0, a.len() as int)[0] == b[0]);
            }
        }
        if (a[0] as u32) < (b[0] as u32) {
            assert(a.take(0) =~= b.take(0));
        } else {
            assert forall|k: int|
                0 <= k < a.len() && k < b.len() && a.take(k) == b.take(k) implies !((
            a[k] as u32) < (b[k] as u32)) by {
                if k > 0 {
                    assert(a.take(k)[0] == a[0]);
                    assert(b.take(k)[0] == b[0]);
                } else {
                    vstd::utf8::char_u32_cast(a[0], a[0] as u32);
                    vstd::utf8::char_u32_cast(b[0], b[0] as u32);
                }
            }
        }
    } else {
        let a1 = a.drop_first();
        let b1 = b.drop_first();
        lemma_lex_le_is_string_order(a1, b1);
        assert(a.is_prefix_of(b) <==> a1.is_prefix_of(b1)) by {
            if a.is_prefix_of(b) {
                assert(a1 =~= b1.subrange(0, a1.len() as int)) by {
                    assert forall|j: int| 0 <= j < a1.len() implies a1[j] == b1.subrange(
                        0,
                        a1.len() as int,
                    )[j] by {
                        assert(a[j + 1] == b.subrange(0, a.len() as int)[j + 1]);
                    }
                }
            }
            if a1.is_prefix_of(b1) {
                assert(a =~= b.subrange(0, a.len() as int)) by {
                    assert forall|j: int| 0 <= j < a.len() implies a[j] == b.subrange(
                        0,
                        a.len() as int,
                    )[j] by {
                        if j > 0 {
                            assert(a1[j - 1] == b1.subrange(0, a1.len() as int)[j - 1]);
                        }
                    }
                }
            }
        }
        if exists|k: int|
            0 <= k < a.len() && k < b.len() && a.take(k) == b.take(k) && (a[k] as u32) < (
            b[k] as u32) {
            let k = choose|k: int|
                0 <= k < a.len() && k < b.len() && a.take(k) == b.take(k) && (a[k] as u32) < (
                b[k] as u32);
            assert(k > 0);
            assert(a1.take(k - 1) =~= a.take(k).drop_first());
            assert(b1.take(k - 1) =~= b.take(k).drop_first());
            assert(a1[k - 1] == a[k] && b1[k - 1] == b[k]);
        }
        if exists|k: int|
            0 <= k < a1.len() && k < b1.len() && a1.take(k) == b1.take(k) && (a1[k] as u32) < (
            b1[k] as u32) {
            let k = choose|k: int|
                0 <= k < a1.len() && k < b1.len() && a1.take(k) == b1.take(k) && (a1[k] as u32)
                    < (b1[k] as u32);
            assert(a.take(k + 1) =~= seq![a[0]] + a1.take(k));
            assert(b.take(k + 1) =~= seq![b[0]] + b1.take(k));
            assert(a[k + 1] == a1[k] && b[k + 1] == b1[k]);
        }
    }
}

/// A proper prefix comes before the longer string, never after it.
pub proof fn lemma_prefix_first(a: Seq<char>, c: Seq<char>)
    requires
        c.len() > 0,
    ensures
        lex_le(a, a + c),
        !lex_le(a + c, a),
    decreases a.len(),
{
    if a.len() > 0 {
        lemma_prefix_first(a.drop_first(), c);
        assert((a + c).drop_first() =~= a.drop_first() + c);
        assert((a + c)[0] == a[0]);
    }
}

/// Whether `a <= b`.
pub fn chars_le(a: &[char], b: &[char]) -> (r: bool)
    ensures
        r == lex_le(a@, b@),
{
    let mut i: usize = 0;
    assert(a@.skip(0) =~= a@);
    assert(b@.skip(0) =~= b@);
    while i < a.len() && i < b.len() && a[i] == b[i]
        invariant
            i <= a@.len(),
            i <= b@.len(),
            lex_le(a@, b@) == lex_le(a@.skip(i as int), b@.skip(i as int)),
        decreases a@.len() - i,
    {
        assert(a@.skip(i as int).drop_first() =~= a@.skip(i + 1));
        assert(b@.skip(i as int).drop_first() =~= b@.skip(i + 1));
        i = i + 1;
    }
    if i == a.len() {
        true
    } else if i == b.len() {
        false
    } else {
        (a[i] as u32) < (b[i] as u32)
    }
}

/// Whether `a <= b` as `String`s.
pub fn string_le(a: &String, b: &String) -> (r: bool)
    ensures
        r == lex_le(a@, b@),
{
    let x = chars_of(a.as_str());
    let y = chars_of(b.as_str());
    chars_le(&x, &y)
}

/// The strings of `s` come in ascending order.
pub open spec fn sorted(s: Seq<String>) -> bool {
    forall|i: int, j: int| 0 <= i < j < s.len() ==> lex_le(#[trigger] s[i]@, #[trigger] s[j]@)
}

/// The strings of `v` in ascending order (`Vec::sort`).
pub fn sort_strings(v: &Vec<String>) -> (r: Vec<String>)
    ensures
        sorted(r@),
        r@.to_multiset() == v@.to_multiset(),
{
    broadcast use vstd::seq_lib::to_multiset_build, vstd::seq_lib::to_multiset_insert;

    let mut r: Vec<String> = Vec::new();
    let mut i: usize = 0;
    assert(v@.take(0) =~= Seq::<String>::empty());
    while i < v.len()
        invariant
            i <= v@.len(),
            sorted(r@),
            r@.to_multiset() == v@.take(i as int).to_multiset(),
        decreases v@.len() - i,
    {
        let x = v[i].clone();
        let mut p: usize = 0;
        while p < r.len() && string_le(&r[p], &x)
            invariant
                p <= r@.len(),
                forall|k: int| 0 <= k < p ==> lex_le(#[trigger] r@[k]@, x@),
            decreases r@.len() - p,
        {
            p = p + 1;
        }
        let ghost old_r = r@;
        proof {
            if p < old_r.len() {
                lemma_lex_total(old_r[p as int]@, x@);
            }
        }
        r.insert(p, x);
        assert forall|a: int, b: int| 0 <= a < b < r@.len() implies lex_le(
            #[trigger] r@[a]@,
            #[trigger] r@[b]@,
        ) by {
            if b < p {
                assert(r@[a] == old_r[a] && r@[b] == old_r[b]);
            } else if b == p {
                assert(r@[a] == old_r[a]);
            } else if a == p {
                assert(r@[b] == old_r[b - 1]);
                if b - 1 > p {
                    lemma_lex_trans(x@, old_r[p as int]@, old_r[b - 1]@);
                }
            } else if a < p {
                assert(r@[a] == old_r[a] && r@[b] == old_r[b - 1]);
                if p < old_r.len() {
                    lemma_lex_trans(old_r[a]@, x@, old_r[p as int]@);
                    if b - 1 > p {
                        lemma_lex_trans(old_r[a]@, old_r[p as int]@, old_r[b - 1]@);
                    }
                }
            } else {
                assert(r@[a] == old_r[a - 1] && r@[b] == old_r[b - 1]);
            }
        }
        proof {
            assert(v@.take(i + 1) =~= v@.take(i as int).push(v@[i as int]));
            vstd::seq_lib::to_multiset_insert(old_r, p as int, x);
            vstd::seq_lib::to_multiset_build(v@.take(i as int), v@[i as int]);
        }
        i = i + 1;
    }
    assert(v@.take(v@.len() as int) =~= v@);
    r
}

} // verus!
