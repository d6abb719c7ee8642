//! Lexicographic order on path strings, and its totality.
//!
//! Directory hashing must be deterministic, so the file and directory
//! listings are sorted before they are joined. The order is lexicographic on
//! the characters of the path string; file listings carry the content digest
//! beside the path, and ties between equal paths are broken by the digest,
//! which keeps the order on pairs total.

use vstd::prelude::*;
use vstd::relations::{sorted_by, total_ordering};
use vstd::multiset::Multiset;
use vstd::seq_lib::lemma_sorted_unique;
use vstd::string::StrSliceExecFns;

verus! {

/// Lexicographic order on character sequences, comparing scalar values.
pub open spec fn lex_le(a: Seq<char>, b: Seq<char>) -> bool
    decreases a.len(),
{
    if a.len() == 0 {
        true
    } else if b.len() == 0 {
        false
    } else if a[0] == b[0] {
        lex_le(a.drop_first(), b.drop_first())
    } else {
        (a[0] as u32) < (b[0] as u32)
    }
}

/// `lex_le` as a value, for `sort_by`.
pub open spec fn lex_le_fn() -> spec_fn(Seq<char>, Seq<char>) -> bool {
    |a: Seq<char>, b: Seq<char>| lex_le(a, b)
}

pub proof fn lemma_lex_le_reflexive(a: Seq<char>)
    ensures
        lex_le(a, a),
    decreases a.len(),
{
    if a.len() > 0 {
        lemma_lex_le_reflexive(a.drop_first());
    }
}

pub proof fn lemma_lex_le_connected(a: Seq<char>, b: Seq<char>)
    ensures
        lex_le(a, b) || lex_le(b, a),
    decreases a.len(),
{
    if a.len() == 0 || b.len() == 0 {
    } else if a[0] == b[0] {
        lemma_lex_le_connected(a.drop_first(), b.drop_first());
    } else {
        vstd::utf8::char_u32_cast(a[0], a[0] as u32);
        vstd::utf8::char_u32_cast(b[0], b[0] as u32);
        assert(a[0] as u32 != b[0] as u32);
    }
}

pub proof fn lemma_lex_le_antisymmetric(a: Seq<char>, b: Seq<char>)
    requires
        lex_le(a, b),
        lex_le(b, a),
    ensures
        a == b,
    decreases a.len(),
{
    if a.len() == 0 {
        assert(b.len() == 0);
        assert(a =~= b);
    } else {
        assert(a[0] == b[0]);
        lemma_lex_le_antisymmetric(a.drop_first(), b.drop_first());
        assert(a.len() == b.len());
        assert forall|i: int| 0 <= i < a.len() implies a[i] == b[i] by {
            if i > 0 {
                assert(a[i] == a.drop_first()[i - 1]);
                assert(b[i] == b.drop_first()[i - 1]);
            }
        }
        assert(a =~= b);
    }
}

pub proof fn lemma_lex_le_transitive(a: Seq<char>, b: Seq<char>, c: Seq<char>)
    requires
        lex_le(a, b),
        lex_le(b, c),
    ensures
        lex_le(a, c),
    decreases a.len(),
{
    if a.len() == 0 || b.len() == 0 || c.len() == 0 {
    } else if a[0] == b[0] && b[0] == c[0] {
        lemma_lex_le_transitive(a.drop_first(), b.drop_first(), c.drop_first());
    }
}

/// Lexicographic order on path strings is a total order.
pub proof fn lemma_lex_le_total()
    ensures
        total_ordering(lex_le_fn()),
{
    let leq = lex_le_fn();
    assert forall|a: Seq<char>| #[trigger] leq(a, a) by {
        lemma_lex_le_reflexive(a);
    }
    assert forall|a: Seq<char>, b: Seq<char>| #[trigger] leq(a, b) || #[trigger] leq(b, a) by {
        lemma_lex_le_connected(a, b);
    }
    assert forall|a: Seq<char>, b: Seq<char>| #[trigger] leq(a, b) && #[trigger] leq(b, a) implies a
        == b by {
        lemma_lex_le_antisymmetric(a, b);
    }
    assert forall|a: Seq<char>, b: Seq<char>, c: Seq<char>|
        #[trigger] leq(a, b) && #[trigger] leq(b, c) implies leq(a, c) by {
        lemma_lex_le_transitive(a, b, c);
    }
}

/// Order on (path, digest) pairs: by path, with equal paths ordered by
/// digest.
pub open spec fn pair_le(a: (Seq<char>, Seq<char>), b: (Seq<char>, Seq<char>)) -> bool {
    if a.0 == b.0 {
        lex_le(a.1, b.1)
    } else {
        lex_le(a.0, b.0)
    }
}

/// `pair_le` as a value, for `sort_by`.
pub open spec fn pair_le_fn() -> spec_fn((Seq<char>, Seq<char>), (Seq<char>, Seq<char>)) -> bool {
    |a: (Seq<char>, Seq<char>), b: (Seq<char>, Seq<char>)| pair_le(a, b)
}

/// The pair order is a total order.
pub proof fn lemma_pair_le_total()
    ensures
        total_ordering(pair_le_fn()),
{
    let leq = pair_le_fn();
    assert forall|a: (Seq<char>, Seq<char>)| #[trigger] leq(a, a) by {
        lemma_lex_le_reflexive(a.1);
    }
    assert forall|a: (Seq<char>, Seq<char>), b: (Seq<char>, Seq<char>)|
        #[trigger] leq(a, b) || #[trigger] leq(b, a) by {
        if a.0 == b.0 {
            lemma_lex_le_connected(a.1, b.1);
        } else {
            lemma_lex_le_connected(a.0, b.0);
        }
    }
    assert forall|a: (Seq<char>, Seq<char>), b: (Seq<char>, Seq<char>)|
        #[trigger] leq(a, b) && #[trigger] leq(b, a) implies a == b by {
        if a.0 == b.0 {
            lemma_lex_le_antisymmetric(a.1, b.1);
        } else {
            lemma_lex_le_antisymmetric(a.0, b.0);
        }
    }
    assert forall|a: (Seq<char>, Seq<char>), b: (Seq<char>, Seq<char>), c: (Seq<char>, Seq<char>)|
        #[trigger] leq(a, b) && #[trigger] leq(b, c) implies leq(a, c) by {
        if a.0 == b.0 && b.0 == c.0 {
            lemma_lex_le_transitive(a.1, b.1, c.1);
        } else if a.0 != b.0 && b.0 != c.0 {
            lemma_lex_le_transitive(a.0, b.0, c.0);
            if a.0 == c.0 {
                lemma_lex_le_antisymmetric(a.0, b.0);
            }
        }
    }
}

/// If the first `i` characters agree, the order is decided by what follows
/// them.
proof fn lemma_lex_le_skip(a: Seq<char>, b: Seq<char>, i: int)
    requires
        0 <= i <= a.len(),
        i <= b.len(),
        forall|j: int| 0 <= j < i ==> a[j] == b[j],
    ensures
        lex_le(a, b) == lex_le(a.skip(i), b.skip(i)),
    decreases i,
{
    if i == 0 {
        assert(a.skip(0) =~= a);
        assert(b.skip(0) =~= b);
    } else {
        assert(a[0] == b[0]);
        assert(a.drop_first().skip(i - 1) =~= a.skip(i));
        assert(b.drop_first().skip(i - 1) =~= b.skip(i));
        lemma_lex_le_skip(a.drop_first(), b.drop_first(), i - 1);
    }
}

/// Decides the lexicographic order of two strings.
pub fn str_le(a: &String, b: &String) -> (r: bool)
    ensures
        r == lex_le(a@, b@),
{
    let alen = a.as_str().unicode_len();
    let blen = b.as_str().unicode_len();
    let mut i: usize = 0;
    while i < alen && i < blen
        invariant
            alen == a@.len(),
            blen == b@.len(),
            i <= alen,
            i <= blen,
            forall|j: int| 0 <= j < i ==> a@[j] == b@[j],
        decreases alen - i,
    {
        let ca = a.as_str().get_char(i);
        let cb = b.as_str().get_char(i);
        if ca as u32 != cb as u32 {
            proof {
                lemma_lex_le_skip(a@, b@, i as int);
                assert(a@.skip(i as int)[0] == a@[i as int]);
                assert(b@.skip(i as int)[0] == b@[i as int]);
            }
            return (ca as u32) < (cb as u32);
        }
        proof {
            vstd::utf8::char_u32_cast(ca, ca as u32);
            vstd::utf8::char_u32_cast(cb, cb as u32);
        }
        i = i + 1;
    }
    proof {
        lemma_lex_le_skip(a@, b@, i as int);
    }
    alen <= blen
}

/// The character contents of a (path, digest) pair of strings.
pub open spec fn pair_view(p: (String, String)) -> (Seq<char>, Seq<char>) {
    (p.0@, p.1@)
}

/// The character contents of a sequence of (path, digest) pairs.
pub open spec fn pairs_view(s: Seq<(String, String)>) -> Seq<(Seq<char>, Seq<char>)> {
    s.map_values(|p: (String, String)| pair_view(p))
}

/// The character contents of a sequence of strings.
pub open spec fn strs_view(s: Seq<String>) -> Seq<Seq<char>> {
    s.map_values(|p: String| p@)
}

/// Decides the pair order of two (path, digest) pairs.
pub fn pair_le_exec(a: &(String, String), b: &(String, String)) -> (r: bool)
    ensures
        r == pair_le(pair_view(*a), pair_view(*b)),
{
    if a.0.eq(&b.0) {
        str_le(&a.1, &b.1)
    } else {
        str_le(&a.0, &b.0)
    }
}

/// The pair order is strongly connected.
pub proof fn lemma_pair_le_connected(a: (Seq<char>, Seq<char>), b: (Seq<char>, Seq<char>))
    ensures
        pair_le(a, b) || pair_le(b, a),
{
    if a.0 == b.0 {
        lemma_lex_le_connected(a.1, b.1);
    } else {
        lemma_lex_le_connected(a.0, b.0);
    }
}

/// The pair order is transitive.
pub proof fn lemma_pair_le_transitive(
    a: (Seq<char>, Seq<char>),
    b: (Seq<char>, Seq<char>),
    c: (Seq<char>, Seq<char>),
)
    requires
        pair_le(a, b),
        pair_le(b, c),
    ensures
        pair_le(a, c),
{
    if a.0 == b.0 && b.0 == c.0 {
        lemma_lex_le_transitive(a.1, b.1, c.1);
    } else if a.0 != b.0 && b.0 != c.0 {
        lemma_lex_le_transitive(a.0, b.0, c.0);
        if a.0 == c.0 {
            lemma_lex_le_antisymmetric(a.0, b.0);
        }
    }
}

/// Pairs in non-decreasing pair order.
pub open spec fn pairs_sorted(s: Seq<(Seq<char>, Seq<char>)>) -> bool {
    forall|i: int, j: int| 0 <= i < j < s.len() ==> pair_le(#[trigger] s[i], #[trigger] s[j])
}

/// Strings in non-decreasing lexicographic order.
pub open spec fn strs_sorted(s: Seq<Seq<char>>) -> bool {
    forall|i: int, j: int| 0 <= i < j < s.len() ==> lex_le(#[trigger] s[i], #[trigger] s[j])
}

/// Sorts (path, digest) pairs into the pair order. Only the character
/// contents of the result are stated.
pub fn sort_pairs(v: Vec<(String, String)>) -> (r: Vec<(String, String)>)
    ensures
        pairs_view(r@) == pairs_view(v@).sort_by(pair_le_fn()),
{
    let ghost orig = pairs_view(v@);
    let mut rest = v;
    let mut out: Vec<(String, String)> = Vec::new();
    proof {
        broadcast use vstd::multiset::group_multiset_axioms;

        assert(pairs_view(out@) =~= Seq::empty());
        assert(pairs_view(rest@) =~= orig);
        vstd::seq_lib::to_multiset_len(Seq::<(Seq<char>, Seq<char>)>::empty());
        vstd::multiset::lemma_multiset_empty_len(
            Seq::<(Seq<char>, Seq<char>)>::empty().to_multiset(),
        );
        assert(Seq::<(Seq<char>, Seq<char>)>::empty().to_multiset().add(orig.to_multiset())
            =~= orig.to_multiset());
    }
    while rest.len() > 0
        invariant
            pairs_sorted(pairs_view(out@)),
            pairs_view(out@).to_multiset().add(pairs_view(rest@).to_multiset())
                == orig.to_multiset(),
        decreases rest.len(),
    {
        let ghost rest0 = pairs_view(rest@);
        let ghost out0 = pairs_view(out@);
        let x = rest.remove(0);
        let ghost xv = pair_view(x);
        proof {
            assert(pairs_view(rest@) =~= rest0.remove(0));
            vstd::seq_lib::to_multiset_remove(rest0, 0);
            assert(rest0[0] == xv);
            assert(rest0.contains(xv));
            vstd::seq_lib::to_multiset_contains(rest0, xv);
            assert(rest0.to_multiset().count(xv) > 0);
        }
        let mut j: usize = 0;
        while j < out.len() && pair_le_exec(&out[j], &x)
            invariant
                j <= out@.len(),
                out0 == pairs_view(out@),
                xv == pair_view(x),
                forall|k: int| 0 <= k < j ==> pair_le(#[trigger] out0[k], xv),
            decreases out@.len() - j,
        {
            j = j + 1;
        }
        let ghost pos = j as int;
        proof {
            if pos < out0.len() {
                lemma_pair_le_connected(out0[pos], xv);
                assert(pair_le(xv, out0[pos]));
            }
        }
        out.insert(j, x);
        proof {
            broadcast use vstd::multiset::group_multiset_axioms;

            let s = out0.insert(pos, xv);
            assert(pairs_view(out@) =~= s);
            vstd::seq_lib::to_multiset_insert(out0, pos, xv);
            assert forall|i1: int, i2: int| 0 <= i1 < i2 < s.len() implies pair_le(
                #[trigger] s[i1],
                #[trigger] s[i2],
            ) by {
                if i2 < pos {
                    assert(s[i1] == out0[i1] && s[i2] == out0[i2]);
                } else if i1 < pos && i2 == pos {
                    assert(s[i1] == out0[i1] && s[i2] == xv);
                } else if i1 < pos && i2 > pos {
                    assert(s[i1] == out0[i1] && s[i2] == out0[i2 - 1]);
                } else if i1 == pos && i2 > pos {
                    assert(s[i1] == xv && s[i2] == out0[i2 - 1]);
                    if i2 - 1 > pos {
                        assert(pair_le(out0[pos], out0[i2 - 1]));
                        lemma_pair_le_transitive(xv, out0[pos], out0[i2 - 1]);
                    }
                } else {
                    assert(s[i1] == out0[i1 - 1] && s[i2] == out0[i2 - 1]);
                }
            }
            assert(pairs_view(out@).to_multiset().add(pairs_view(rest@).to_multiset())
                =~= orig.to_multiset());
        }
    }
    proof {
        broadcast use vstd::multiset::group_multiset_axioms;

        assert(pairs_view(rest@) =~= Seq::empty());
        vstd::seq_lib::to_multiset_len(pairs_view(rest@));
        vstd::multiset::lemma_multiset_empty_len(pairs_view(rest@).to_multiset());
        assert(pairs_view(out@).to_multiset() =~= orig.to_multiset());
        lemma_pair_le_total();
        orig.lemma_sort_by_ensures(pair_le_fn());
        let ov = pairs_view(out@);
        assert forall|i: int, j: int| 0 <= i < j < ov.len() implies #[trigger] (pair_le_fn()(
            ov[i],
            ov[j],
        )) by {
            assert(pair_le(ov[i], ov[j]));
        }
        assert(sorted_by(ov, pair_le_fn()));
        lemma_sorted_unique(ov, orig.sort_by(pair_le_fn()), pair_le_fn());
    }
    out
}

/// Sorts path strings into lexicographic order. Only the character contents
/// of the result are stated.
pub fn sort_strings(v: Vec<String>) -> (r: Vec<String>)
    ensures
        strs_view(r@) == strs_view(v@).sort_by(lex_le_fn()),
{
    let ghost orig = strs_view(v@);
    let mut rest = v;
    let mut out: Vec<String> = Vec::new();
    proof {
        broadcast use vstd::multiset::group_multiset_axioms;

        assert(strs_view(out@) =~= Seq::empty());
        assert(strs_view(rest@) =~= orig);
        vstd::seq_lib::to_multiset_len(Seq::<Seq<char>>::empty());
        vstd::multiset::lemma_multiset_empty_len(Seq::<Seq<char>>::empty().to_multiset());
        assert(Seq::<Seq<char>>::empty().to_multiset().add(orig.to_multiset())
            =~= orig.to_multiset());
    }
    while rest.len() > 0
        invariant
            strs_sorted(strs_view(out@)),
            strs_view(out@).to_multiset().add(strs_view(rest@).to_multiset()) == orig.to_multiset(),
        decreases rest.len(),
    {
        let ghost rest0 = strs_view(rest@);
        let ghost out0 = strs_view(out@);
        let x = rest.remove(0);
        let ghost xv = x@;
        proof {
            assert(strs_view(rest@) =~= rest0.remove(0));
            vstd::seq_lib::to_multiset_remove(rest0, 0);
            assert(rest0[0] == xv);
            assert(rest0.contains(xv));
            vstd::seq_lib::to_multiset_contains(rest0, xv);
            assert(rest0.to_multiset().count(xv) > 0);
        }
        let mut j: usize = 0;
        while j < out.len() && str_le(&out[j], &x)
            invariant
                j <= out@.len(),
                out0 == strs_view(out@),
                xv == x@,
                forall|k: int| 0 <= k < j ==> lex_le(#[trigger] out0[k], xv),
            decreases out@.len() - j,
        {
            j = j + 1;
        }
        let ghost pos = j as int;
        proof {
            if pos < out0.len() {
                lemma_lex_le_connected(out0[pos], xv);
                assert(lex_le(xv, out0[pos]));
            }
        }
        out.insert(j, x);
        proof {
            broadcast use vstd::multiset::group_multiset_axioms;

            let s = out0.insert(pos, xv);
            assert(strs_view(out@) =~= s);
            vstd::seq_lib::to_multiset_insert(out0, pos, xv);
            assert forall|i1: int, i2: int| 0 <= i1 < i2 < s.len() implies lex_le(
                #[trigger] s[i1],
                #[trigger] s[i2],
            ) by {
                if i2 < pos {
                    assert(s[i1] == out0[i1] && s[i2] == out0[i2]);
                } else if i1 < pos && i2 == pos {
                    assert(s[i1] == out0[i1] && s[i2] == xv);
                } else if i1 < pos && i2 > pos {
                    assert(s[i1] == out0[i1] && s[i2] == out0[i2 - 1]);
                } else if i1 == pos && i2 > pos {
                    assert(s[i1] == xv && s[i2] == out0[i2 - 1]);
                    if i2 - 1 > pos {
                        assert(lex_le(out0[pos], out0[i2 - 1]));
                        lemma_lex_le_transitive(xv, out0[pos], out0[i2 - 1]);
                    }
                } else {
                    assert(s[i1] == out0[i1 - 1] && s[i2] == out0[i2 - 1]);
                }
            }
            assert(strs_view(out@).to_multiset().add(strs_view(rest@).to_multiset())
                =~= orig.to_multiset());
        }
    }
    proof {
        broadcast use vstd::multiset::group_multiset_axioms;

        assert(strs_view(rest@) =~= Seq::empty());
        vstd::seq_lib::to_multiset_len(strs_view(rest@));
        vstd::multiset::lemma_multiset_empty_len(strs_view(rest@).to_multiset());
        assert(strs_view(out@).to_multiset() =~= orig.to_multiset());
        lemma_lex_le_total();
        orig.lemma_sort_by_ensures(lex_le_fn());
        let ov = strs_view(out@);
        assert forall|i: int, j: int| 0 <= i < j < ov.len() implies #[trigger] (lex_le_fn()(
            ov[i],
            ov[j],
        )) by {
            assert(lex_le(ov[i], ov[j]));
        }
        assert(sorted_by(ov, lex_le_fn()));
        lemma_sorted_unique(ov, orig.sort_by(lex_le_fn()), lex_le_fn());
    }
    out
}

} // verus!
