//! Sorting texts by their bytes.

use crate::text::{lemma_encode_injective, texts};
use vstd::prelude::*;
use vstd::relations::{
    antisymmetric, reflexive, sorted_by, strongly_connected, total_ordering, transitive,
};
use vstd::seq_lib::lemma_sorted_unique;
use vstd::utf8::encode_utf8;

verus! {

/// Lexicographic order of byte strings.
pub open spec fn bytes_le(a: Seq<u8>, b: Seq<u8>) -> bool
    decreases a.len(),
{
    ||| a.len() == 0
    ||| b.len() > 0 && a[0] < b[0]
    ||| b.len() > 0 && a[0] == b[0] && bytes_le(a.drop_first(), b.drop_first())
}

/// The order of texts: that of their bytes.
pub open spec fn text_le(a: Seq<char>, b: Seq<char>) -> bool {
    bytes_le(encode_utf8(a), encode_utf8(b))
}

/// [`text_le`] as a relation.
pub open spec fn text_order() -> spec_fn(Seq<char>, Seq<char>) -> bool {
    |a: Seq<char>, b: Seq<char>| text_le(a, b)
}

proof fn lemma_bytes_reflexive(a: Seq<u8>)
    ensures
        bytes_le(a, a),
    decreases a.len(),
{
    if a.len() > 0 {
        lemma_bytes_reflexive(a.drop_first());
    }
}

proof fn lemma_bytes_antisymmetric(a: Seq<u8>, b: Seq<u8>)
    requires
        bytes_le(a, b),
        bytes_le(b, a),
    ensures
        a == b,
    decreases a.len(),
{
    if a.len() > 0 && b.len() > 0 {
        lemma_bytes_antisymmetric(a.drop_first(), b.drop_first());
        assert(a =~= seq![a[0]] + a.drop_first());
        assert(b =~= seq![b[0]] + b.drop_first());
    } else {
        assert(a =~= b);
    }
}

proof fn lemma_bytes_transitive(a: Seq<u8>, b: Seq<u8>, c: Seq<u8>)
    requires
        bytes_le(a, b),
        bytes_le(b, c),
    ensures
        bytes_le(a, c),
    decreases a.len(),
{
    if a.len() > 0 && b.len() > 0 && c.len() > 0 && a[0] == b[0] && b[0] == c[0] {
        lemma_bytes_transitive(a.drop_first(), b.drop_first(), c.drop_first());
    }
}

proof fn lemma_bytes_connected(a: Seq<u8>, b: Seq<u8>)
    ensures
        bytes_le(a, b) || bytes_le(b, a),
    decreases a.len(),
{
    if a.len() > 0 && b.len() > 0 {
        lemma_bytes_connected(a.drop_first(), b.drop_first());
    }
}

/// Texts are totally ordered by their bytes.
pub proof fn lemma_text_order()
    ensures
        total_ordering(text_order()),
{
    let leq = text_order();
    assert forall|a: Seq<char>| #[trigger] leq(a, a) by {
        lemma_bytes_reflexive(encode_utf8(a));
    }
    assert forall|a: Seq<char>, b: Seq<char>| #[trigger] leq(a, b) && #[trigger] leq(
        b,
        a,
    ) implies a == b by {
        lemma_bytes_antisymmetric(encode_utf8(a), encode_utf8(b));
        lemma_encode_injective(a, b);
    }
    assert forall|a: Seq<char>, b: Seq<char>, c: Seq<char>| #[trigger] leq(a, b) && #[trigger] leq(
        b,
        c,
    ) implies leq(a, c) by {
        lemma_bytes_transitive(encode_utf8(a), encode_utf8(b), encode_utf8(c));
    }
    assert forall|a: Seq<char>, b: Seq<char>| #[trigger] leq(a, b) || #[trigger] leq(b, a) by {
        lemma_bytes_connected(encode_utf8(a), encode_utf8(b));
    }
    assert(reflexive(leq));
    assert(antisymmetric(leq));
    assert(transitive(leq));
    assert(strongly_connected(leq));
}

/// Whether `a` comes no later than `b`.
fn at_most(a: &str, b: &str) -> (r: bool)
    ensures
        r == text_le(a@, b@),
{
    let x = a.as_bytes();
    let y = b.as_bytes();
    let mut i: usize = 0;
    assert(x@.skip(0) =~= x@ && y@.skip(0) =~= y@);
    while i < x.len() && i < y.len()
        invariant
            x@ == encode_utf8(a@),
            y@ == encode_utf8(b@),
            i <= x@.len(),
            i <= y@.len(),
            text_le(a@, b@) == bytes_le(x@.skip(i as int), y@.skip(i as int)),
        decreases x@.len() - i,
    {
        if x[i] != y[i] {
            return x[i] < y[i];
        }
        assert(x@.skip(i as int).drop_first() =~= x@.skip(i + 1));
        assert(y@.skip(i as int).drop_first() =~= y@.skip(i + 1));
        i += 1;
    }
    i == x.len()
}

/// Merges two sorted lists.
fn merge(a: &Vec<String>, b: &Vec<String>) -> (r: Vec<String>)
    requires
        sorted_by(texts(a@), text_order()),
        sorted_by(texts(b@), text_order()),
    ensures
        sorted_by(texts(r@), text_order()),
        texts(r@).to_multiset() == texts(a@).to_multiset().add(texts(b@).to_multiset()),
{
    let ghost leq = text_order();
    let ghost x = texts(a@);
    let ghost y = texts(b@);
    proof {
        lemma_text_order();
    }
    let mut r: Vec<String> = Vec::new();
    let mut i: usize = 0;
    let mut j: usize = 0;
    proof {
        broadcast use vstd::seq_lib::group_to_multiset_ensures;

        assert(texts(r@) =~= Seq::empty());
        assert(x.take(0) =~= Seq::empty());
        assert(y.take(0) =~= Seq::empty());
        assert(texts(r@).to_multiset() =~= x.take(0).to_multiset().add(y.take(0).to_multiset()));
    }
    while i < a.len() || j < b.len()
        invariant
            leq == text_order(),
            total_ordering(leq),
            x == texts(a@),
            y == texts(b@),
            sorted_by(x, leq),
            sorted_by(y, leq),
            i <= a@.len(),
            j <= b@.len(),
            sorted_by(texts(r@), leq),
            forall|k: int, m: int| 0 <= k < r@.len() && i <= m < x.len() ==> leq(r@[k]@, x[m]),
            forall|k: int, m: int| 0 <= k < r@.len() && j <= m < y.len() ==> leq(r@[k]@, y[m]),
            texts(r@).to_multiset() == x.take(i as int).to_multiset().add(
                y.take(j as int).to_multiset(),
            ),
        decreases a@.len() - i + b@.len() - j,
    {
        let ghost before = r@;
        let from_a = j >= b.len() || (i < a.len() && at_most(a[i].as_str(), b[j].as_str()));
        if from_a {
            r.push(a[i].clone());
            proof {
                broadcast use vstd::seq_lib::group_to_multiset_ensures;

                assert(texts(r@) =~= texts(before).push(x[i as int]));
                assert(x.take(i + 1) =~= x.take(i as int).push(x[i as int]));
                assert(texts(r@).to_multiset() =~= x.take(i + 1).to_multiset().add(
                    y.take(j as int).to_multiset(),
                ));
                assert forall|m: int| j <= m < y.len() implies leq(x[i as int], y[m]) by {
                    assert(text_le(x[i as int], y[j as int]));
                    assert(leq(x[i as int], y[j as int]));
                    if m > j {
                        assert(leq(y[j as int], y[m]));
                    }
                }
                assert forall|m: int| i < m < x.len() implies leq(x[i as int], x[m]) by {}
            }
            i += 1;
        } else {
            r.push(b[j].clone());
            proof {
                broadcast use vstd::seq_lib::group_to_multiset_ensures;

                assert(texts(r@) =~= texts(before).push(y[j as int]));
                assert(y.take(j + 1) =~= y.take(j as int).push(y[j as int]));
                assert(texts(r@).to_multiset() =~= x.take(i as int).to_multiset().add(
                    y.take(j + 1).to_multiset(),
                ));
                assert forall|m: int| i <= m < x.len() implies leq(y[j as int], x[m]) by {
                    assert(!text_le(x[i as int], y[j as int]));
                    assert(leq(x[i as int], y[j as int]) || leq(y[j as int], x[i as int]));
                    if m > i {
                        assert(leq(x[i as int], x[m]));
                    }
                }
                assert forall|m: int| j < m < y.len() implies leq(y[j as int], y[m]) by {}
            }
            j += 1;
        }
    }
    proof {
        assert(x.take(i as int) =~= x);
        assert(y.take(j as int) =~= y);
    }
    r
}

/// Sorts by merging halves.
fn merge_sorted(v: Vec<String>) -> (r: Vec<String>)
    ensures
        sorted_by(texts(r@), text_order()),
        texts(r@).to_multiset() == texts(v@).to_multiset(),
    decreases v@.len(),
{
    if v.len() <= 1 {
        return v;
    }
    let ghost all = texts(v@);
    let mut left = v;
    let mid: usize = left.len() / 2;
    let right = left.split_off(mid);
    proof {
        assert(texts(left@) + texts(right@) =~= all);
        vstd::seq_lib::lemma_multiset_commutative(texts(left@), texts(right@));
    }
    let a = merge_sorted(left);
    let b = merge_sorted(right);
    merge(&a, &b)
}

/// Sorts texts by their bytes.
pub fn sort_texts(v: Vec<String>) -> (r: Vec<String>)
    ensures
        texts(r@) == texts(v@).sort_by(text_order()),
{
    let r = merge_sorted(v);
    proof {
        lemma_text_order();
        texts(v@).lemma_sort_by_ensures(text_order());
        lemma_sorted_unique(texts(r@), texts(v@).sort_by(text_order()), text_order());
    }
    r
}

} // verus!
