//! Orderings used by the index: byte-wise lexicographic order on keys, the
//! posting order (score descending, document index ascending), and verified
//! insertion sorts for both.

use vstd::prelude::*;
use vstd::relations::sorted_by;
use vstd::seq_lib::{group_to_multiset_ensures, to_multiset_insert};

verus! {

/// Byte-wise lexicographic order: `a` is less than or equal to `b`.
pub open spec fn lex_leq(a: Seq<u8>, b: Seq<u8>) -> bool
    decreases a.len(),
{
    if a.len() == 0 {
        true
    } else if b.len() == 0 {
        false
    } else if a[0] < b[0] {
        true
    } else if a[0] > b[0] {
        false
    } else {
        lex_leq(a.drop_first(), b.drop_first())
    }
}

/// Strict byte-wise lexicographic order.
pub open spec fn lex_lt(a: Seq<u8>, b: Seq<u8>) -> bool {
    lex_leq(a, b) && a != b
}

pub proof fn lemma_lex_connected(a: Seq<u8>, b: Seq<u8>)
    ensures
        lex_leq(a, b) || lex_leq(b, a),
    decreases a.len(),
{
    if a.len() > 0 && b.len() > 0 && a[0] == b[0] {
        lemma_lex_connected(a.drop_first(), b.drop_first());
    }
}

pub proof fn lemma_lex_trans(a: Seq<u8>, b: Seq<u8>, c: Seq<u8>)
    requires
        lex_leq(a, b),
        lex_leq(b, c),
    ensures
        lex_leq(a, c),
    decreases a.len(),
{
    if a.len() > 0 && b.len() > 0 && c.len() > 0 {
        if a[0] == b[0] && b[0] == c[0] {
            lemma_lex_trans(a.drop_first(), b.drop_first(), c.drop_first());
        }
    }
}

/// Compare two byte strings lexicographically.
pub fn bytes_leq(a: &Vec<u8>, b: &Vec<u8>) -> (r: bool)
    ensures
        r == lex_leq(a@, b@),
{
    proof {
        assert(a@.skip(0) =~= a@);
        assert(b@.skip(0) =~= b@);
    }
    let mut i: usize = 0;
    while i < a.len() && i < b.len()
        invariant
            0 <= i <= a@.len(),
            i <= b@.len(),
            forall|j: int| 0 <= j < i ==> a@[j] == b@[j],
            lex_leq(a@, b@) == lex_leq(a@.skip(i as int), b@.skip(i as int)),
        decreases a@.len() - i,
    {
        proof {
            let sa = a@.skip(i as int);
            let sb = b@.skip(i as int);
            assert(sa[0] == a@[i as int] && sb[0] == b@[i as int]);
            assert(sa.drop_first() =~= a@.skip(i as int + 1));
            assert(sb.drop_first() =~= b@.skip(i as int + 1));
        }
        if a[i] < b[i] {
            return true;
        }
        if a[i] > b[i] {
            return false;
        }
        i = i + 1;
    }
    proof {
        if i == a@.len() {
            assert(a@.skip(i as int).len() == 0);
        } else {
            assert(b@.skip(i as int).len() == 0);
            assert(a@.skip(i as int).len() > 0);
        }
    }
    i == a.len()
}

/// Whether two byte strings are equal.
pub fn bytes_eq(a: &Vec<u8>, b: &Vec<u8>) -> (r: bool)
    ensures
        r == (a@ == b@),
{
    if a.len() != b.len() {
        return false;
    }
    let mut i: usize = 0;
    while i < a.len()
        invariant
            0 <= i <= a@.len() == b@.len(),
            forall|j: int| 0 <= j < i ==> a@[j] == b@[j],
        decreases a@.len() - i,
    {
        if a[i] != b[i] {
            return false;
        }
        i = i + 1;
    }
    proof {
        assert(a@ =~= b@);
    }
    true
}

/// The posting and ranking order: higher score first, ties by lower document
/// index first.
pub open spec fn rank_leq(a: (usize, u8), b: (usize, u8)) -> bool {
    a.1 > b.1 || (a.1 == b.1 && a.0 <= b.0)
}

/// The same order as a relation value, for `sorted_by`.
pub open spec fn rank_le() -> spec_fn((usize, u8), (usize, u8)) -> bool {
    |a: (usize, u8), b: (usize, u8)| rank_leq(a, b)
}

pub proof fn lemma_rank_total()
    ensures
        vstd::relations::total_ordering(rank_le()),
{
}

/// Sort `(document, score)` pairs by score descending, ties by document
/// index ascending.
pub fn sort_postings(v: Vec<(usize, u8)>) -> (r: Vec<(usize, u8)>)
    ensures
        sorted_by(r@, rank_le()),
        r@.to_multiset() == v@.to_multiset(),
{
    broadcast use group_to_multiset_ensures;

    let mut r: Vec<(usize, u8)> = Vec::new();
    let mut i: usize = 0;
    proof {
        assert(v@.take(0) =~= Seq::<(usize, u8)>::empty());
        assert(r@.to_multiset() =~= v@.take(0).to_multiset());
    }
    while i < v.len()
        invariant
            0 <= i <= v@.len(),
            sorted_by(r@, rank_le()),
            r@.to_multiset() == v@.take(i as int).to_multiset(),
            r@.len() == i,
        decreases v@.len() - i,
    {
        let x = v[i];
        let mut j: usize = 0;
        while j < r.len() && (r[j].1 > x.1 || (r[j].1 == x.1 && r[j].0 <= x.0))
            invariant
                0 <= j <= r@.len(),
                forall|k: int| 0 <= k < j ==> rank_le()(#[trigger] r@[k], x),
            decreases r@.len() - j,
        {
            j = j + 1;
        }
        let ghost old_r = r@;
        r.insert(j, x);
        proof {
            assert(rank_le()(x, x));
            assert forall|p: int, q: int| 0 <= p < q < r@.len() implies rank_le()(
                #[trigger] r@[p],
                #[trigger] r@[q],
            ) by {
                if q < j {
                    assert(r@[p] == old_r[p] && r@[q] == old_r[q]);
                } else if p > j {
                    assert(r@[p] == old_r[p - 1] && r@[q] == old_r[q - 1]);
                } else if p < j && q == j {
                    assert(r@[p] == old_r[p] && r@[q] == x);
                } else if p == j && q > j {
                    assert(r@[p] == x && r@[q] == old_r[q - 1]);
                    if j < old_r.len() {
                        assert(!rank_le()(old_r[j as int], x));
                        assert(rank_le()(x, old_r[j as int]));
                        if q - 1 > j {
                            assert(rank_le()(old_r[j as int], old_r[q - 1]));
                        }
                    }
                } else if p < j && q > j {
                    assert(r@[p] == old_r[p] && r@[q] == old_r[q - 1]);
                    assert(rank_le()(old_r[p], x));
                    if j < old_r.len() {
                        assert(rank_le()(x, old_r[j as int]));
                    }
                }
            }
            to_multiset_insert(old_r, j as int, x);
            assert(v@.take(i as int + 1) =~= v@.take(i as int).push(x));
            vstd::seq_lib::to_multiset_build(v@.take(i as int), x);
            assert(r@.to_multiset() =~= v@.take(i as int + 1).to_multiset());
        }
        i = i + 1;
    }
    proof {
        assert(v@.take(v@.len() as int) =~= v@);
    }
    r
}

} // verus!
