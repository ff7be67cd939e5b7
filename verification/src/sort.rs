//! Sorting of key pairs in lexicographic order (merge sort).
//!
//! Every ordering step of the graph tools sorts by a primary key with a
//! secondary key that breaks ties (a row number, a position, a target id),
//! which is what a stable sort by the primary key gives.
use vstd::prelude::*;

verus! {

broadcast use vstd::seq_lib::group_to_multiset_ensures, vstd::multiset::group_multiset_axioms;

/// Lexicographic order on pairs.
pub open spec fn pair_le(a: (u64, u64), b: (u64, u64)) -> bool {
    a.0 < b.0 || (a.0 == b.0 && a.1 <= b.1)
}

pub open spec fn sorted_pairs(s: Seq<(u64, u64)>) -> bool {
    forall|i: int, j: int| 0 <= i < j < s.len() ==> pair_le(s[i], s[j])
}

/// Two sorted sequences with the same elements are equal.
pub proof fn lemma_sorted_unique(a: Seq<(u64, u64)>, b: Seq<(u64, u64)>)
    requires
        sorted_pairs(a),
        sorted_pairs(b),
        a.to_multiset() == b.to_multiset(),
    ensures
        a == b,
    decreases a.len(),
{
    assert(a.to_multiset().len() == a.len());
    assert(b.to_multiset().len() == b.len());
    assert(a.len() == b.len());
    if a.len() > 0 {
        let x = a[0];
        let y = b[0];
        assert(a.to_multiset().count(y) > 0);
        assert(b.to_multiset().count(x) > 0);
        assert(a.contains(y));
        assert(b.contains(x));
        let i = choose|i: int| 0 <= i < a.len() && a[i] == y;
        let j = choose|j: int| 0 <= j < b.len() && b[j] == x;
        if i > 0 {
            assert(pair_le(a[0], a[i]));
        }
        if j > 0 {
            assert(pair_le(b[0], b[j]));
        }
        assert(x == y);
        assert(a.drop_first().to_multiset() == a.to_multiset().remove(x)) by {
            assert(a.remove(0) =~= a.drop_first());
        }
        assert(b.drop_first().to_multiset() == b.to_multiset().remove(x)) by {
            assert(b.remove(0) =~= b.drop_first());
        }
        lemma_sorted_unique(a.drop_first(), b.drop_first());
        assert(a =~= seq![x] + a.drop_first());
        assert(b =~= seq![x] + b.drop_first());
    } else {
        assert(a =~= b);
    }
}

fn copy_pairs(v: &[(u64, u64)], start: usize, end: usize) -> (r: Vec<(u64, u64)>)
    requires
        start <= end <= v.len(),
    ensures
        r@ == v@.subrange(start as int, end as int),
{
    let mut r: Vec<(u64, u64)> = Vec::new();
    let mut i = start;
    while i < end
        invariant
            start <= i <= end <= v.len(),
            r@ == v@.subrange(start as int, i as int),
        decreases end - i,
    {
        r.push(v[i]);
        i = i + 1;
        assert(v@.subrange(start as int, i as int) == v@.subrange(start as int, i - 1).push(
            v@[i - 1],
        ));
    }
    r
}

fn merge(a: &Vec<(u64, u64)>, b: &Vec<(u64, u64)>) -> (r: Vec<(u64, u64)>)
    requires
        sorted_pairs(a@),
        sorted_pairs(b@),
    ensures
        sorted_pairs(r@),
        r@.to_multiset() == a@.to_multiset().add(b@.to_multiset()),
{
    let mut r: Vec<(u64, u64)> = Vec::new();
    let mut i: usize = 0;
    let mut j: usize = 0;
    while i < a.len() || j < b.len()
        invariant
            i <= a.len(),
            j <= b.len(),
            sorted_pairs(a@),
            sorted_pairs(b@),
            sorted_pairs(r@),
            r@.len() == i + j,
            r@.to_multiset() == a@.take(i as int).to_multiset().add(b@.take(j as int).to_multiset()),
            r@.len() > 0 && i < a.len() ==> pair_le(r@.last(), a@[i as int]),
            r@.len() > 0 && j < b.len() ==> pair_le(r@.last(), b@[j as int]),
        decreases a.len() + b.len() - i - j,
    {
        let take_a = if i < a.len() && j < b.len() {
            let x = a[i];
            let y = b[j];
            x.0 < y.0 || (x.0 == y.0 && x.1 <= y.1)
        } else {
            i < a.len()
        };
        let ghost old_r = r@;
        if take_a {
            let x = a[i];
            r.push(x);
            assert(a@.take(i + 1) =~= a@.take(i as int).push(x));
            i = i + 1;
            proof {
                assert forall|p: int, q: int| 0 <= p < q < r@.len() implies pair_le(r@[p], r@[q]) by {
                    if q == r@.len() - 1 && p < old_r.len() {
                        assert(pair_le(old_r[p], old_r.last()) || p == old_r.len() - 1);
                    }
                }
                if i < a.len() {
                    assert(pair_le(a@[i - 1], a@[i as int]));
                }
            }
        } else {
            let y = b[j];
            r.push(y);
            assert(b@.take(j + 1) =~= b@.take(j as int).push(y));
            j = j + 1;
            proof {
                assert forall|p: int, q: int| 0 <= p < q < r@.len() implies pair_le(r@[p], r@[q]) by {
                    if q == r@.len() - 1 && p < old_r.len() {
                        assert(pair_le(old_r[p], old_r.last()) || p == old_r.len() - 1);
                    }
                }
                if j < b.len() {
                    assert(pair_le(b@[j - 1], b@[j as int]));
                }
            }
        }
    }
    assert(a@.take(a.len() as int) =~= a@);
    assert(b@.take(b.len() as int) =~= b@);
    r
}

/// The pairs in lexicographic order.
pub fn sort_pairs(v: &[(u64, u64)]) -> (r: Vec<(u64, u64)>)
    ensures
        sorted_pairs(r@),
        r@.to_multiset() == v@.to_multiset(),
    decreases v.len(),
{
    if v.len() <= 1 {
        let r = copy_pairs(v, 0, v.len());
        assert(r@ =~= v@);
        return r;
    }
    let mid = v.len() / 2;
    let left = copy_pairs(v, 0, mid);
    let right = copy_pairs(v, mid, v.len());
    let sl = sort_pairs(left.as_slice());
    let sr = sort_pairs(right.as_slice());
    let r = merge(&sl, &sr);
    proof {
        assert(v@ =~= left@ + right@);
        vstd::seq_lib::lemma_multiset_commutative(left@, right@);
    }
    r
}

} // verus!
