//! Ordering scored entries from the highest score down.

use vstd::prelude::*;
use vstd::seq_lib::lemma_multiset_commutative;

verus! {

broadcast use vstd::seq_lib::group_seq_properties, vstd::multiset::group_multiset_axioms;

/// Scores never increase along `s`.
pub open spec fn sorted_by_score(s: Seq<(i128, usize)>) -> bool {
    forall|i: int, j: int| 0 <= i < j < s.len() ==> s[i].0 >= s[j].0
}

/// `s` holds exactly the entries of `items`, highest score first.
pub open spec fn is_ranking(s: Seq<(i128, usize)>, items: Seq<(i128, usize)>) -> bool {
    &&& s.to_multiset() =~= items.to_multiset()
    &&& sorted_by_score(s)
}

/// The first `k` entries of `s`, or all of them when there are fewer.
pub open spec fn leading(s: Seq<(i128, usize)>, k: int) -> Seq<(i128, usize)> {
    if k < s.len() {
        s.take(k)
    } else {
        s
    }
}

proof fn lemma_insert_to_multiset(s: Seq<(i128, usize)>, pos: int, x: (i128, usize))
    requires
        0 <= pos <= s.len(),
    ensures
        s.insert(pos, x).to_multiset() =~= s.to_multiset().insert(x),
{
    let a = s.subrange(0, pos);
    let b = s.subrange(pos, s.len() as int);
    assert(s =~= a + b);
    lemma_multiset_commutative(a, b);
    lemma_multiset_commutative(a.push(x), b);
    a.to_multiset_ensures();
}

/// Orders the entries by score, highest first.
pub fn rank(items: &Vec<(i128, usize)>) -> (r: Vec<(i128, usize)>)
    ensures
        is_ranking(r@, items@),
        r.len() == items.len(),
{
    let mut r: Vec<(i128, usize)> = Vec::new();
    let mut i: usize = 0;
    while i < items.len()
        invariant
            i <= items.len(),
            r.len() == i,
            sorted_by_score(r@),
            r@.to_multiset() =~= items@.take(i as int).to_multiset(),
        decreases items.len() - i,
    {
        let x = items[i];
        let mut pos: usize = 0;
        while pos < r.len() && r[pos].0 >= x.0
            invariant
                pos <= r.len(),
                forall|k: int| 0 <= k < pos ==> r@[k].0 >= x.0,
            decreases r.len() - pos,
        {
            pos = pos + 1;
        }
        proof {
            lemma_insert_to_multiset(r@, pos as int, x);
            assert(items@.take(i + 1) =~= items@.take(i as int).push(x));
            items@.take(i as int).to_multiset_ensures();
        }
        let ghost before = r@;
        r.insert(pos, x);
        assert(sorted_by_score(r@)) by {
            assert forall|a: int, b: int| 0 <= a < b < r@.len() implies r@[a].0 >= r@[b].0 by {
                if b == pos {
                } else if a == pos {
                    assert(before[pos as int].0 < x.0);
                    assert(before[pos as int].0 >= before[b - 1].0 || b - 1 == pos);
                } else {
                }
            }
        }
        i = i + 1;
    }
    assert(items@.take(items.len() as int) =~= items@);
    r
}

} // verus!
