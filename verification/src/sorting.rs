//! Stable insertion sort by an integer key, shared by the scan and the
//! subnet sweep to put their findings in order.

use vstd::prelude::*;
use vstd::seq_lib::{group_to_multiset_ensures, to_multiset_insert};

verus! {

/// A value with an integer key that results are ordered by.
pub trait SortKey {
    spec fn sort_key(&self) -> int;

    /// Compares the keys of two values.
    fn key_le(&self, other: &Self) -> (b: bool)
        ensures
            b == (self.sort_key() <= other.sort_key()),
    ;
}

/// The keys ascend along the sequence.
pub open spec fn sorted_by_key<T: SortKey>(s: Seq<T>) -> bool {
    forall|i: int, j: int| 0 <= i < j < s.len() ==> s[i].sort_key() <= s[j].sort_key()
}

/// The values with key `k`, in order.
pub open spec fn with_key<T: SortKey>(s: Seq<T>, k: int) -> Seq<T>
    decreases s.len(),
{
    if s.len() == 0 {
        seq![]
    } else if s.last().sort_key() == k {
        with_key(s.drop_last(), k).push(s.last())
    } else {
        with_key(s.drop_last(), k)
    }
}

proof fn lemma_with_key_concat<T: SortKey>(a: Seq<T>, b: Seq<T>, k: int)
    ensures
        with_key(a + b, k) == with_key(a, k) + with_key(b, k),
    decreases b.len(),
{
    if b.len() == 0 {
        assert(a + b =~= a);
        assert(with_key(a, k) + with_key(b, k) =~= with_key(a, k));
    } else {
        lemma_with_key_concat(a, b.drop_last(), k);
        assert((a + b).drop_last() =~= a + b.drop_last());
        assert((a + b).last() == b.last());
        if b.last().sort_key() == k {
            assert(with_key(a, k) + with_key(b.drop_last(), k).push(b.last()) =~= (with_key(a, k)
                + with_key(b.drop_last(), k)).push(b.last()));
        }
    }
}

proof fn lemma_with_key_none<T: SortKey>(s: Seq<T>, k: int)
    requires
        forall|i: int| 0 <= i < s.len() ==> s[i].sort_key() != k,
    ensures
        with_key(s, k) == Seq::<T>::empty(),
    decreases s.len(),
{
    if s.len() > 0 {
        assert(s.last() == s[s.len() - 1]);
        lemma_with_key_none(s.drop_last(), k);
    }
}

/// Inserting `x` where every value after it has a larger key adds `x` at the
/// end of the values with its key, and leaves the other keys' values alone.
proof fn lemma_with_key_insert<T: SortKey>(s: Seq<T>, pos: int, x: T, k: int)
    requires
        0 <= pos <= s.len(),
        forall|j: int| pos <= j < s.len() ==> s[j].sort_key() > x.sort_key(),
    ensures
        with_key(s.insert(pos, x), k) == if x.sort_key() == k {
            with_key(s, k).push(x)
        } else {
            with_key(s, k)
        },
{
    let a = s.take(pos);
    let b = s.skip(pos);
    assert(s.insert(pos, x) =~= a + seq![x] + b);
    assert(s =~= a + b);
    lemma_with_key_concat(a + seq![x], b, k);
    lemma_with_key_concat(a, seq![x], k);
    lemma_with_key_concat(a, b, k);
    assert(seq![x].drop_last() =~= Seq::<T>::empty());
    assert(with_key(Seq::<T>::empty(), k) == Seq::<T>::empty());
    assert(seq![x].last() == x);
    if x.sort_key() == k {
        lemma_with_key_none(b, k);
        assert(with_key(seq![x], k) =~= seq![x]);
        assert(with_key(a, k) + seq![x] + Seq::<T>::empty() =~= (with_key(a, k) + Seq::<T>::empty()).push(x));
    } else {
        assert(with_key(seq![x], k) =~= Seq::<T>::empty());
        assert(with_key(a, k) + Seq::<T>::empty() =~= with_key(a, k));
    }
}

/// Sorts by key; values with equal keys keep their order. The result holds
/// the same values, each as often as the input does, with keys ascending,
/// and for each key its values come in the order of the input.
pub fn sort_by_key<T: SortKey>(v: Vec<T>) -> (r: Vec<T>)
    ensures
        sorted_by_key(r@),
        r@.to_multiset() == v@.to_multiset(),
        forall|k: int| #[trigger] with_key(r@, k) == with_key(v@, k),
{
    broadcast use group_to_multiset_ensures;

    let mut r: Vec<T> = Vec::new();
    let ghost input = v@;
    assert(input.take(0) =~= Seq::<T>::empty());
    assert(forall|k: int| #[trigger] with_key(r@, k) == with_key(input.take(0), k));
    for x in it: v.into_iter()
        invariant
            it.seq() == input,
            sorted_by_key(r@),
            r@.to_multiset() == input.take(it.index() as int).to_multiset(),
            forall|k: int| #[trigger] with_key(r@, k) == with_key(input.take(it.index() as int), k),
    {
        let mut pos = r.len();
        while pos > 0 && !r[pos - 1].key_le(&x)
            invariant
                pos <= r@.len(),
                forall|k: int| pos <= k < r@.len() ==> r@[k].sort_key() > x.sort_key(),
            decreases pos,
        {
            pos = pos - 1;
        }
        let ghost before = r@;
        r.insert(pos, x);
        proof {
            assert(input.take(it.index() + 1) =~= input.take(it.index() as int).push(x));
            assert(r@ == before.insert(pos as int, x));
            to_multiset_insert(before, pos as int, x);
            input.take(it.index() as int).to_multiset_ensures();
            assert(before.insert(pos as int, x).to_multiset() == before.to_multiset().insert(x));
            assert(input.take(it.index() as int).push(x).to_multiset()
                == input.take(it.index() as int).to_multiset().insert(x));
            let prefix = input.take(it.index() as int);
            assert(prefix.push(x).drop_last() =~= prefix);
            assert forall|k: int| #[trigger] with_key(r@, k) == with_key(prefix.push(x), k) by {
                lemma_with_key_insert(before, pos as int, x, k);
            }
            assert forall|i: int, j: int| 0 <= i < j < r@.len() implies r@[i].sort_key()
                <= r@[j].sort_key() by {
                if j < pos {
                } else if j == pos {
                    if i < pos - 1 {
                        assert(before[i].sort_key() <= before[pos - 1].sort_key());
                    }
                } else if i < pos {
                    assert(before[i].sort_key() <= before[j - 1].sort_key());
                } else if i == pos {
                } else {
                }
            }
        }
    }
    assert(input.take(input.len() as int) =~= input);
    r
}

} // verus!
