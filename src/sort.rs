//! Stable ordering of primitive indices by the start of their boxes on one axis.
use vstd::prelude::*;
use crate::order::{order_key, total_key};

verus! {

/// The key by which primitive `i` is ordered on `axis`: the order key of the
/// start of its box on that axis.
pub open spec fn start_key(starts: Seq<[u32; 3]>, axis: int, i: usize) -> u32 {
    total_key(starts[i as int][axis])
}

/// `x` inserted into `s` after every element whose key is not greater.
pub open spec fn insert_by(s: Seq<usize>, x: usize, key: spec_fn(usize) -> u32) -> Seq<usize>
    decreases s.len(),
{
    if s.len() == 0 {
        seq![x]
    } else if key(s.last()) <= key(x) {
        s.push(x)
    } else {
        insert_by(s.drop_last(), x, key).push(s.last())
    }
}

/// The stable sort of `s` by `key`: equal keys keep their order.
pub open spec fn sort_by(s: Seq<usize>, key: spec_fn(usize) -> u32) -> Seq<usize>
    decreases s.len(),
{
    if s.len() == 0 {
        s
    } else {
        insert_by(sort_by(s.drop_last(), key), s.last(), key)
    }
}

pub proof fn lemma_insert_by(s: Seq<usize>, x: usize, key: spec_fn(usize) -> u32)
    ensures
        insert_by(s, x, key).len() == s.len() + 1,
        insert_by(s, x, key).to_multiset() =~= s.to_multiset().insert(x),
    decreases s.len(),
{
    if s.len() == 0 {
        assert(seq![x] =~= s.push(x));
        s.to_multiset_ensures();
    } else if key(s.last()) <= key(x) {
        s.to_multiset_ensures();
    } else {
        let d = s.drop_last();
        lemma_insert_by(d, x, key);
        let r = insert_by(d, x, key);
        r.to_multiset_ensures();
        d.to_multiset_ensures();
        assert(s =~= d.push(s.last()));
        assert(s.to_multiset() == d.to_multiset().insert(s.last()));
        assert(insert_by(s, x, key).to_multiset() == r.to_multiset().insert(s.last()));
        assert(d.to_multiset().insert(x).insert(s.last()) =~= d.to_multiset().insert(s.last()).insert(x));
    }
}

/// Sorting keeps the length and the elements.
pub proof fn lemma_sort_by(s: Seq<usize>, key: spec_fn(usize) -> u32)
    ensures
        sort_by(s, key).len() == s.len(),
        sort_by(s, key).to_multiset() =~= s.to_multiset(),
    decreases s.len(),
{
    if s.len() > 0 {
        lemma_sort_by(s.drop_last(), key);
        lemma_insert_by(sort_by(s.drop_last(), key), s.last(), key);
        s.drop_last().to_multiset_ensures();
        assert(s =~= s.drop_last().push(s.last()));
    }
}

/// Two sequences with the same multiset hold the same elements.
pub proof fn lemma_same_elements(a: Seq<usize>, b: Seq<usize>)
    requires
        a.to_multiset() == b.to_multiset(),
    ensures
        forall|x: usize| a.contains(x) <==> b.contains(x),
{
    a.to_multiset_ensures();
    b.to_multiset_ensures();
    assert forall|x: usize| a.contains(x) <==> b.contains(x) by {
        if a.contains(x) {
            assert(a.to_multiset().count(x) > 0);
        }
        if b.contains(x) {
            assert(b.to_multiset().count(x) > 0);
        }
    }
}

/// Sorts `items` stably by the start of their boxes on `axis`, comparing by
/// `f32::total_cmp` order.
pub fn sort_by_start(items: &mut Vec<usize>, starts: &Vec<[u32; 3]>, axis: usize)
    requires
        axis < 3,
        forall|k: int| 0 <= k < old(items)@.len() ==> old(items)@[k] < starts@.len(),
    ensures
        final(items)@ == sort_by(old(items)@, |i: usize| start_key(starts@, axis as int, i)),
{
    let ghost key = |i: usize| start_key(starts@, axis as int, i);
    let ghost orig = items@;
    let n = items.len();
    let mut i: usize = 0;
    while i < n
        invariant
            n == orig.len(),
            items@.len() == n,
            i <= n,
            axis < 3,
            forall|k: int| 0 <= k < n ==> orig[k] < starts@.len(),
            forall|k: int| 0 <= k < n ==> items@[k] < starts@.len(),
            key == (|i: usize| start_key(starts@, axis as int, i)),
            items@.take(i as int) == sort_by(orig.take(i as int), key),
            items@.skip(i as int) == orig.skip(i as int),
        decreases n - i,
    {
        let ghost sorted = items@.take(i as int);
        assert(orig.take(i as int + 1).drop_last() =~= orig.take(i as int));
        assert(orig.take(i as int + 1).last() == orig[i as int]);
        proof {
            lemma_sort_by(orig.take(i as int), key);
        }
        assert(sorted.to_multiset() =~= orig.take(i as int).to_multiset());
        let x = items[i];
        assert(x == orig[i as int]) by {
            assert(items@.skip(i as int)[0] == orig.skip(i as int)[0]);
        }
        assert forall|k: int| 0 <= k < n - i - 1 implies #[trigger] items@.skip(i as int + 1)[k] == orig.skip(i as int + 1)[k] by {
            assert(items@.skip(i as int)[k + 1] == orig.skip(i as int)[k + 1]);
        }
        assert(items@.skip(i as int + 1) =~= orig.skip(i as int + 1));
        assert(items@.subrange(i as int + 1, i as int + 1) =~= sorted.subrange(i as int, i as int));
        assert(sorted.take(i as int) =~= sorted);
        assert(insert_by(sorted, x, key) =~= insert_by(sorted.take(i as int), x, key) + sorted.subrange(i as int, i as int));
        let kx = order_key(starts[x][axis]);
        let mut j: usize = i;
        while j > 0 && order_key(starts[items[j - 1]][axis]) > kx
            invariant
                0 <= j <= i < n,
                items@.len() == n,
                axis < 3,
                forall|k: int| 0 <= k < n ==> items@[k] < starts@.len(),
                x < starts@.len(),
                key == (|i: usize| start_key(starts@, axis as int, i)),
                kx == key(x),
                sorted.len() == i,
                items@.take(j as int) == sorted.take(j as int),
                items@.subrange(j as int + 1, i as int + 1) == sorted.subrange(j as int, i as int),
                items@.skip(i as int + 1) == orig.skip(i as int + 1),
                insert_by(sorted, x, key) == insert_by(sorted.take(j as int), x, key) + sorted.subrange(j as int, i as int),
            decreases j,
        {
            proof {
                let s = sorted.take(j as int);
                assert(s.last() == sorted[j - 1]);
                assert(s.drop_last() =~= sorted.take(j - 1));
                assert(sorted.subrange(j - 1, i as int) =~= seq![sorted[j - 1]] + sorted.subrange(j as int, i as int));
                assert(insert_by(s, x, key) == insert_by(s.drop_last(), x, key).push(s.last()));
                assert(insert_by(sorted.take(j - 1), x, key).push(sorted[j - 1]) + sorted.subrange(j as int, i as int)
                    =~= insert_by(sorted.take(j - 1), x, key) + sorted.subrange(j - 1, i as int));
            }
            let prev = items[j - 1];
            items.set(j, prev);
            j -= 1;
            assert(items@.take(j as int) =~= sorted.take(j as int));
            assert(items@.subrange(j as int + 1, i as int + 1) =~= sorted.subrange(j as int, i as int));
            assert(items@.skip(i as int + 1) =~= orig.skip(i as int + 1));
        }
        items.set(j, x);
        proof {
            let s = sorted.take(j as int);
            if j > 0 {
                assert(s.last() == sorted[j - 1]);
                assert(insert_by(s, x, key) == s.push(x));
            } else {
                assert(insert_by(s, x, key) == seq![x]);
                assert(s.push(x) =~= seq![x]);
            }
            assert(sort_by(orig.take(i as int + 1), key) == insert_by(sorted, x, key));
            assert(items@.take(i as int + 1) =~= s.push(x) + sorted.subrange(j as int, i as int));
            assert(items@.skip(i as int + 1) =~= orig.skip(i as int + 1));
        }
        i += 1;
    }
    assert(items@ =~= items@.take(n as int));
    assert(orig =~= orig.take(n as int));
}

} // verus!
