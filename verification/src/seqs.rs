//! In-place filtering of vectors, specified by a spec predicate.

use vstd::prelude::*;

verus! {

/// Keeps, in order, exactly the elements on which `keep` answers `true`;
/// `pred` is what `keep` computes.
pub fn retain_by<T, K: Fn(&T) -> bool>(v: &mut Vec<T>, keep: K, Ghost(pred): Ghost<spec_fn(T) -> bool>)
    requires
        forall|x: &T| #[trigger] keep.requires((x,)),
        forall|x: &T, b: bool| keep.ensures((x,), b) ==> b == pred(*x),
    ensures
        final(v)@ == old(v)@.filter(pred),
{
    let ghost orig = old(v)@;
    let mut i: usize = 0;
    let mut j: usize = 0;
    let n = v.len();
    assert(orig.take(0).filter(pred) =~= Seq::<T>::empty()) by {
        reveal_with_fuel(Seq::filter, 1);
    }
    assert(v@ =~= orig.take(0).filter(pred) + orig.skip(0));
    while j < n
        invariant
            n == orig.len(),
            j <= n,
            i == orig.take(j as int).filter(pred).len(),
            v@ == orig.take(j as int).filter(pred) + orig.skip(j as int),
            forall|x: &T| #[trigger] keep.requires((x,)),
            forall|x: &T, b: bool| keep.ensures((x,), b) ==> b == pred(*x),
        decreases n - j,
    {
        let ghost prefix = orig.take(j as int).filter(pred);
        proof {
            reveal_with_fuel(Seq::filter, 1);
        }
        assert(orig.take(j + 1).drop_last() =~= orig.take(j as int));
        assert(v@[i as int] == orig[j as int]);
        let k = keep(&v[i]);
        assert(k == pred(orig[j as int]));
        assert(orig.take(j + 1).last() == orig[j as int]);
        assert(orig.take(j + 1).filter(pred) == if pred(orig[j as int]) {
            prefix.push(orig[j as int])
        } else {
            prefix
        });
        if k {
            i = i + 1;
            assert(orig.take(j + 1).filter(pred) =~= prefix.push(orig[j as int]));
        } else {
            v.remove(i);
            assert(orig.take(j + 1).filter(pred) =~= prefix);
        }
        j = j + 1;
        assert(v@ =~= orig.take(j as int).filter(pred) + orig.skip(j as int));
    }
    assert(orig.take(n as int) =~= orig);
    assert(orig.skip(n as int) =~= Seq::<T>::empty());
    assert(v@ =~= orig.filter(pred));
}

} // verus!
