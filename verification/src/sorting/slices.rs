use vstd::prelude::*;

verus! {

/// `<[_]>::swap` of the standard library: exchanges the elements at two
/// positions of a slice and leaves every other element where it is. It panics
/// when a position is out of bounds, so both must be in bounds.
pub assume_specification<Elem>[ <[Elem]>::swap ](slice: &mut [Elem], a: usize, b: usize)
    requires
        a < old(slice)@.len(),
        b < old(slice)@.len(),
    ensures
        final(slice)@ == old(slice)@.update(a as int, old(slice)@[b as int]).update(
            b as int,
            old(slice)@[a as int],
        ),
;

/// Cloning a value of `T` gives that value again.
pub open spec fn faithful_clone<T: Clone>() -> bool {
    forall|a: T, b: T| #[trigger] cloned(a, b) ==> a == b
}

/// A vector of clones of `arr[l..r]`.
pub fn clone_range<T: Clone>(arr: &[T], l: usize, r: usize) -> (v: Vec<T>)
    requires
        l <= r <= arr@.len(),
    ensures
        v@.len() == r - l,
        forall|i: int| 0 <= i < r - l ==> cloned(arr@[l + i], #[trigger] v@[i]),
        faithful_clone::<T>() ==> v@ == arr@.subrange(l as int, r as int),
{
    let mut v: Vec<T> = Vec::new();
    let mut k: usize = l;
    while k < r
        invariant
            l <= k <= r <= arr@.len(),
            v@.len() == k - l,
            forall|i: int| 0 <= i < k - l ==> cloned(arr@[l + i], #[trigger] v@[i]),
        decreases r - k,
    {
        v.push(arr[k].clone());
        k += 1;
    }
    proof {
        if faithful_clone::<T>() {
            assert(v@ =~= arr@.subrange(l as int, r as int));
        }
    }
    v
}

/// Overwrites `arr[l..l + src.len()]` with clones of the elements of `src`.
pub fn clone_into_range<T: Clone>(arr: &mut [T], l: usize, src: &[T])
    requires
        l + src@.len() <= old(arr)@.len(),
    ensures
        final(arr)@.len() == old(arr)@.len(),
        forall|p: int|
            0 <= p < l || l + src@.len() <= p < old(arr)@.len() ==> final(arr)@[p] == old(arr)@[p],
        forall|i: int| 0 <= i < src@.len() ==> cloned(src@[i], #[trigger] final(arr)@[l + i]),
        faithful_clone::<T>() ==> final(arr)@.subrange(l as int, l + src@.len()) == src@,
{
    let n = arr.len();
    let mut k: usize = 0;
    while k < src.len()
        invariant
            k <= src@.len(),
            arr@.len() == old(arr)@.len(),
            arr@.len() == n,
            l + src@.len() <= arr@.len(),
            forall|p: int|
                0 <= p < l || l + k <= p < old(arr)@.len() ==> arr@[p] == old(arr)@[p],
            forall|i: int| 0 <= i < k ==> cloned(src@[i], #[trigger] arr@[l + i]),
        decreases src@.len() - k,
    {
        arr[l + k] = src[k].clone();
        k += 1;
    }
    proof {
        if faithful_clone::<T>() {
            let t = arr@.subrange(l as int, l + src@.len());
            assert forall|i: int| 0 <= i < src@.len() implies t[i] == src@[i] by {
                assert(cloned(src@[i], arr@[l + i]));
            }
            assert(t =~= src@);
        }
    }
}

} // verus!
