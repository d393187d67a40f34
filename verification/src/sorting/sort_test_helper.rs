use vstd::prelude::*;
use vstd::slice::slice_to_vec;
use crate::sorting::laws::lemma_sorted_unique;
use crate::sorting::order::{antisymmetric, total_order};
use crate::sorting::permutation::is_sort_of;

verus! {

/// What a candidate sort did wrong on an input.
#[derive(Debug, Clone, Copy, PartialEq, Eq, Structural)]
pub enum Failure {
    /// What it left is not the input in nondecreasing order.
    Mismatch,
    /// Run again on what it had sorted, it changed it.
    NotIdempotent,
}

/// `s` is what a candidate is run on when it is tried on `inp`: `inp` itself,
/// and `inp` sorted.
pub open spec fn tried(s: Seq<isize>, inp: Seq<isize>) -> bool {
    s == inp || is_sort_of(s, inp)
}

/// The candidate can be called on every slice of integers.
pub open spec fn accepts_all<F: Fn(&mut [isize])>(sort: F) -> bool {
    forall|m: &mut [isize]| #[trigger] call_requires(sort, (m,))
}

/// The order of `isize` is total, and integers that compare equal are the
/// same.
pub proof fn lemma_integer_order()
    ensures
        total_order::<isize>(),
        antisymmetric::<isize>(),
{
    broadcast use vstd::laws_cmp::group_laws_cmp;

}

/// `<[isize]>::sort` of the standard library, the reference that candidates
/// are held against: it puts the slice in ascending order and keeps its
/// values.
#[verifier::external_body]
fn oracle_sort(v: &mut [isize])
    ensures
        is_sort_of(final(v)@, old(v)@),
{
    v.sort();
}

/// Whether two slices hold the same integers in the same order.
pub fn same_integers(a: &[isize], b: &[isize]) -> (r: bool)
    ensures
        r == (a@ == b@),
{
    if a.len() != b.len() {
        return false;
    }
    let mut i: usize = 0;
    while i < a.len()
        invariant
            a@.len() == b@.len(),
            i <= a@.len(),
            forall|k: int| 0 <= k < i ==> a@[k] == b@[k],
        decreases a@.len() - i,
    {
        if a[i] != b[i] {
            return false;
        }
        i += 1;
    }
    proof {
        assert(a@ =~= b@);
    }
    true
}

/// Calls `sort` on `arr[lo..hi]`. Whatever `sort` does, `arr[..lo]` and
/// `arr[hi..]` stay as they are.
pub fn apply_to_range<F: Fn(&mut [isize]) + Copy>(sort: F, arr: &mut [isize], lo: usize, hi: usize)
    requires
        accepts_all(sort),
        lo <= hi <= old(arr)@.len(),
    ensures
        exists|m: &mut [isize]|
            {
                &&& #[trigger] call_ensures(sort, (m,), ())
                &&& m@ == old(arr)@.subrange(lo as int, hi as int)
                &&& final(arr)@ == old(arr)@.subrange(0, lo as int) + final(m)@ + old(
                    arr,
                )@.subrange(hi as int, old(arr)@.len() as int)
            },
        (forall|m: &mut [isize]| #[trigger] call_ensures(sort, (m,), ()) ==> is_sort_of(final(m)@, m@))
            ==> {
            &&& final(arr)@.len() == old(arr)@.len()
            &&& is_sort_of(
                final(arr)@.subrange(lo as int, hi as int),
                old(arr)@.subrange(lo as int, hi as int),
            )
        },
{
    let (head, tail) = arr.split_at_mut(lo);
    let (mid, rest) = tail.split_at_mut(hi - lo);
    let ghost before = mid@;
    sort(mid);
    proof {
        assert(before =~= old(arr)@.subrange(lo as int, hi as int));
        assert(rest@ =~= old(arr)@.subrange(hi as int, old(arr)@.len() as int));
        assert(arr@ =~= head@ + mid@ + rest@);
        vstd::seq_lib::to_multiset_len(mid@);
        vstd::seq_lib::to_multiset_len(before);
        assert(mid@.len() == before.len() ==> arr@.subrange(lo as int, hi as int) =~= mid@);
    }
}

/// Puts `v[lo..hi]` in ascending order by the reference sort and leaves the
/// rest of `v` as it is.
fn oracle_sort_range(v: &mut [isize], lo: usize, hi: usize)
    requires
        lo <= hi <= old(v)@.len(),
    ensures
        final(v)@.len() == old(v)@.len(),
        forall|p: int| 0 <= p < lo || hi <= p < old(v)@.len() ==> final(v)@[p] == old(v)@[p],
        is_sort_of(
            final(v)@.subrange(lo as int, hi as int),
            old(v)@.subrange(lo as int, hi as int),
        ),
{
    let (head, tail) = v.split_at_mut(lo);
    let (mid, rest) = tail.split_at_mut(hi - lo);
    let ghost before = mid@;
    oracle_sort(mid);
    proof {
        vstd::seq_lib::to_multiset_len(mid@);
        vstd::seq_lib::to_multiset_len(before);
        assert(before =~= old(v)@.subrange(lo as int, hi as int));
        assert(v@ =~= head@ + mid@ + rest@);
        assert(v@.subrange(lo as int, hi as int) =~= mid@);
    }
}

/// Two sorts of one sequence of integers are the same sequence.
pub proof fn lemma_integer_sorts_agree(s: Seq<isize>, a: Seq<isize>, b: Seq<isize>)
    ensures
        is_sort_of(a, s) && is_sort_of(b, s) ==> a == b,
        is_sort_of(a, s) && is_sort_of(b, a) ==> a == b,
{
    lemma_integer_order();
    if is_sort_of(a, s) && is_sort_of(b, s) {
        lemma_sorted_unique(a, b);
    }
    if is_sort_of(a, s) && is_sort_of(b, a) {
        lemma_sorted_unique(a, b);
    }
}

/// One step of the generator's state: three shifts, each combined with the
/// state by exclusive or.
pub open spec fn xorshift(z: u64) -> u64 {
    let a = z ^ (z >> 12);
    let b = a ^ (a << 25);
    b ^ (b >> 27)
}

/// What the generator gives for a state that `xorshift` has just stepped to.
pub open spec fn scrambled(z: u64) -> u64 {
    z.wrapping_mul(2685821657736338717)
}

/// The generator's value for the stepped state `z`, brought into
/// `-range..=range`.
pub open spec fn random_value(z: u64, range: isize) -> isize {
    (scrambled(z) % ((2 * range + 1) as u64) - range) as isize
}

/// The `len` values that the generator gives from the state `seed`, each in
/// `-range..=range`.
pub open spec fn pseudo_random_seq(len: nat, seed: u64, range: isize) -> Seq<isize>
    decreases len,
{
    if len == 0 {
        Seq::empty()
    } else {
        seq![random_value(xorshift(seed), range)] + pseudo_random_seq(
            (len - 1) as nat,
            xorshift(seed),
            range,
        )
    }
}

/// Steps the state `x` of the xorshift64* generator and returns its next
/// value.
pub fn xorshift64star(x: &mut u64) -> (r: u64)
    ensures
        *final(x) == xorshift(*old(x)),
        r == scrambled(xorshift(*old(x))),
{
    let mut z = *x;
    z ^= z >> 12;
    z ^= z << 25;
    z ^= z >> 27;
    *x = z;
    z.wrapping_mul(2685821657736338717)
}

/// `len` pseudo-random integers in `-range..=range`, the same for the same
/// `seed` on every run.
pub fn pseudo_random_vec(len: usize, seed: u64, range: isize) -> (out: Vec<isize>)
    requires
        0 <= range,
    ensures
        out@ == pseudo_random_seq(len as nat, seed, range),
        out@.len() == len,
        forall|i: int| 0 <= i < len ==> -range <= #[trigger] out@[i] <= range,
{
    let mut state = seed;
    let mut out: Vec<isize> = Vec::with_capacity(len);
    let mut i: usize = 0;
    while i < len
        invariant
            0 <= range,
            i <= len,
            out@.len() == i,
            out@ + pseudo_random_seq((len - i) as nat, state, range) == pseudo_random_seq(
                len as nat,
                seed,
                range,
            ),
            forall|k: int| 0 <= k < i ==> -range <= #[trigger] out@[k] <= range,
        decreases len - i,
    {
        let ghost prev = state;
        let ghost built = out@;
        let r = xorshift64star(&mut state);
        let v = (r % ((2 * (range as u64)) + 1)) as i128 - (range as i128);
        out.push(v as isize);
        proof {
            let rest = pseudo_random_seq((len - i - 1) as nat, state, range);
            assert(pseudo_random_seq((len - i) as nat, prev, range) == seq![
                random_value(state, range),
            ] + rest);
            assert(v as isize == random_value(state, range));
            assert(out@ + rest =~= built + (seq![random_value(state, range)] + rest));
        }
        i += 1;
    }
    proof {
        assert(out@ + Seq::<isize>::empty() =~= out@);
    }
    out
}

/// Runs `sort` on `arr` and holds what it leaves against the reference sort;
/// then runs `sort` again on a copy of the result, which must stay as it is.
pub fn run_and_compare_full<F: Fn(&mut [isize]) + Copy>(sort: F, arr: &mut [isize]) -> (r: Result<
    (),
    Failure,
>)
    requires
        accepts_all(sort),
    ensures
        exists|m: &mut [isize]|
            {
                &&& #[trigger] call_ensures(sort, (m,), ())
                &&& m@ == old(arr)@
                &&& final(m)@ == final(arr)@
            },
        r == Err::<(), Failure>(Failure::Mismatch) <==> !is_sort_of(final(arr)@, old(arr)@),
        r == Err::<(), Failure>(Failure::NotIdempotent) ==> exists|m: &mut [isize]|
            {
                &&& #[trigger] call_ensures(sort, (m,), ())
                &&& m@ == final(arr)@
                &&& final(m)@ != final(arr)@
            },
        r is Ok ==> exists|m: &mut [isize]|
            {
                &&& #[trigger] call_ensures(sort, (m,), ())
                &&& m@ == final(arr)@
                &&& final(m)@ == final(arr)@
            },
        r is Err ==> exists|m: &mut [isize]|
            {
                &&& #[trigger] call_ensures(sort, (m,), ())
                &&& tried(m@, old(arr)@)
                &&& !is_sort_of(final(m)@, m@)
            },
        r is Ok ==> exists|m: &mut [isize]|
            {
                &&& #[trigger] call_ensures(sort, (m,), ())
                &&& m@ == old(arr)@
                &&& is_sort_of(final(m)@, m@)
            },
        r is Ok ==> exists|m: &mut [isize]|
            {
                &&& #[trigger] call_ensures(sort, (m,), ())
                &&& is_sort_of(m@, old(arr)@)
                &&& final(m)@ == m@
            },
        (forall|m: &mut [isize]|
            #[trigger] call_ensures(sort, (m,), ()) && tried(m@, old(arr)@) ==> is_sort_of(
                final(m)@,
                m@,
            )) ==> r is Ok,
{
    // Expected result using the standard library's sort.
    let mut expected = slice_to_vec(arr);
    oracle_sort(expected.as_mut_slice());

    // Run the candidate.
    sort(arr);

    proof {
        lemma_integer_sorts_agree(old(arr)@, expected@, arr@);
    }
    if !same_integers(arr, expected.as_slice()) {
        return Err(Failure::Mismatch);
    }
    // Idempotency: sorting an already-sorted slice should not change it.

    let mut second = slice_to_vec(arr);
    sort(second.as_mut_slice());
    proof {
        lemma_integer_sorts_agree(old(arr)@, expected@, second@);
    }
    if !same_integers(second.as_slice(), expected.as_slice()) {
        return Err(Failure::NotIdempotent);
    }
    Ok(())
}

/// Runs `sort` on `arr[lo..hi]` and holds what it leaves in `arr` against
/// `arr` with that range sorted by the reference sort; then runs `sort` again
/// on the same range of a copy of the result, which must stay as it is.
/// Whatever `sort` does, `arr[..lo]` and `arr[hi..]` stay as they are.
pub fn run_and_compare_partial<F: Fn(&mut [isize]) + Copy>(
    sort: F,
    arr: &mut [isize],
    lo: usize,
    hi: usize,
) -> (r: Result<(), Failure>)
    requires
        accepts_all(sort),
        lo <= hi <= old(arr)@.len(),
    ensures
        exists|m: &mut [isize]|
            {
                &&& #[trigger] call_ensures(sort, (m,), ())
                &&& m@ == old(arr)@.subrange(lo as int, hi as int)
                &&& final(arr)@ == old(arr)@.subrange(0, lo as int) + final(m)@ + old(
                    arr,
                )@.subrange(hi as int, old(arr)@.len() as int)
            },
        r != Err::<(), Failure>(Failure::Mismatch) <==> {
            &&& final(arr)@.len() == old(arr)@.len()
            &&& is_sort_of(
                final(arr)@.subrange(lo as int, hi as int),
                old(arr)@.subrange(lo as int, hi as int),
            )
        },
        r == Err::<(), Failure>(Failure::NotIdempotent) ==> exists|m: &mut [isize]|
            {
                &&& #[trigger] call_ensures(sort, (m,), ())
                &&& m@ == final(arr)@.subrange(lo as int, hi as int)
                &&& final(m)@ != m@
            },
        r is Ok ==> exists|m: &mut [isize]|
            {
                &&& #[trigger] call_ensures(sort, (m,), ())
                &&& m@ == final(arr)@.subrange(lo as int, hi as int)
                &&& final(m)@ == m@
            },
        r is Ok ==> exists|m: &mut [isize]|
            {
                &&& #[trigger] call_ensures(sort, (m,), ())
                &&& m@ == old(arr)@.subrange(lo as int, hi as int)
                &&& is_sort_of(final(m)@, m@)
            },
        r is Err ==> exists|m: &mut [isize]|
            {
                &&& #[trigger] call_ensures(sort, (m,), ())
                &&& tried(m@, old(arr)@.subrange(lo as int, hi as int))
                &&& !is_sort_of(final(m)@, m@)
            },
        r is Ok ==> exists|m: &mut [isize]|
            {
                &&& #[trigger] call_ensures(sort, (m,), ())
                &&& is_sort_of(m@, old(arr)@.subrange(lo as int, hi as int))
                &&& final(m)@ == m@
            },
        (forall|m: &mut [isize]|
            #[trigger] call_ensures(sort, (m,), ()) && tried(
                m@,
                old(arr)@.subrange(lo as int, hi as int),
            ) ==> is_sort_of(final(m)@, m@)) ==> r is Ok,
{
    let n = arr.len();
    // Build expected by sorting only the same subrange.
    let mut expected = slice_to_vec(arr);
    let ghost initial = arr@;
    oracle_sort_range(expected.as_mut_slice(), lo, hi);
    let ghost o_mid = initial.subrange(lo as int, hi as int);
    let ghost e_mid = expected@.subrange(lo as int, hi as int);
    proof {
        assert(expected@ =~= initial.subrange(0, lo as int) + e_mid + initial.subrange(
            hi as int,
            n as int,
        ));
    }

    // Sort only the subslice
    apply_to_range(sort, arr, lo, hi);
    let ghost a_mid = arr@.subrange(lo as int, hi as int);
    proof {
        lemma_integer_sorts_agree(o_mid, e_mid, a_mid);
        vstd::seq_lib::to_multiset_len(a_mid);
        assert(arr@.len() == n ==> arr@ =~= initial.subrange(0, lo as int) + a_mid
            + initial.subrange(hi as int, n as int));
        let m = choose|m: &mut [isize]|
            {
                &&& #[trigger] call_ensures(sort, (m,), ())
                &&& m@ == initial.subrange(lo as int, hi as int)
                &&& arr@ == initial.subrange(0, lo as int) + final(m)@ + initial.subrange(
                    hi as int,
                    n as int,
                )
            };
        assert(arr@.len() == n ==> final(m)@ =~= a_mid);
        vstd::seq_lib::to_multiset_len(final(m)@);
        vstd::seq_lib::to_multiset_len(o_mid);
    }
    // The whole array should match our expected (subslice-sorted) version.
    if !same_integers(arr, expected.as_slice()) {
        return Err(Failure::Mismatch);
    }
    // Idempotency on subslice.

    let mut again = slice_to_vec(arr);
    apply_to_range(sort, again.as_mut_slice(), lo, hi);
    let ghost g_mid = again@.subrange(lo as int, hi as int);
    proof {
        lemma_integer_sorts_agree(o_mid, a_mid, g_mid);
        vstd::seq_lib::to_multiset_len(g_mid);
        vstd::seq_lib::to_multiset_len(a_mid);
        assert(again@.len() == n && g_mid == a_mid ==> again@ =~= arr@) by {
            let m = choose|m: &mut [isize]|
                {
                    &&& #[trigger] call_ensures(sort, (m,), ())
                    &&& m@ == arr@.subrange(lo as int, hi as int)
                    &&& again@ == arr@.subrange(0, lo as int) + final(m)@ + arr@.subrange(
                        hi as int,
                        arr@.len() as int,
                    )
                };
            assert(again@.len() == n ==> final(m)@ =~= g_mid);
        }
    }
    if !same_integers(again.as_slice(), expected.as_slice()) {
        proof {
            let m = choose|m: &mut [isize]|
                {
                    &&& #[trigger] call_ensures(sort, (m,), ())
                    &&& m@ == arr@.subrange(lo as int, hi as int)
                    &&& again@ == arr@.subrange(0, lo as int) + final(m)@ + arr@.subrange(
                        hi as int,
                        arr@.len() as int,
                    )
                };
            lemma_integer_sorts_agree(o_mid, a_mid, final(m)@);
            assert(final(m)@ == m@ ==> again@ =~= arr@);
        }
        return Err(Failure::NotIdempotent);
    }
    proof {
        let m = choose|m: &mut [isize]|
            {
                &&& #[trigger] call_ensures(sort, (m,), ())
                &&& m@ == arr@.subrange(lo as int, hi as int)
                &&& again@ == arr@.subrange(0, lo as int) + final(m)@ + arr@.subrange(
                    hi as int,
                    arr@.len() as int,
                )
            };
        assert(final(m)@ =~= again@.subrange(lo as int, lo + final(m)@.len()));
    }
    Ok(())
}

// ---- Individual scenarios ----
//
// Each scenario returns `Ok` exactly for a sort that is right on what the
// scenario runs it on: its inputs, and each of them sorted. An `Err` comes
// with a run that went wrong; `Ok` comes with a run on each input that sorted
// it, and a run on the sorted input that left it as it was.

/// `0, 1, .., n - 1`.
pub open spec fn ascending_seq(n: nat) -> Seq<isize> {
    Seq::new(n, |i: int| i as isize)
}

/// `n - 1, .., 1, 0`.
pub open spec fn descending_seq(n: nat) -> Seq<isize> {
    Seq::new(n, |i: int| (n - 1 - i) as isize)
}

/// `n` times the value `x`.
pub open spec fn constant_seq(n: nat, x: isize) -> Seq<isize> {
    Seq::new(n, |i: int| x)
}

/// `0, 1, .., modulus - 1, 0, 1, ..`, `n` values in all.
pub open spec fn cyclic_seq(n: nat, modulus: int) -> Seq<isize> {
    Seq::new(n, |i: int| (i % modulus) as isize)
}

/// `0, 1, .., n - 1` turned left by `rot` places.
pub open spec fn rotated_seq(n: nat, rot: int) -> Seq<isize> {
    Seq::new(n, |i: int| ((i + rot) % (n as int)) as isize)
}

/// `0, 1, .., n - 1` with the values at `i` and `j` exchanged.
pub open spec fn transposed_seq(n: nat, i: int, j: int) -> Seq<isize> {
    Seq::new(n, |k: int| if k == i { j as isize } else if k == j { i as isize } else { k as isize })
}

/// `high, -high, high - 1, -high + 1, ..`, `pairs` such pairs, then `0`.
pub open spec fn zigzag_seq(pairs: nat, high: int) -> Seq<isize> {
    Seq::new(
        2 * pairs + 1,
        |k: int|
            if k == 2 * pairs {
                0isize
            } else if k % 2 == 0 {
                (high - k / 2) as isize
            } else {
                (-high + k / 2) as isize
            },
    )
}

/// Positive and negative values and zero.
pub open spec fn negatives_seq() -> Seq<isize> {
    seq![
        0isize,
        -1isize,
        1,
        -2isize,
        2,
        -3isize,
        3,
        -4isize,
        4,
        -5isize,
        5,
        -6isize,
        6,
        -7isize,
        7,
        -8isize,
        8,
        -9isize,
        9,
    ]
}

/// The least and the greatest integer, each twice, among small values.
pub open spec fn extremes_seq() -> Seq<isize> {
    seq![isize::MAX, 0, isize::MIN, -1isize, 1, isize::MIN, isize::MAX, 2, -2isize, 0]
}

/// The sequence over `-1, 0, 1` of length `len` whose code in base 3, lowest
/// digit first, is `code`.
pub open spec fn small_seq(len: nat, code: nat) -> Seq<isize>
    decreases len,
{
    if len == 0 {
        Seq::empty()
    } else {
        seq![(code % 3 - 1) as isize] + small_seq((len - 1) as nat, code / 3)
    }
}

/// 3 to the power `n`.
pub open spec fn pow3(n: nat) -> nat
    decreases n,
{
    if n == 0 {
        1
    } else {
        3 * pow3((n - 1) as nat)
    }
}

/// `c` is the code of a sequence of length `l` over `-1, 0, 1`.
pub open spec fn is_code(l: nat, c: nat) -> bool {
    c < pow3(l)
}

/// `s` has at most 5 elements, each of them -1, 0 or 1.
pub open spec fn small_domain(s: Seq<isize>) -> bool {
    &&& s.len() <= 5
    &&& forall|i: int| 0 <= i < s.len() ==> -1 <= #[trigger] s[i] <= 1
}

/// `t` is a number of places by which a sequence of 100 elements can be
/// turned.
pub open spec fn is_rotation(t: int) -> bool {
    0 <= t < 100
}

/// `s` is a rotation of `0, 1, .., 99`, or the sort of one.
pub open spec fn rotation_tried(s: Seq<isize>) -> bool {
    exists|t: int| is_rotation(t) && #[trigger] tried(s, rotated_seq(100, t))
}

/// Every sequence over `-1, 0, 1` has a code below 3 to the power of its
/// length.
pub proof fn lemma_small_seq_covers(s: Seq<isize>) -> (code: nat)
    requires
        forall|i: int| 0 <= i < s.len() ==> -1 <= #[trigger] s[i] <= 1,
    ensures
        code < pow3(s.len()),
        small_seq(s.len(), code) == s,
    decreases s.len(),
{
    if s.len() == 0 {
        assert(small_seq(0, 0) =~= s);
        0
    } else {
        let rest = s.drop_first();
        assert forall|i: int| 0 <= i < rest.len() implies -1 <= #[trigger] rest[i] <= 1 by {
            assert(rest[i] == s[i + 1]);
        }
        let c = lemma_small_seq_covers(rest);
        let code = (s[0] + 1 + 3 * c) as nat;
        assert(code % 3 == s[0] + 1);
        assert(code / 3 == c);
        assert(small_seq(s.len(), code) =~= s);
        code
    }
}

/// The sequence of a code has the length asked for, and holds -1, 0 and 1
/// only.
pub proof fn lemma_small_seq_in_domain(len: nat, code: nat)
    ensures
        small_seq(len, code).len() == len,
        forall|i: int| 0 <= i < len ==> -1 <= #[trigger] small_seq(len, code)[i] <= 1,
    decreases len,
{
    if len > 0 {
        lemma_small_seq_in_domain((len - 1) as nat, code / 3);
        let rest = small_seq((len - 1) as nat, code / 3);
        let s = small_seq(len, code);
        assert forall|i: int| 0 <= i < len implies -1 <= #[trigger] s[i] <= 1 by {
            if i > 0 {
                assert(s[i] == rest[i - 1]);
            }
        }
    }
}

/// A small sequence sorted is a small sequence.
pub proof fn lemma_small_domain_closed(inp: Seq<isize>)
    requires
        small_domain(inp),
    ensures
        forall|s: Seq<isize>| #[trigger] tried(s, inp) ==> small_domain(s),
{
    assert forall|s: Seq<isize>| #[trigger] tried(s, inp) implies small_domain(s) by {
        if s != inp {
            vstd::seq_lib::to_multiset_len(s);
            vstd::seq_lib::to_multiset_len(inp);
            assert forall|i: int| 0 <= i < s.len() implies -1 <= #[trigger] s[i] <= 1 by {
                vstd::seq_lib::to_multiset_contains(s, s[i]);
                vstd::seq_lib::to_multiset_contains(inp, s[i]);
                assert(s.contains(s[i]));
                let k = choose|k: int| 0 <= k < inp.len() && inp[k] == s[i];
                assert(-1 <= inp[k] <= 1);
            }
        }
    }
}

/// `0, 1, .., n - 1`.
fn ascending(n: usize) -> (v: Vec<isize>)
    requires
        n <= isize::MAX,
    ensures
        v@ == ascending_seq(n as nat),
{
    let mut v: Vec<isize> = Vec::new();
    let mut i: usize = 0;
    while i < n
        invariant
            i <= n <= isize::MAX,
            v@.len() == i,
            forall|k: int| 0 <= k < i ==> v@[k] == k,
        decreases n - i,
    {
        v.push(i as isize);
        i += 1;
    }
    proof {
        assert(v@ =~= ascending_seq(n as nat));
    }
    v
}

/// An empty sequence stays empty.
pub fn test_empty<F: Fn(&mut [isize]) + Copy>(sort: F) -> (r: Result<(), Failure>)
    requires
        accepts_all(sort),
    ensures
        (forall|m: &mut [isize]|
            #[trigger] call_ensures(sort, (m,), ()) && (tried(m@, Seq::<isize>::empty())) ==> is_sort_of(
                final(m)@,
                m@,
            )) ==> r is Ok,
        r is Err ==> exists|m: &mut [isize]|
            {
                &&& #[trigger] call_ensures(sort, (m,), ())
                &&& (tried(m@, Seq::<isize>::empty()))
                &&& !is_sort_of(final(m)@, m@)
            },
        r is Ok ==> exists|m: &mut [isize]|
            {
                &&& #[trigger] call_ensures(sort, (m,), ())
                &&& m@ == Seq::<isize>::empty()
                &&& is_sort_of(final(m)@, m@)
            },
{
    let mut arr: Vec<isize> = Vec::new();
    sort(arr.as_mut_slice());
    proof {
        vstd::seq_lib::to_multiset_len(arr@);
        vstd::seq_lib::to_multiset_len(Seq::<isize>::empty());
    }
    if arr.len() != 0 {
        return Err(Failure::Mismatch);
    }
    proof {
        assert(arr@ =~= Seq::<isize>::empty());
    }
    Ok(())
}

/// A sequence of one element.
pub fn test_singleton<F: Fn(&mut [isize]) + Copy>(sort: F) -> (r: Result<(), Failure>)
    requires
        accepts_all(sort),
    ensures
        (forall|m: &mut [isize]|
            #[trigger] call_ensures(sort, (m,), ()) && (tried(m@, seq![42isize])) ==> is_sort_of(
                final(m)@,
                m@,
            )) ==> r is Ok,
        r is Err ==> exists|m: &mut [isize]|
            {
                &&& #[trigger] call_ensures(sort, (m,), ())
                &&& (tried(m@, seq![42isize]))
                &&& !is_sort_of(final(m)@, m@)
            },
        r is Ok ==> exists|m: &mut [isize]|
            {
                &&& #[trigger] call_ensures(sort, (m,), ())
                &&& m@ == seq![42isize]
                &&& is_sort_of(final(m)@, m@)
            },
        r is Ok ==> exists|m: &mut [isize]|
            {
                &&& #[trigger] call_ensures(sort, (m,), ())
                &&& is_sort_of(m@, seq![42isize])
                &&& final(m)@ == m@
            },
{
    let mut arr = vec![42isize];
    proof {
        assert(arr@ =~= seq![42isize]);
    }
    run_and_compare_full(sort, arr.as_mut_slice())
}

/// Two elements: in order, out of order, and equal.
pub fn test_two_elements<F: Fn(&mut [isize]) + Copy>(sort: F) -> (r: Result<(), Failure>)
    requires
        accepts_all(sort),
    ensures
        (forall|m: &mut [isize]|
            #[trigger] call_ensures(sort, (m,), ()) && (tried(m@, seq![1isize, 2]) || tried(m@, seq![2isize, 1]) || tried(m@, seq![5isize, 5])) ==> is_sort_of(
                final(m)@,
                m@,
            )) ==> r is Ok,
        r is Err ==> exists|m: &mut [isize]|
            {
                &&& #[trigger] call_ensures(sort, (m,), ())
                &&& (tried(m@, seq![1isize, 2]) || tried(m@, seq![2isize, 1]) || tried(m@, seq![5isize, 5]))
                &&& !is_sort_of(final(m)@, m@)
            },
        r is Ok ==> exists|m: &mut [isize]|
            {
                &&& #[trigger] call_ensures(sort, (m,), ())
                &&& m@ == seq![1isize, 2]
                &&& is_sort_of(final(m)@, m@)
            },
        r is Ok ==> exists|m: &mut [isize]|
            {
                &&& #[trigger] call_ensures(sort, (m,), ())
                &&& is_sort_of(m@, seq![1isize, 2])
                &&& final(m)@ == m@
            },
        r is Ok ==> exists|m: &mut [isize]|
            {
                &&& #[trigger] call_ensures(sort, (m,), ())
                &&& m@ == seq![2isize, 1]
                &&& is_sort_of(final(m)@, m@)
            },
        r is Ok ==> exists|m: &mut [isize]|
            {
                &&& #[trigger] call_ensures(sort, (m,), ())
                &&& is_sort_of(m@, seq![2isize, 1])
                &&& final(m)@ == m@
            },
        r is Ok ==> exists|m: &mut [isize]|
            {
                &&& #[trigger] call_ensures(sort, (m,), ())
                &&& m@ == seq![5isize, 5]
                &&& is_sort_of(final(m)@, m@)
            },
        r is Ok ==> exists|m: &mut [isize]|
            {
                &&& #[trigger] call_ensures(sort, (m,), ())
                &&& is_sort_of(m@, seq![5isize, 5])
                &&& final(m)@ == m@
            },
{
    let mut a1 = vec![1isize, 2];
    let mut a2 = vec![2isize, 1];
    let mut a3 = vec![5isize, 5];

    run_and_compare_full(sort, a1.as_mut_slice())?;
    run_and_compare_full(sort, a2.as_mut_slice())?;
    run_and_compare_full(sort, a3.as_mut_slice())?;
    Ok(())
}

/// A sequence that is in ascending order already.
pub fn test_already_sorted<F: Fn(&mut [isize]) + Copy>(sort: F) -> (r: Result<(), Failure>)
    requires
        accepts_all(sort),
    ensures
        (forall|m: &mut [isize]|
            #[trigger] call_ensures(sort, (m,), ()) && (tried(m@, ascending_seq(128))) ==> is_sort_of(
                final(m)@,
                m@,
            )) ==> r is Ok,
        r is Err ==> exists|m: &mut [isize]|
            {
                &&& #[trigger] call_ensures(sort, (m,), ())
                &&& (tried(m@, ascending_seq(128)))
                &&& !is_sort_of(final(m)@, m@)
            },
        r is Ok ==> exists|m: &mut [isize]|
            {
                &&& #[trigger] call_ensures(sort, (m,), ())
                &&& m@ == ascending_seq(128)
                &&& is_sort_of(final(m)@, m@)
            },
        r is Ok ==> exists|m: &mut [isize]|
            {
                &&& #[trigger] call_ensures(sort, (m,), ())
                &&& is_sort_of(m@, ascending_seq(128))
                &&& final(m)@ == m@
            },
{
    let mut arr = ascending(128);
    run_and_compare_full(sort, arr.as_mut_slice())
}

/// A sequence in descending order.
pub fn test_reverse_order<F: Fn(&mut [isize]) + Copy>(sort: F) -> (r: Result<(), Failure>)
    requires
        accepts_all(sort),
    ensures
        (forall|m: &mut [isize]|
            #[trigger] call_ensures(sort, (m,), ()) && (tried(m@, descending_seq(256))) ==> is_sort_of(
                final(m)@,
                m@,
            )) ==> r is Ok,
        r is Err ==> exists|m: &mut [isize]|
            {
                &&& #[trigger] call_ensures(sort, (m,), ())
                &&& (tried(m@, descending_seq(256)))
                &&& !is_sort_of(final(m)@, m@)
            },
        r is Ok ==> exists|m: &mut [isize]|
            {
                &&& #[trigger] call_ensures(sort, (m,), ())
                &&& m@ == descending_seq(256)
                &&& is_sort_of(final(m)@, m@)
            },
        r is Ok ==> exists|m: &mut [isize]|
            {
                &&& #[trigger] call_ensures(sort, (m,), ())
                &&& is_sort_of(m@, descending_seq(256))
                &&& final(m)@ == m@
            },
{
    let mut arr: Vec<isize> = Vec::new();
    let mut i: isize = 256;
    while i > 0
        invariant
            0 <= i <= 256,
            arr@.len() == 256 - i,
            forall|k: int| 0 <= k < 256 - i ==> arr@[k] == 255 - k,
        decreases i,
    {
        i -= 1;
        arr.push(i);
    }
    proof {
        assert(arr@ =~= descending_seq(256));
    }
    run_and_compare_full(sort, arr.as_mut_slice())
}

/// One value many times.
pub fn test_all_same<F: Fn(&mut [isize]) + Copy>(sort: F) -> (r: Result<(), Failure>)
    requires
        accepts_all(sort),
    ensures
        (forall|m: &mut [isize]|
            #[trigger] call_ensures(sort, (m,), ()) && (tried(m@, constant_seq(257, 7))) ==> is_sort_of(
                final(m)@,
                m@,
            )) ==> r is Ok,
        r is Err ==> exists|m: &mut [isize]|
            {
                &&& #[trigger] call_ensures(sort, (m,), ())
                &&& (tried(m@, constant_seq(257, 7)))
                &&& !is_sort_of(final(m)@, m@)
            },
        r is Ok ==> exists|m: &mut [isize]|
            {
                &&& #[trigger] call_ensures(sort, (m,), ())
                &&& m@ == constant_seq(257, 7)
                &&& is_sort_of(final(m)@, m@)
            },
        r is Ok ==> exists|m: &mut [isize]|
            {
                &&& #[trigger] call_ensures(sort, (m,), ())
                &&& is_sort_of(m@, constant_seq(257, 7))
                &&& final(m)@ == m@
            },
{
    let mut arr: Vec<isize> = Vec::new();
    let mut i: usize = 0;
    while i < 257
        invariant
            i <= 257,
            arr@.len() == i,
            forall|k: int| 0 <= k < i ==> arr@[k] == 7,
        decreases 257 - i,
    {
        arr.push(7);
        i += 1;
    }
    proof {
        assert(arr@ =~= constant_seq(257, 7));
    }
    run_and_compare_full(sort, arr.as_mut_slice())
}

/// Few values, each many times.
pub fn test_duplicates_dense<F: Fn(&mut [isize]) + Copy>(sort: F) -> (r: Result<(), Failure>)
    requires
        accepts_all(sort),
    ensures
        (forall|m: &mut [isize]|
            #[trigger] call_ensures(sort, (m,), ()) && (tried(m@, cyclic_seq(512, 7))) ==> is_sort_of(
                final(m)@,
                m@,
            )) ==> r is Ok,
        r is Err ==> exists|m: &mut [isize]|
            {
                &&& #[trigger] call_ensures(sort, (m,), ())
                &&& (tried(m@, cyclic_seq(512, 7)))
                &&& !is_sort_of(final(m)@, m@)
            },
        r is Ok ==> exists|m: &mut [isize]|
            {
                &&& #[trigger] call_ensures(sort, (m,), ())
                &&& m@ == cyclic_seq(512, 7)
                &&& is_sort_of(final(m)@, m@)
            },
        r is Ok ==> exists|m: &mut [isize]|
            {
                &&& #[trigger] call_ensures(sort, (m,), ())
                &&& is_sort_of(m@, cyclic_seq(512, 7))
                &&& final(m)@ == m@
            },
{
    // Many repeated values (heavy duplicate distribution).
    let mut arr: Vec<isize> = Vec::new();
    let mut i: isize = 0;
    while i < 512
        invariant
            0 <= i <= 512,
            arr@.len() == i,
            forall|k: int| 0 <= k < i ==> arr@[k] == k % 7,
        decreases 512 - i,
    {
        arr.push(i % 7);
        i += 1;
    }
    proof {
        assert(arr@ =~= cyclic_seq(512, 7));
    }
    run_and_compare_full(sort, arr.as_mut_slice())
}

/// Negative and positive values and zero.
pub fn test_negatives_and_mixed<F: Fn(&mut [isize]) + Copy>(sort: F) -> (r: Result<(), Failure>)
    requires
        accepts_all(sort),
    ensures
        (forall|m: &mut [isize]|
            #[trigger] call_ensures(sort, (m,), ()) && (tried(m@, negatives_seq())) ==> is_sort_of(
                final(m)@,
                m@,
            )) ==> r is Ok,
        r is Err ==> exists|m: &mut [isize]|
            {
                &&& #[trigger] call_ensures(sort, (m,), ())
                &&& (tried(m@, negatives_seq()))
                &&& !is_sort_of(final(m)@, m@)
            },
        r is Ok ==> exists|m: &mut [isize]|
            {
                &&& #[trigger] call_ensures(sort, (m,), ())
                &&& m@ == negatives_seq()
                &&& is_sort_of(final(m)@, m@)
            },
        r is Ok ==> exists|m: &mut [isize]|
            {
                &&& #[trigger] call_ensures(sort, (m,), ())
                &&& is_sort_of(m@, negatives_seq())
                &&& final(m)@ == m@
            },
{
    let mut arr = vec![0isize, -1, 1, -2, 2, -3, 3, -4, 4, -5, 5, -6, 6, -7, 7, -8, 8, -9, 9];
    run_and_compare_full(sort, arr.as_mut_slice())
}

/// The least and the greatest integer, each more than once.
pub fn test_extreme_values<F: Fn(&mut [isize]) + Copy>(sort: F) -> (r: Result<(), Failure>)
    requires
        accepts_all(sort),
    ensures
        (forall|m: &mut [isize]|
            #[trigger] call_ensures(sort, (m,), ()) && (tried(m@, extremes_seq())) ==> is_sort_of(
                final(m)@,
                m@,
            )) ==> r is Ok,
        r is Err ==> exists|m: &mut [isize]|
            {
                &&& #[trigger] call_ensures(sort, (m,), ())
                &&& (tried(m@, extremes_seq()))
                &&& !is_sort_of(final(m)@, m@)
            },
        r is Ok ==> exists|m: &mut [isize]|
            {
                &&& #[trigger] call_ensures(sort, (m,), ())
                &&& m@ == extremes_seq()
                &&& is_sort_of(final(m)@, m@)
            },
        r is Ok ==> exists|m: &mut [isize]|
            {
                &&& #[trigger] call_ensures(sort, (m,), ())
                &&& is_sort_of(m@, extremes_seq())
                &&& final(m)@ == m@
            },
{
    let mut arr = vec![isize::MAX, 0, isize::MIN, -1, 1, isize::MIN, isize::MAX, 2, -2, 0];
    run_and_compare_full(sort, arr.as_mut_slice())
}

/// An ascending sequence with two of its elements exchanged.
pub fn test_nearly_sorted_one_swap<F: Fn(&mut [isize]) + Copy>(sort: F) -> (r: Result<(), Failure>)
    requires
        accepts_all(sort),
    ensures
        (forall|m: &mut [isize]|
            #[trigger] call_ensures(sort, (m,), ()) && (tried(m@, transposed_seq(200, 50, 150))) ==> is_sort_of(
                final(m)@,
                m@,
            )) ==> r is Ok,
        r is Err ==> exists|m: &mut [isize]|
            {
                &&& #[trigger] call_ensures(sort, (m,), ())
                &&& (tried(m@, transposed_seq(200, 50, 150)))
                &&& !is_sort_of(final(m)@, m@)
            },
        r is Ok ==> exists|m: &mut [isize]|
            {
                &&& #[trigger] call_ensures(sort, (m,), ())
                &&& m@ == transposed_seq(200, 50, 150)
                &&& is_sort_of(final(m)@, m@)
            },
        r is Ok ==> exists|m: &mut [isize]|
            {
                &&& #[trigger] call_ensures(sort, (m,), ())
                &&& is_sort_of(m@, transposed_seq(200, 50, 150))
                &&& final(m)@ == m@
            },
{
    let mut arr = ascending(200);
    arr.as_mut_slice().swap(50, 150);
    proof {
        assert(arr@ =~= transposed_seq(200, 50, 150));
    }
    run_and_compare_full(sort, arr.as_mut_slice())
}

/// Every rotation of an ascending sequence.
pub fn test_rotated_sorted<F: Fn(&mut [isize]) + Copy>(sort: F) -> (r: Result<(), Failure>)
    requires
        accepts_all(sort),
    ensures
        (forall|m: &mut [isize]|
            #[trigger] call_ensures(sort, (m,), ()) && (rotation_tried(m@)) ==> is_sort_of(
                final(m)@,
                m@,
            )) ==> r is Ok,
        r is Err ==> exists|m: &mut [isize]|
            {
                &&& #[trigger] call_ensures(sort, (m,), ())
                &&& (rotation_tried(m@))
                &&& !is_sort_of(final(m)@, m@)
            },
        r is Ok ==> forall|t: int|
            #[trigger] is_rotation(t) ==> exists|m: &mut [isize]|
                {
                    &&& #[trigger] call_ensures(sort, (m,), ())
                    &&& m@ == rotated_seq(100, t)
                    &&& is_sort_of(final(m)@, m@)
                },
        r is Ok ==> forall|t: int|
            #[trigger] is_rotation(t) ==> exists|m: &mut [isize]|
                {
                    &&& #[trigger] call_ensures(sort, (m,), ())
                    &&& is_sort_of(m@, rotated_seq(100, t))
                    &&& final(m)@ == m@
                },
{
    let base = ascending(100);
    let mut rot: usize = 0;
    while rot < 100
        invariant
            accepts_all(sort),
            rot <= 100,
            base@ == ascending_seq(100),
            forall|t: int|
                #[trigger] is_rotation(t) && t < rot ==> exists|m: &mut [isize]|
                    {
                        &&& #[trigger] call_ensures(sort, (m,), ())
                        &&& m@ == rotated_seq(100, t)
                        &&& is_sort_of(final(m)@, m@)
                    },
            forall|t: int|
                #[trigger] is_rotation(t) && t < rot ==> exists|m: &mut [isize]|
                    {
                        &&& #[trigger] call_ensures(sort, (m,), ())
                        &&& is_sort_of(m@, rotated_seq(100, t))
                        &&& final(m)@ == m@
                    },
        decreases 100 - rot,
    {
        let mut arr: Vec<isize> = Vec::new();
        let mut i: usize = rot;
        while i < 100
            invariant
                rot <= i <= 100,
                base@ == ascending_seq(100),
                arr@.len() == i - rot,
                forall|k: int| 0 <= k < i - rot ==> arr@[k] == k + rot,
            decreases 100 - i,
        {
            arr.push(base[i]);
            i += 1;
        }
        let mut i: usize = 0;
        while i < rot
            invariant
                i <= rot < 100,
                base@ == ascending_seq(100),
                arr@.len() == 100 - rot + i,
                forall|k: int| 0 <= k < 100 - rot ==> arr@[k] == k + rot,
                forall|k: int| 100 - rot <= k < 100 - rot + i ==> arr@[k] == k + rot - 100,
            decreases rot - i,
        {
            arr.push(base[i]);
            i += 1;
        }
        proof {
            assert(arr@ =~= rotated_seq(100, rot as int));
            assert(is_rotation(rot as int));
            assert forall|s: Seq<isize>| tried(s, arr@) implies rotation_tried(s) by {
                assert(is_rotation(rot as int) && tried(s, rotated_seq(100, rot as int)));
            }
        }
        run_and_compare_full(sort, arr.as_mut_slice())?;
        rot += 1;
    }
    Ok(())
}

/// High and low values in alternation.
pub fn test_zigzag_pattern<F: Fn(&mut [isize]) + Copy>(sort: F) -> (r: Result<(), Failure>)
    requires
        accepts_all(sort),
    ensures
        (forall|m: &mut [isize]|
            #[trigger] call_ensures(sort, (m,), ()) && (tried(m@, zigzag_seq(100, 10_000))) ==> is_sort_of(
                final(m)@,
                m@,
            )) ==> r is Ok,
        r is Err ==> exists|m: &mut [isize]|
            {
                &&& #[trigger] call_ensures(sort, (m,), ())
                &&& (tried(m@, zigzag_seq(100, 10_000)))
                &&& !is_sort_of(final(m)@, m@)
            },
        r is Ok ==> exists|m: &mut [isize]|
            {
                &&& #[trigger] call_ensures(sort, (m,), ())
                &&& m@ == zigzag_seq(100, 10_000)
                &&& is_sort_of(final(m)@, m@)
            },
        r is Ok ==> exists|m: &mut [isize]|
            {
                &&& #[trigger] call_ensures(sort, (m,), ())
                &&& is_sort_of(m@, zigzag_seq(100, 10_000))
                &&& final(m)@ == m@
            },
{
    // Alternating high/low to frustrate simplistic partitioners.
    let mut arr: Vec<isize> = Vec::with_capacity(201);
    let mut i: isize = 0;
    while i < 100
        invariant
            0 <= i <= 100,
            arr@.len() == 2 * i,
            forall|k: int|
                0 <= k < 2 * i ==> arr@[k] == if k % 2 == 0 {
                    10_000 - k / 2
                } else {
                    -10_000 + k / 2
                },
        decreases 100 - i,
    {
        arr.push(10_000 - i);
        arr.push(-10_000 + i);
        i += 1;
    }
    arr.push(0);
    proof {
        assert(arr@ =~= zigzag_seq(100, 10_000));
    }
    run_and_compare_full(sort, arr.as_mut_slice())
}

/// Some tens of pseudo-random values.
pub fn test_randomish_small<F: Fn(&mut [isize]) + Copy>(sort: F) -> (r: Result<(), Failure>)
    requires
        accepts_all(sort),
    ensures
        (forall|m: &mut [isize]|
            #[trigger] call_ensures(sort, (m,), ()) && (tried(m@, pseudo_random_seq(97, 0xDEADBEEFCAFEBABEu64, 2000))) ==> is_sort_of(
                final(m)@,
                m@,
            )) ==> r is Ok,
        r is Err ==> exists|m: &mut [isize]|
            {
                &&& #[trigger] call_ensures(sort, (m,), ())
                &&& (tried(m@, pseudo_random_seq(97, 0xDEADBEEFCAFEBABEu64, 2000)))
                &&& !is_sort_of(final(m)@, m@)
            },
        r is Ok ==> exists|m: &mut [isize]|
            {
                &&& #[trigger] call_ensures(sort, (m,), ())
                &&& m@ == pseudo_random_seq(97, 0xDEADBEEFCAFEBABEu64, 2000)
                &&& is_sort_of(final(m)@, m@)
            },
        r is Ok ==> exists|m: &mut [isize]|
            {
                &&& #[trigger] call_ensures(sort, (m,), ())
                &&& is_sort_of(m@, pseudo_random_seq(97, 0xDEADBEEFCAFEBABEu64, 2000))
                &&& final(m)@ == m@
            },
{
    let mut arr = pseudo_random_vec(97, 0xDEADBEEFCAFEBABEu64, 2000);
    run_and_compare_full(sort, arr.as_mut_slice())
}

/// About a thousand pseudo-random values.
pub fn test_randomish_medium<F: Fn(&mut [isize]) + Copy>(sort: F) -> (r: Result<(), Failure>)
    requires
        accepts_all(sort),
    ensures
        (forall|m: &mut [isize]|
            #[trigger] call_ensures(sort, (m,), ()) && (tried(m@, pseudo_random_seq(1024, 0x1234_5678_9ABC_DEF0u64, 50_000))) ==> is_sort_of(
                final(m)@,
                m@,
            )) ==> r is Ok,
        r is Err ==> exists|m: &mut [isize]|
            {
                &&& #[trigger] call_ensures(sort, (m,), ())
                &&& (tried(m@, pseudo_random_seq(1024, 0x1234_5678_9ABC_DEF0u64, 50_000)))
                &&& !is_sort_of(final(m)@, m@)
            },
        r is Ok ==> exists|m: &mut [isize]|
            {
                &&& #[trigger] call_ensures(sort, (m,), ())
                &&& m@ == pseudo_random_seq(1024, 0x1234_5678_9ABC_DEF0u64, 50_000)
                &&& is_sort_of(final(m)@, m@)
            },
        r is Ok ==> exists|m: &mut [isize]|
            {
                &&& #[trigger] call_ensures(sort, (m,), ())
                &&& is_sort_of(m@, pseudo_random_seq(1024, 0x1234_5678_9ABC_DEF0u64, 50_000))
                &&& final(m)@ == m@
            },
{
    // Keep moderate so O(n^2) implementations still pass in reasonable time.
    let mut arr = pseudo_random_vec(1024, 0x1234_5678_9ABC_DEF0u64, 50_000);
    run_and_compare_full(sort, arr.as_mut_slice())
}

/// A range inside a sequence, and the whole sequence given as a range.
pub fn test_partial_subslice_middle<F: Fn(&mut [isize]) + Copy>(sort: F) -> (r: Result<(), Failure>)
    requires
        accepts_all(sort),
    ensures
        (forall|m: &mut [isize]|
            #[trigger] call_ensures(sort, (m,), ()) && (tried(m@, pseudo_random_seq(200, 0xBEEFu64, 500).subrange(50, 150)) || tried(m@, pseudo_random_seq(200, 0xBEEFu64, 500).subrange(0, 200))) ==> is_sort_of(
                final(m)@,
                m@,
            )) ==> r is Ok,
        r is Err ==> exists|m: &mut [isize]|
            {
                &&& #[trigger] call_ensures(sort, (m,), ())
                &&& (tried(m@, pseudo_random_seq(200, 0xBEEFu64, 500).subrange(50, 150)) || tried(m@, pseudo_random_seq(200, 0xBEEFu64, 500).subrange(0, 200)))
                &&& !is_sort_of(final(m)@, m@)
            },
        r is Ok ==> exists|m: &mut [isize]|
            {
                &&& #[trigger] call_ensures(sort, (m,), ())
                &&& m@ == pseudo_random_seq(200, 0xBEEFu64, 500).subrange(50, 150)
                &&& is_sort_of(final(m)@, m@)
            },
        r is Ok ==> exists|m: &mut [isize]|
            {
                &&& #[trigger] call_ensures(sort, (m,), ())
                &&& is_sort_of(m@, pseudo_random_seq(200, 0xBEEFu64, 500).subrange(50, 150))
                &&& final(m)@ == m@
            },
        r is Ok ==> exists|m: &mut [isize]|
            {
                &&& #[trigger] call_ensures(sort, (m,), ())
                &&& m@ == pseudo_random_seq(200, 0xBEEFu64, 500).subrange(0, 200)
                &&& is_sort_of(final(m)@, m@)
            },
        r is Ok ==> exists|m: &mut [isize]|
            {
                &&& #[trigger] call_ensures(sort, (m,), ())
                &&& is_sort_of(m@, pseudo_random_seq(200, 0xBEEFu64, 500).subrange(0, 200))
                &&& final(m)@ == m@
            },
{
    let mut arr = pseudo_random_vec(200, 0xBEEFu64, 500);
    let orig = slice_to_vec(arr.as_slice());
    run_and_compare_partial(sort, arr.as_mut_slice(), 50, 150)?;

    // Double-check again with a different middle to exercise more boundaries.
    let mut arr2 = orig;
    run_and_compare_partial(sort, arr2.as_mut_slice(), 0, 200)?;  // whole slice behaves the same as full
    Ok(())
}

/// A range at the front of a sequence, then one at its end.
pub fn test_partial_edges<F: Fn(&mut [isize]) + Copy>(sort: F) -> (r: Result<(), Failure>)
    requires
        accepts_all(sort),
    ensures
        (forall|m: &mut [isize]|
            #[trigger] call_ensures(sort, (m,), ()) && (tried(m@, pseudo_random_seq(64, 0xA11CEu64, 100).subrange(0, 17)) || tried(m@, pseudo_random_seq(64, 0xA11CEu64, 100).subrange(47, 64))) ==> is_sort_of(
                final(m)@,
                m@,
            )) ==> r is Ok,
        r is Err ==> exists|m: &mut [isize]|
            {
                &&& #[trigger] call_ensures(sort, (m,), ())
                &&& (tried(m@, pseudo_random_seq(64, 0xA11CEu64, 100).subrange(0, 17)) || tried(m@, pseudo_random_seq(64, 0xA11CEu64, 100).subrange(47, 64)))
                &&& !is_sort_of(final(m)@, m@)
            },
        r is Ok ==> exists|m: &mut [isize]|
            {
                &&& #[trigger] call_ensures(sort, (m,), ())
                &&& m@ == pseudo_random_seq(64, 0xA11CEu64, 100).subrange(0, 17)
                &&& is_sort_of(final(m)@, m@)
            },
        r is Ok ==> exists|m: &mut [isize]|
            {
                &&& #[trigger] call_ensures(sort, (m,), ())
                &&& is_sort_of(m@, pseudo_random_seq(64, 0xA11CEu64, 100).subrange(0, 17))
                &&& final(m)@ == m@
            },
        r is Ok ==> exists|m: &mut [isize]|
            {
                &&& #[trigger] call_ensures(sort, (m,), ())
                &&& m@ == pseudo_random_seq(64, 0xA11CEu64, 100).subrange(47, 64)
                &&& is_sort_of(final(m)@, m@)
            },
        r is Ok ==> exists|m: &mut [isize]|
            {
                &&& #[trigger] call_ensures(sort, (m,), ())
                &&& is_sort_of(m@, pseudo_random_seq(64, 0xA11CEu64, 100).subrange(47, 64))
                &&& final(m)@ == m@
            },
{
    let mut arr = pseudo_random_vec(64, 0xA11CEu64, 100);
    let ghost first = arr@;
    // Sort prefix only
    run_and_compare_partial(sort, arr.as_mut_slice(), 0, 17)?;
    proof {
        assert(arr@.subrange(47, 64) =~= first.subrange(47, 64)) by {
            let m = choose|m: &mut [isize]|
                {
                    &&& #[trigger] call_ensures(sort, (m,), ())
                    &&& m@ == first.subrange(0, 17)
                    &&& arr@ == first.subrange(0, 0) + final(m)@ + first.subrange(17, 64)
                };
            assert(final(m)@.len() == 17);
        }
    }
    // Sort suffix only
    run_and_compare_partial(sort, arr.as_mut_slice(), 47, 64)?;
    Ok(())
}

/// Every sequence of at most 5 elements over -1, 0 and 1.
pub fn test_many_small_arrays<F: Fn(&mut [isize]) + Copy>(sort: F) -> (r: Result<(), Failure>)
    requires
        accepts_all(sort),
    ensures
        (forall|m: &mut [isize]|
            #[trigger] call_ensures(sort, (m,), ()) && (small_domain(m@)) ==> is_sort_of(
                final(m)@,
                m@,
            )) ==> r is Ok,
        r is Err ==> exists|m: &mut [isize]|
            {
                &&& #[trigger] call_ensures(sort, (m,), ())
                &&& (small_domain(m@))
                &&& !is_sort_of(final(m)@, m@)
            },
        r is Ok ==> forall|s: Seq<isize>|
            #[trigger] small_domain(s) ==> exists|m: &mut [isize]|
                {
                    &&& #[trigger] call_ensures(sort, (m,), ())
                    &&& m@ == s
                    &&& is_sort_of(final(m)@, m@)
                },
        r is Ok ==> forall|s: Seq<isize>|
            #[trigger] small_domain(s) ==> exists|m: &mut [isize]|
                {
                    &&& #[trigger] call_ensures(sort, (m,), ())
                    &&& is_sort_of(m@, s)
                    &&& final(m)@ == m@
                },
{
    // Exhaustively test all arrays of length <= 5 over a tiny domain {-1,0,1}.
    let domain = [-1isize, 0, 1];
    let mut len: usize = 0;
    let mut total: usize = 1;
    while len <= 5
        invariant
            accepts_all(sort),
            len <= 6,
            total == pow3(len as nat),
            total <= 729,
            domain@ == seq![-1isize, 0, 1],
            forall|l: nat, c: nat|
                l < len && #[trigger] is_code(l, c) ==> exists|m: &mut [isize]|
                    {
                        &&& #[trigger] call_ensures(sort, (m,), ())
                        &&& m@ == small_seq(l, c)
                        &&& is_sort_of(final(m)@, m@)
                    },
            forall|l: nat, c: nat|
                l < len && #[trigger] is_code(l, c) ==> exists|m: &mut [isize]|
                    {
                        &&& #[trigger] call_ensures(sort, (m,), ())
                        &&& is_sort_of(m@, small_seq(l, c))
                        &&& final(m)@ == m@
                    },
        decreases 6 - len,
    {
        // Iterate all 3^len assignments.
        let mut code: usize = 0;
        while code < total
            invariant
                accepts_all(sort),
                len <= 5,
                total == pow3(len as nat),
                code <= total,
                domain@ == seq![-1isize, 0, 1],
                forall|c: nat|
                    c < code && #[trigger] is_code(len as nat, c) ==> exists|m: &mut [isize]|
                        {
                            &&& #[trigger] call_ensures(sort, (m,), ())
                            &&& m@ == small_seq(len as nat, c)
                            &&& is_sort_of(final(m)@, m@)
                        },
                forall|c: nat|
                    c < code && #[trigger] is_code(len as nat, c) ==> exists|m: &mut [isize]|
                        {
                            &&& #[trigger] call_ensures(sort, (m,), ())
                            &&& is_sort_of(m@, small_seq(len as nat, c))
                            &&& final(m)@ == m@
                        },
            decreases total - code,
        {
            let mut arr: Vec<isize> = Vec::new();
            let mut rest = code;
            let mut i: usize = 0;
            while i < len
                invariant
                    i <= len,
                    domain@ == seq![-1isize, 0, 1],
                    arr@.len() == i,
                    arr@ + small_seq((len - i) as nat, rest as nat) == small_seq(
                        len as nat,
                        code as nat,
                    ),
                decreases len - i,
            {
                let ghost built = arr@;
                let ghost tail = small_seq((len - i - 1) as nat, (rest / 3) as nat);
                proof {
                    assert(small_seq((len - i) as nat, rest as nat) == seq![
                        (rest % 3 - 1) as isize,
                    ] + tail);
                }
                arr.push(domain[rest % 3]);
                rest /= 3;
                i += 1;
                proof {
                    assert(arr@ + tail =~= built + (seq![arr@[i - 1]] + tail));
                }
            }
            proof {
                assert(arr@ + Seq::<isize>::empty() =~= arr@);
                lemma_small_seq_in_domain(len as nat, code as nat);
                lemma_small_domain_closed(arr@);
            }
            run_and_compare_full(sort, arr.as_mut_slice())?;
            code += 1;
        }
        proof {
            assert(pow3((len + 1) as nat) == 3 * pow3(len as nat));
            assert(len <= 5 ==> pow3(len as nat) <= 243) by {
                reveal_with_fuel(pow3, 7);
            }
            assert forall|l: nat, c: nat| l < len + 1 && #[trigger] is_code(l, c) implies exists|m: &mut [isize]|
                    {
                        &&& #[trigger] call_ensures(sort, (m,), ())
                        &&& m@ == small_seq(l, c)
                        &&& is_sort_of(final(m)@, m@)
                    } by {
                if l == len {
                    assert(c < code && is_code(len as nat, c));
                }
            }
            assert forall|l: nat, c: nat| l < len + 1 && #[trigger] is_code(l, c) implies exists|m: &mut [isize]|
                    {
                        &&& #[trigger] call_ensures(sort, (m,), ())
                        &&& is_sort_of(m@, small_seq(l, c))
                        &&& final(m)@ == m@
                    } by {
                if l == len {
                    assert(c < code && is_code(len as nat, c));
                }
            }
        }
        len += 1;
        total *= 3;
    }
    proof {
        assert forall|s: Seq<isize>| #[trigger] small_domain(s) implies exists|m: &mut [isize]|
                {
                    &&& #[trigger] call_ensures(sort, (m,), ())
                    &&& m@ == s
                    &&& is_sort_of(final(m)@, m@)
                } by {
            let c = lemma_small_seq_covers(s);
            assert(is_code(s.len(), c));
        }
        assert forall|s: Seq<isize>| #[trigger] small_domain(s) implies exists|m: &mut [isize]|
                {
                    &&& #[trigger] call_ensures(sort, (m,), ())
                    &&& is_sort_of(m@, s)
                    &&& final(m)@ == m@
                } by {
            let c = lemma_small_seq_covers(s);
            assert(is_code(s.len(), c));
        }
    }
    Ok(())
}

// ---- The whole battery ----

/// `s` is one of the sequences that `test_sort` has a candidate sort.
pub open spec fn in_battery(s: Seq<isize>) -> bool {
    ||| s == Seq::<isize>::empty()
    ||| s == seq![42isize]
    ||| s == seq![1isize, 2]
    ||| s == seq![2isize, 1]
    ||| s == seq![5isize, 5]
    ||| s == constant_seq(257, 7)
    ||| s == ascending_seq(128)
    ||| s == descending_seq(256)
    ||| s == cyclic_seq(512, 7)
    ||| s == negatives_seq()
    ||| s == extremes_seq()
    ||| s == transposed_seq(200, 50, 150)
    ||| exists|t: int| #[trigger] is_rotation(t) && s == rotated_seq(100, t)
    ||| s == zigzag_seq(100, 10_000)
    ||| s == pseudo_random_seq(97, 0xDEADBEEFCAFEBABEu64, 2000)
    ||| s == pseudo_random_seq(1024, 0x1234_5678_9ABC_DEF0u64, 50_000)
    ||| s == pseudo_random_seq(200, 0xBEEFu64, 500).subrange(50, 150)
    ||| s == pseudo_random_seq(200, 0xBEEFu64, 500).subrange(0, 200)
    ||| s == pseudo_random_seq(64, 0xA11CEu64, 100).subrange(0, 17)
    ||| s == pseudo_random_seq(64, 0xA11CEu64, 100).subrange(47, 64)
    ||| small_domain(s)
}

/// `s` is a sequence of the battery, or the sort of one: what `test_sort` runs
/// a candidate on.
pub open spec fn battery_tried(s: Seq<isize>) -> bool {
    exists|inp: Seq<isize>| in_battery(inp) && #[trigger] tried(s, inp)
}

/// What each scenario runs a candidate on, the battery runs it on.
pub proof fn lemma_battery_covers()
    ensures
        forall|s: Seq<isize>, inp: Seq<isize>|
            in_battery(inp) && #[trigger] tried(s, inp) ==> battery_tried(s),
        forall|s: Seq<isize>| #[trigger] rotation_tried(s) ==> battery_tried(s),
        forall|s: Seq<isize>| #[trigger] small_domain(s) ==> battery_tried(s),
        forall|t: int| #[trigger] is_rotation(t) ==> in_battery(rotated_seq(100, t)),
        small_domain(Seq::<isize>::empty()),
{
    assert forall|s: Seq<isize>| #[trigger] rotation_tried(s) implies battery_tried(s) by {
        let t = choose|t: int| is_rotation(t) && #[trigger] tried(s, rotated_seq(100, t));
        assert(in_battery(rotated_seq(100, t)));
    }
    assert forall|s: Seq<isize>| #[trigger] small_domain(s) implies battery_tried(s) by {
        assert(in_battery(s) && tried(s, s));
    }
}

/// Runs every scenario on the candidate `sort`, and stops at the first that
/// it fails. It returns `Ok` exactly for a candidate that is right on what the
/// battery runs it on: an `Err` comes with a run on a sequence of the battery,
/// or on the sort of one, that went wrong; `Ok` comes with a run on each
/// sequence of the battery that sorted it, and a run on the sorted sequence
/// that left it as it was.
pub fn test_sort<F: Fn(&mut [isize]) + Copy>(sort: F) -> (r: Result<(), Failure>)
    requires
        accepts_all(sort),
    ensures
        (forall|m: &mut [isize]|
            #[trigger] call_ensures(sort, (m,), ()) && (battery_tried(m@)) ==> is_sort_of(
                final(m)@,
                m@,
            )) ==> r is Ok,
        r is Err ==> exists|m: &mut [isize]|
            {
                &&& #[trigger] call_ensures(sort, (m,), ())
                &&& (battery_tried(m@))
                &&& !is_sort_of(final(m)@, m@)
            },
        r is Ok ==> forall|s: Seq<isize>|
            #[trigger] in_battery(s) ==> exists|m: &mut [isize]|
                {
                    &&& #[trigger] call_ensures(sort, (m,), ())
                    &&& m@ == s
                    &&& is_sort_of(final(m)@, m@)
                },
        r is Ok ==> forall|s: Seq<isize>|
            #[trigger] in_battery(s) ==> exists|m: &mut [isize]|
                {
                    &&& #[trigger] call_ensures(sort, (m,), ())
                    &&& is_sort_of(m@, s)
                    &&& final(m)@ == m@
                },
{
    proof {
        lemma_battery_covers();
    }
    // Basic edges
    test_empty(sort)?;
    test_singleton(sort)?;
    test_two_elements(sort)?;

    // Structure and duplicates
    test_all_same(sort)?;
    test_already_sorted(sort)?;
    test_reverse_order(sort)?;
    test_duplicates_dense(sort)?;

    // Value ranges
    test_negatives_and_mixed(sort)?;
    test_extreme_values(sort)?;

    // Arrangement patterns
    test_nearly_sorted_one_swap(sort)?;
    test_rotated_sorted(sort)?;
    test_zigzag_pattern(sort)?;

    // Random-ish
    test_randomish_small(sort)?;
    test_randomish_medium(sort)?;

    // Sub-slice behavior
    test_partial_subslice_middle(sort)?;
    test_partial_edges(sort)?;

    // Many small arrays over a tiny domain
    test_many_small_arrays(sort)?;
    proof {
        assert forall|s: Seq<isize>| #[trigger] in_battery(s) implies exists|m: &mut [isize]|
                {
                    &&& #[trigger] call_ensures(sort, (m,), ())
                    &&& m@ == s
                    &&& is_sort_of(final(m)@, m@)
                } by {
            if exists|t: int| #[trigger] is_rotation(t) && s == rotated_seq(100, t) {
                let t = choose|t: int| #[trigger] is_rotation(t) && s == rotated_seq(100, t);
                assert(is_rotation(t));
            }
        }
        assert forall|s: Seq<isize>| #[trigger] in_battery(s) implies exists|m: &mut [isize]|
                {
                    &&& #[trigger] call_ensures(sort, (m,), ())
                    &&& is_sort_of(m@, s)
                    &&& final(m)@ == m@
                } by {
            if exists|t: int| #[trigger] is_rotation(t) && s == rotated_seq(100, t) {
                let t = choose|t: int| #[trigger] is_rotation(t) && s == rotated_seq(100, t);
                assert(is_rotation(t));
            }
            if s == Seq::<isize>::empty() {
                assert(small_domain(s));
            }
        }
    }
    Ok(())
}

} // verus!
