use vstd::prelude::*;

verus! {

/// The generator's state after one step from `seed`: three shifts, each
/// combined with the state by exclusive or, and a multiplication that wraps.
pub open spec fn next_state(seed: u64) -> u64 {
    let a = seed ^ (seed >> 12);
    let b = a ^ (a << 25);
    let c = b ^ (b >> 27);
    c.wrapping_mul(2_685_821_657_736_338_717)
}

/// The value that the generator gives in the state `state`, in
/// `-100_000..100_000`.
pub open spec fn value_of(state: u64) -> i32 {
    (state % 200_000 - 100_000) as i32
}

/// The `len` values that the generator gives from the state `seed`.
pub open spec fn pseudo_random_seq(len: nat, seed: u64) -> Seq<i32>
    decreases len,
{
    if len == 0 {
        Seq::empty()
    } else {
        seq![value_of(next_state(seed))] + pseudo_random_seq((len - 1) as nat, next_state(seed))
    }
}

/// `len` pseudo-random integers in `-100_000..100_000` to time a sort on, the
/// same for the same `seed` on every run.
pub fn pseudo_random_vec(len: usize, seed: u64) -> (out: Vec<i32>)
    ensures
        out@ == pseudo_random_seq(len as nat, seed),
        out@.len() == len,
        forall|i: int| 0 <= i < len ==> -100_000 <= #[trigger] out@[i] < 100_000,
{
    let mut seed = seed;
    let mut out: Vec<i32> = Vec::with_capacity(len);
    let ghost first = seed;
    let mut i: usize = 0;
    while i < len
        invariant
            i <= len,
            out@.len() == i,
            out@ + pseudo_random_seq((len - i) as nat, seed) == pseudo_random_seq(len as nat, first),
            forall|k: int| 0 <= k < i ==> -100_000 <= #[trigger] out@[k] < 100_000,
        decreases len - i,
    {
        let ghost prev = seed;
        let ghost built = out@;
        seed ^= seed >> 12;
        seed ^= seed << 25;
        seed ^= seed >> 27;
        seed = seed.wrapping_mul(2_685_821_657_736_338_717);
        let value = (seed % 200_000) as i64 - 100_000;
        out.push(value as i32);
        proof {
            let rest = pseudo_random_seq((len - i - 1) as nat, seed);
            assert(seed == next_state(prev));
            assert(pseudo_random_seq((len - i) as nat, prev) == seq![value_of(seed)] + rest);
            assert(out@ + rest =~= built + (seq![value_of(seed)] + rest));
        }
        i += 1;
    }
    proof {
        assert(out@ + Seq::<i32>::empty() =~= out@);
    }
    out
}

} // verus!
