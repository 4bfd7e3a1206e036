//! Recursive decimation-in-time transform.

use crate::power::{is_power_of_two, lemma_power_of_two_halves, lemma_power_of_two_log};
use crate::sample::{zeros, Sample};
use crate::transform::{combined, dit, evens, odds, twiddle};
use vstd::prelude::*;

verus! {

/// Radix-2 decimation in time, by recursion on the even-indexed and the
/// odd-indexed half of `arr`.
pub fn cooley_tukey_radix2_dit<S: Sample>(arr: &[S], exponent_sign_pos: bool) -> (y: Vec<S>)
    requires
        is_power_of_two(arr.len() as nat),
    ensures
        y@ == dit(arr@, exponent_sign_pos),
        y.len() == arr.len(),
    decreases arr.len(),
{
    let n = arr.len();
    proof {
        lemma_power_of_two_log(n as nat);
    }
    if 1 == n {
        let mut ret: Vec<S> = Vec::new();
        ret.push(arr[0]);
        assert(ret@ == arr@);
        ret
    } else {
        proof {
            lemma_power_of_two_halves(n as nat);
        }
        let half = n / 2;
        let w_base = S::root_of_unity(n, exponent_sign_pos);
        let mut w = S::one();
        let mut y_e: Vec<S> = zeros(half);
        let mut y_o: Vec<S> = zeros(half);
        let mut j: usize = 0;
        while j < half
            invariant
                j <= half,
                n == arr.len(),
                n == 2 * half,
                y_e.len() == half,
                y_o.len() == half,
                forall|k: int| 0 <= k < j ==> y_e@[k] == arr@[2 * k],
                forall|k: int| 0 <= k < j ==> y_o@[k] == arr@[2 * k + 1],
            decreases half - j,
        {
            y_e[j] = arr[j * 2];
            y_o[j] = arr[j * 2 + 1];
            j += 1;
        }
        assert(y_e@ == evens(arr@));
        assert(y_o@ == odds(arr@));
        let y_o_ret = cooley_tukey_radix2_dit(y_o.as_slice(), exponent_sign_pos);
        let y_e_ret = cooley_tukey_radix2_dit(y_e.as_slice(), exponent_sign_pos);
        let mut y: Vec<S> = zeros(n);
        let ghost want = combined(y_e_ret@, y_o_ret@, exponent_sign_pos);
        let mut j: usize = 0;
        while j < half
            invariant
                j <= half,
                n == 2 * half,
                y.len() == n,
                y_e_ret.len() == half,
                y_o_ret.len() == half,
                want == combined(y_e_ret@, y_o_ret@, exponent_sign_pos),
                w_base == S::principal_root(n, exponent_sign_pos),
                w == twiddle::<S>(n as nat, exponent_sign_pos, j as nat),
                forall|k: int| 0 <= k < j ==> y@[k] == want[k],
                forall|k: int| half <= k < half + j ==> y@[k] == want[k],
            decreases half - j,
        {
            y[j] = y_e_ret[j].plus(w.times(y_o_ret[j]));
            y[j + half] = y_e_ret[j].minus(w.times(y_o_ret[j]));
            w = w.times(w_base);
            j += 1;
        }
        assert(y@ =~= want);
        y
    }
}

} // verus!
