//! The part of a measurement that does not depend on the amplitudes'
//! arithmetic: which basis states survive an outcome.
use crate::bit::{bit_at, bit_of};
use vstd::prelude::*;

verus! {

/// Every basis state in which qubit `index` does not read `outcome` holds
/// `zero`: measuring qubit `index` of such a state can only give `outcome`.
pub open spec fn collapsed<A>(amp: Seq<A>, index: nat, outcome: bool, zero: A) -> bool {
    forall|i: int|
        0 <= i < amp.len() && bit_of(i as nat, index) != outcome ==> #[trigger] amp[i] == zero
}

/// A basis state, `zero` everywhere but at index `i`, is already collapsed
/// onto bit `k` of `i` for every qubit `k`: the other outcome holds no
/// amplitude, so measuring qubit `k` can only give bit `k` of `i`.
pub proof fn lemma_basis_state_collapsed<A>(amp: Seq<A>, i: nat, k: nat, zero: A)
    requires
        forall|j: int| 0 <= j < amp.len() && j != i ==> #[trigger] amp[j] == zero,
    ensures
        collapsed(amp, k, bit_of(i, k), zero),
{
}

/// Correlated qubits give correlated outcomes. Say that in every basis state
/// of `before` that holds an amplitude other than `zero`, qubits `j` and `k`
/// read equal values (or, with `opposite`, different ones). Collapsing qubit
/// `k` onto `outcome` in a way that keeps `zero` amplitudes `zero` gives a
/// state `after` that is collapsed for qubit `j` too: onto `outcome`, or
/// with `opposite` onto the other value.
pub proof fn lemma_correlated_outcomes<A>(
    before: Seq<A>,
    after: Seq<A>,
    j: nat,
    k: nat,
    outcome: bool,
    opposite: bool,
    zero: A,
)
    requires
        after.len() == before.len(),
        forall|i: int|
            0 <= i < before.len() && #[trigger] before[i] != zero ==> (bit_of(i as nat, j)
                == bit_of(i as nat, k)) != opposite,
        forall|i: int| 0 <= i < before.len() && before[i] == zero ==> #[trigger] after[i] == zero,
        collapsed(after, k, outcome, zero),
    ensures
        collapsed(after, j, outcome != opposite, zero),
{
    assert forall|i: int|
        0 <= i < after.len() && bit_of(i as nat, j) != (outcome != opposite) implies #[trigger] after[i]
        == zero by {
        if bit_of(i as nat, k) == outcome && before[i] != zero {
            assert((bit_of(i as nat, j) == bit_of(i as nat, k)) != opposite);
        }
    }
}

/// Collapses `amp` onto the basis states in which qubit `index` reads
/// `outcome`: each of their amplitudes is replaced by `rescale` of it, and
/// every other amplitude by `zero`.
pub fn project<A: Copy, F: Fn(A) -> A>(
    amp: &mut [A],
    index: u16,
    outcome: bool,
    zero: A,
    rescale: F,
)
    requires
        (index as u32) < usize::BITS,
        forall|a: A| #[trigger] rescale.requires((a,)),
    ensures
        final(amp)@.len() == old(amp)@.len(),
        collapsed(final(amp)@, index as nat, outcome, zero),
        forall|i: int|
            0 <= i < old(amp)@.len() ==> if bit_of(i as nat, index as nat) == outcome {
                rescale.ensures((old(amp)@[i],), final(amp)@[i])
            } else {
                final(amp)@[i] == zero
            },
{
    let n = amp.len();
    let mut i: usize = 0;
    while i < n
        invariant
            n == old(amp)@.len(),
            amp@.len() == n,
            i <= n,
            (index as u32) < usize::BITS,
            forall|a: A| #[trigger] rescale.requires((a,)),
            forall|j: int| i <= j < n ==> amp@[j] == old(amp)@[j],
            forall|j: int|
                0 <= j < i ==> if bit_of(j as nat, index as nat) == outcome {
                    rescale.ensures((old(amp)@[j],), amp@[j])
                } else {
                    amp@[j] == zero
                },
        decreases n - i,
    {
        if bit_at(i, index) == outcome {
            let a = rescale(amp[i]);
            amp[i] = a;
        } else {
            amp[i] = zero;
        }
        i += 1;
    }
}

} // verus!
