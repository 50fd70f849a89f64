//! Classical bits and the bit addressing of basis states.
use vstd::arithmetic::power2::pow2;
use vstd::prelude::*;

verus! {

/// Classical bit with two possible values (ZERO and ONE).
#[derive(Debug, Clone, Copy, PartialEq, Eq, Structural)]
pub enum Bit {
    ZERO,
    ONE,
}

/// The value of bit `k` of the basis-state index `i`: whether qubit `k`
/// reads one in basis state `i`.
pub open spec fn bit_of(i: nat, k: nat) -> bool {
    (i / pow2(k)) % 2 == 1
}

/// The bit that a boolean stands for.
pub open spec fn bit_from_bool(b: bool) -> Bit {
    if b {
        Bit::ONE
    } else {
        Bit::ZERO
    }
}

impl From<bool> for Bit {
    fn from(value: bool) -> (r: Self)
        ensures
            r == bit_from_bool(value),
    {
        if value {
            Bit::ONE
        } else {
            Bit::ZERO
        }
    }
}

impl vstd::std_specs::convert::FromSpecImpl<bool> for Bit {
    open spec fn obeys_from_spec() -> bool {
        true
    }

    open spec fn from_spec(v: bool) -> Self {
        bit_from_bool(v)
    }
}

/// Whether qubit `k` reads one in basis state `i`.
pub fn bit_at(i: usize, k: u16) -> (r: bool)
    requires
        (k as u32) < usize::BITS,
    ensures
        r == bit_of(i as nat, k as nat),
{
    let shift = k as usize;
    proof {
        vstd::bits::lemma_usize_shr_is_div(i, shift);
    }
    (i >> shift) % 2 == 1
}

} // verus!
