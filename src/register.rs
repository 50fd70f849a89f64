//! The register: the amplitude of every basis state of its qubits, and the
//! seeded random source that measurements draw from.
use crate::qubit::Qubit;
use rand_chacha::rand_core::SeedableRng;
use rand_chacha::ChaCha8Rng;
use vstd::arithmetic::power2::pow2;
use vstd::prelude::*;

verus! {

#[verifier::external_type_specification]
#[verifier::external_body]
pub struct ExChaCha8Rng(ChaCha8Rng);

/// Relies on rand_core's `SeedableRng::seed_from_u64` for `ChaCha8Rng`: a
/// generator whose whole stream is fixed by `seed`.
#[verifier::external_body]
fn seeded_rng(seed: u64) -> ChaCha8Rng {
    ChaCha8Rng::seed_from_u64(seed)
}

/// `2^n` as a machine integer.
fn pow2_usize(n: u16) -> (r: usize)
    requires
        (n as u32) < usize::BITS,
    ensures
        r == pow2(n as nat),
{
    let shift = n as usize;
    proof {
        vstd::bits::lemma_usize_pow2_no_overflow(n as nat);
        vstd::bits::lemma_usize_shl_is_mul(1, shift);
    }
    1usize << shift
}

/// A register of `num_qubits` qubits. Amplitude `i` belongs to the basis
/// state whose bit `k` is the value of qubit `k`.
pub struct Register<A> {
    rng: ChaCha8Rng,
    num_qubits: u16,
    amp: Vec<A>,
}

impl<A> Register<A> {
    /// The number of qubits.
    pub closed spec fn qubit_count(&self) -> nat {
        self.num_qubits as nat
    }

    /// The amplitudes, indexed by basis state.
    pub closed spec fn amplitudes(&self) -> Seq<A> {
        self.amp@
    }

    /// The random source that measurements draw from.
    pub closed spec fn random_source(&self) -> ChaCha8Rng {
        self.rng
    }

    /// A register of `num_qubits` qubits in the basis state zero: the
    /// amplitude of state 0 is `one`, every other one is `zero`. Its random
    /// source is seeded with `seed`.
    pub fn new(num_qubits: u16, seed: u64, zero: A, one: A) -> (r: Self) where A: Copy
        requires
            num_qubits >= 1,
            (num_qubits as u32) < usize::BITS,
        ensures
            r.qubit_count() == num_qubits,
            r.amplitudes().len() == pow2(num_qubits as nat),
            r.amplitudes()[0] == one,
            forall|i: int| 0 < i < r.amplitudes().len() ==> r.amplitudes()[i] == zero,
    {
        let len = pow2_usize(num_qubits);
        proof {
            vstd::arithmetic::power2::lemma_pow2_pos(num_qubits as nat);
        }
        let mut amp: Vec<A> = Vec::with_capacity(len);
        amp.push(one);
        while amp.len() < len
            invariant
                1 <= amp@.len() <= len,
                amp@[0] == one,
                forall|i: int| 0 < i < amp@.len() ==> amp@[i] == zero,
            decreases len - amp@.len(),
        {
            amp.push(zero);
        }
        Register { rng: seeded_rng(seed), num_qubits, amp }
    }

    /// The number of qubits.
    pub fn num_qubits(&self) -> (r: u16)
        ensures
            r == self.qubit_count(),
    {
        self.num_qubits
    }

    /// The amplitudes of the basis states.
    pub fn as_slice(&self) -> (r: &[A])
        ensures
            r@ == self.amplitudes(),
    {
        self.amp.as_slice()
    }

    /// Write access to the amplitudes of the basis states.
    pub fn as_mut_slice(&mut self) -> (r: &mut [A])
        ensures
            r@ == old(self).amplitudes(),
            final(r)@ == final(self).amplitudes(),
            final(self).qubit_count() == old(self).qubit_count(),
            final(self).random_source() == old(self).random_source(),
    {
        self.amp.as_mut_slice()
    }

    /// The amplitudes and the random source at once, for the handles' lock.
    pub(crate) fn state_mut(&mut self) -> (r: (&mut [A], &mut ChaCha8Rng))
        ensures
            r.0@ == old(self).amplitudes(),
            *r.1 == old(self).random_source(),
            final(r.0)@ == final(self).amplitudes(),
            *final(r.1) == final(self).random_source(),
            final(self).qubit_count() == old(self).qubit_count(),
    {
        (self.amp.as_mut_slice(), &mut self.rng)
    }

    /// A handle on qubit `index`, or `None` when `index >= num_qubits()`.
    pub fn qubit(&mut self, index: u16) -> (r: Option<Qubit<'_, A>>)
        ensures
            r is Some <==> index < old(self).qubit_count(),
            final(self).qubit_count() == old(self).qubit_count(),
            r is None ==> *final(self) == *old(self),
            r is Some ==> {
                &&& r.unwrap().wf()
                &&& r.unwrap().bit_position() == index
                &&& r.unwrap().register_size() == old(self).qubit_count()
                &&& r.unwrap().amplitude_count() == old(self).amplitudes().len()
            },
    {
        Qubit::new(self, index)
    }

    /// Handles on qubits `index1` and `index2` that share one lock, or
    /// `None` when an index is out of range or the two are equal.
    pub fn qubit_pair(&mut self, index1: u16, index2: u16) -> (r: Option<(Qubit<'_, A>, Qubit<'_, A>)>)
        ensures
            r is Some <==> (index1 < old(self).qubit_count() && index2 < old(self).qubit_count()
                && index1 != index2),
            final(self).qubit_count() == old(self).qubit_count(),
            r is None ==> *final(self) == *old(self),
            r is Some ==> {
                &&& r.unwrap().0.wf()
                &&& r.unwrap().1.wf()
                &&& r.unwrap().0.shares_lock_with(&r.unwrap().1)
                &&& r.unwrap().0.lock_address() == r.unwrap().1.lock_address()
                &&& r.unwrap().0.bit_position() == index1
                &&& r.unwrap().1.bit_position() == index2
                &&& r.unwrap().0.register_size() == old(self).qubit_count()
                &&& r.unwrap().1.register_size() == old(self).qubit_count()
                &&& r.unwrap().0.amplitude_count() == old(self).amplitudes().len()
                &&& r.unwrap().1.amplitude_count() == old(self).amplitudes().len()
            },
    {
        Qubit::new_pair(self, index1, index2)
    }

    /// Handles on all qubits, in order of position, sharing one lock.
    pub fn qubit_iter(&mut self) -> (r: Vec<Qubit<'_, A>>)
        ensures
            r@.len() == old(self).qubit_count(),
            final(self).qubit_count() == old(self).qubit_count(),
            forall|i: int|
                0 <= i < r@.len() ==> {
                    &&& r@[i].wf()
                    &&& r@[i].bit_position() == i
                    &&& r@[i].register_size() == old(self).qubit_count()
                    &&& r@[i].amplitude_count() == old(self).amplitudes().len()
                },
            forall|i: int, j: int|
                0 <= i < r@.len() && 0 <= j < r@.len() ==> #[trigger] r@[i].shares_lock_with(
                    &r@[j],
                ),
            forall|i: int|
                0 <= i < r@.len() ==> #[trigger] r@[i].lock_address() == r@[0].lock_address(),
    {
        Qubit::new_iter(self)
    }
}

} // verus!
