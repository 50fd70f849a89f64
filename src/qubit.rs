//! Qubit handles: a bit position and a shared lock on the register, so that
//! handles on one register can be measured from different threads.
use crate::register::Register;
use rand_chacha::ChaCha8Rng;
use std::sync::Arc;
use vstd::prelude::*;
use vstd::rwlock::RwLock;

verus! {

/// What the handles' lock guards: the register's amplitudes and its random
/// source.
type State<'a, A> = (&'a mut [A], &'a mut ChaCha8Rng);

/// The lock that the handles made together share. What it guards keeps the
/// number of amplitudes it was made with.
type RegisterLock<'a, A> = RwLock<State<'a, A>, spec_fn(State<'a, A>) -> bool>;

/// Relies on `Arc::clone`: a second pointer to the same allocation, so the
/// same value.
#[verifier::external_body]
fn share<T>(a: &Arc<T>) -> (r: Arc<T>)
    ensures
        *r == **a,
{
    Arc::clone(a)
}

/// Relies on `Arc::as_ptr`: the address of the allocation that `a` points
/// to. Nothing is promised of its value; while a pointer to the allocation
/// is alive, no other allocation has that address.
#[verifier::external_body]
fn address_of<T>(a: &Arc<T>) -> usize {
    Arc::as_ptr(a) as usize
}

/// A handle on qubit `index` of a register.
#[verifier::reject_recursive_types(A)]
pub struct Qubit<'a, A> {
    stm: Arc<RegisterLock<'a, A>>,
    index: u16,
    num_qubits: u16,
    len: usize,
    lock_address: usize,
}

impl<'a, A> Qubit<'a, A> {
    /// The bit position that this handle addresses.
    pub closed spec fn bit_position(&self) -> nat {
        self.index as nat
    }

    /// The number of qubits of the register.
    pub closed spec fn register_size(&self) -> nat {
        self.num_qubits as nat
    }

    /// The number of amplitudes of the register.
    pub closed spec fn amplitude_count(&self) -> nat {
        self.len as nat
    }

    /// The address of the lock, taken when the handle was made. Handles made
    /// together hold one lock and have one address; as every handle keeps
    /// its lock alive, handles with different locks have different addresses.
    pub closed spec fn lock_address(&self) -> usize {
        self.lock_address
    }

    /// Whether the two handles hold equal locks. Handles made together hold
    /// one lock, so this holds of them.
    pub closed spec fn shares_lock_with(&self, other: &Self) -> bool {
        *self.stm == *other.stm
    }

    /// The handle addresses a qubit of its register, and its lock guards
    /// `amplitude_count()` amplitudes.
    pub closed spec fn wf(&self) -> bool {
        &&& self.index < self.num_qubits
        &&& forall|s: State<'a, A>| #[trigger] self.stm.inv(s) <==> s.0@.len() == self.len
    }

    /// A lock on the amplitudes and random source of `stm`, and the number
    /// of amplitudes. The register keeps its number of qubits.
    fn lock(stm: &'a mut Register<A>) -> (r: (Arc<RegisterLock<'a, A>>, usize))
        ensures
            r.1 == old(stm).amplitudes().len(),
            forall|s: State<'a, A>| #[trigger] r.0.inv(s) <==> s.0@.len() == r.1,
            final(stm).qubit_count() == old(stm).qubit_count(),
    {
        let (amp, rng) = stm.state_mut();
        let len = amp.len();
        let pred = Ghost(|s: State<'a, A>| s.0@.len() == len);
        (Arc::new(RwLock::new((amp, rng), pred)), len)
    }

    /// A handle on qubit `index` of `stm`, or `None` when
    /// `index >= stm.num_qubits()`. The register keeps its number of qubits;
    /// when no handle is made it is left as it was.
    pub fn new(stm: &'a mut Register<A>, index: u16) -> (r: Option<Qubit<'a, A>>)
        ensures
            r is Some <==> index < old(stm).qubit_count(),
            final(stm).qubit_count() == old(stm).qubit_count(),
            r is None ==> *final(stm) == *old(stm),
            r is Some ==> {
                &&& r.unwrap().wf()
                &&& r.unwrap().bit_position() == index
                &&& r.unwrap().register_size() == old(stm).qubit_count()
                &&& r.unwrap().amplitude_count() == old(stm).amplitudes().len()
            },
    {
        let num_qubits = stm.num_qubits();
        if index >= num_qubits {
            None
        } else {
            let (lock, len) = Self::lock(stm);
            let lock_address = address_of(&lock);
            Some(Qubit { stm: lock, index, num_qubits, len, lock_address })
        }
    }

    /// Handles on qubits `index1` and `index2` of `stm` that share one lock,
    /// or `None` when an index is out of range or the two are equal. The
    /// register keeps its number of qubits; when no handle is made it is
    /// left as it was.
    pub fn new_pair(stm: &'a mut Register<A>, index1: u16, index2: u16) -> (r: Option<
        (Qubit<'a, A>, Qubit<'a, A>),
    >)
        ensures
            r is Some <==> (index1 < old(stm).qubit_count() && index2 < old(stm).qubit_count()
                && index1 != index2),
            final(stm).qubit_count() == old(stm).qubit_count(),
            r is None ==> *final(stm) == *old(stm),
            r is Some ==> {
                &&& r.unwrap().0.wf()
                &&& r.unwrap().1.wf()
                &&& r.unwrap().0.shares_lock_with(&r.unwrap().1)
                &&& r.unwrap().0.lock_address() == r.unwrap().1.lock_address()
                &&& r.unwrap().0.bit_position() == index1
                &&& r.unwrap().1.bit_position() == index2
                &&& r.unwrap().0.register_size() == old(stm).qubit_count()
                &&& r.unwrap().1.register_size() == old(stm).qubit_count()
                &&& r.unwrap().0.amplitude_count() == old(stm).amplitudes().len()
                &&& r.unwrap().1.amplitude_count() == old(stm).amplitudes().len()
            },
    {
        let num_qubits = stm.num_qubits();
        if index1 >= num_qubits || index2 >= num_qubits || index1 == index2 {
            return None;
        }
        let (lock, len) = Self::lock(stm);
        let lock_address = address_of(&lock);
        let qb1 = Qubit { stm: share(&lock), index: index1, num_qubits, len, lock_address };
        let qb2 = Qubit { stm: lock, index: index2, num_qubits, len, lock_address };
        Some((qb1, qb2))
    }

    /// Handles on all qubits of `stm`, in order of position, sharing one
    /// lock. The register keeps its number of qubits.
    pub fn new_iter(stm: &'a mut Register<A>) -> (r: Vec<Qubit<'a, A>>)
        ensures
            r@.len() == old(stm).qubit_count(),
            final(stm).qubit_count() == old(stm).qubit_count(),
            forall|i: int|
                0 <= i < r@.len() ==> {
                    &&& r@[i].wf()
                    &&& r@[i].bit_position() == i
                    &&& r@[i].register_size() == old(stm).qubit_count()
                    &&& r@[i].amplitude_count() == old(stm).amplitudes().len()
                },
            forall|i: int, j: int|
                0 <= i < r@.len() && 0 <= j < r@.len() ==> #[trigger] r@[i].shares_lock_with(
                    &r@[j],
                ),
            forall|i: int|
                0 <= i < r@.len() ==> #[trigger] r@[i].lock_address() == r@[0].lock_address(),
    {
        let num_qubits = stm.num_qubits();
        let (lock, len) = Self::lock(stm);
        let lock_address = address_of(&lock);
        let mut qubits: Vec<Qubit<'a, A>> = Vec::new();
        let mut i: u16 = 0;
        while i < num_qubits
            invariant
                i <= num_qubits,
                num_qubits == old(stm).qubit_count(),
                len == old(stm).amplitudes().len(),
                forall|s: State<'a, A>| #[trigger] lock.inv(s) <==> s.0@.len() == len,
                qubits@.len() == i,
                forall|j: int| 0 <= j < i ==> *(#[trigger] qubits@[j]).stm == *lock,
                forall|j: int| 0 <= j < i ==> (#[trigger] qubits@[j]).lock_address == lock_address,
                forall|j: int|
                    0 <= j < i ==> {
                        &&& qubits@[j].wf()
                        &&& qubits@[j].bit_position() == j
                        &&& qubits@[j].register_size() == num_qubits
                        &&& qubits@[j].amplitude_count() == len
                    },
            decreases num_qubits - i,
        {
            qubits.push(Qubit { stm: share(&lock), index: i, num_qubits, len, lock_address });
            i += 1;
        }
        qubits
    }

    /// The bit position that this handle addresses.
    pub fn index(&self) -> (r: u16)
        ensures
            r == self.bit_position(),
    {
        self.index
    }

    /// Whether `other_qubit` shares this handle's lock: whether the two were
    /// made together, by one call of `new_pair`, `new_iter` or their
    /// register counterparts.
    pub fn is_from_same_stm(&self, other_qubit: &Qubit<'a, A>) -> (r: bool)
        ensures
            r == (self.lock_address() == other_qubit.lock_address()),
    {
        self.lock_address == other_qubit.lock_address
    }

    /// Runs `f` on the register's amplitudes (all `amplitude_count()` of
    /// them) and random source while holding the lock that this handle
    /// shares with its siblings, and returns what `f` returns. `f` also
    /// receives this handle's bit position and the number of qubits. Sibling
    /// handles wait until `f` has returned; should `f` panic, they wait for
    /// good rather than see a half-changed register.
    pub fn with_state<R, F>(&self, f: F) -> (r: R) where
        F: FnOnce(&mut [A], &mut ChaCha8Rng, u16, u16) -> R,
        requires
            self.wf(),
            forall|amp: &mut [A], rng: &mut ChaCha8Rng, i: u16, n: u16|
                amp@.len() == self.amplitude_count() && i == self.bit_position() && n
                    == self.register_size() ==> #[trigger] f.requires((amp, rng, i, n)),
        ensures
            exists|amp: &mut [A], rng: &mut ChaCha8Rng, i: u16, n: u16|
                amp@.len() == self.amplitude_count() && i == self.bit_position() && n
                    == self.register_size() && #[trigger] f.ensures((amp, rng, i, n), r),
    {
        let (state, handle) = self.stm.acquire_write();
        let (amp, rng) = state;
        let r = f(&mut *amp, &mut *rng, self.index, self.num_qubits);
        // A slice keeps its length, so the lock is released on every run.
        if amp.len() == self.len {
            handle.release_write((amp, rng));
        }
        r
    }
}

} // verus!
