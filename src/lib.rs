//! A state-vector simulator of a register of qubits: amplitudes addressed
//! by basis-state index, tensor-pair enumeration over one qubit's bit, and
//! qubit handles that share one lock on their register.
pub mod bit;
pub mod measure;
pub mod qubit;
pub mod register;
pub mod tensor_iter;

pub use bit::Bit;
pub use qubit::Qubit;
pub use register::Register;
pub use tensor_iter::{TensorIter, TensorIterMut};
