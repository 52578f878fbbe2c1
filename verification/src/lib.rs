//! A dense state-vector simulator for small quantum registers.
//!
//! A register of `n` qubits is a column of `2^n` complex amplitudes. Index `i`
//! of the column is the basis state in which qubit `q` has the value of bit
//! `q` of `i`. Gates act on chosen operand qubits; a measurement collapses the
//! register onto one value of a single qubit and drops that qubit.
//!
//! Amplitudes are `num_complex::Complex64` values. Their arithmetic is not
//! modelled: every contract speaks of sums and products through the names in
//! [`scalar`], and everything else (index arithmetic, shapes, the order in
//! which amplitudes are combined) is proved.

pub mod coset;
pub mod engine;
pub mod error;
pub mod gate;
pub mod matrix;
pub mod scalar;
