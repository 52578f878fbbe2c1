//! A catalog of gates: which matrix a gate stands for, and on how many qubits
//! it acts.
//!
//! A matrix for `k` operands has `2^k` rows and columns. Row and column
//! numbers are coset-local numbers: the first operand is the most significant
//! binary digit. For the controlled not, the first operand is the control and
//! the second the target.

use crate::coset::{exponent_of, is_pow2, log2, pow2};
use crate::error::ExecError;
use crate::matrix::{ComplexDoubleMatrix, Matrix};
use crate::scalar::{amp_inv, amp_of_ints, amp_real_sqrt};
use crate::scalar::{complex_inv, complex_of_ints, complex_product, real_sqrt};
use crate::scalar::{minus_one, one, zero};
use num_complex::Complex64;
use vstd::prelude::*;

verus! {

/// The gates that can be named.
pub enum GateType {
    /// Identity: the register passes through untouched.
    I,
    /// Pauli X.
    X,
    /// Pauli Y. It is in no catalog yet.
    Y,
    /// Pauli Z.
    Z,
    /// Hadamard.
    H,
    /// Controlled not; operands are control, then target.
    CNot,
    /// A matrix supplied by the caller.
    U(ComplexDoubleMatrix),
}

/// A gate together with the qubits it acts on.
pub struct QuantumOper {
    pub operand: Vec<u32>,
    pub oper_type: GateType,
}

/// The factor of the Hadamard matrix: the reciprocal of the square root of
/// two.
pub open spec fn hadamard_scale() -> Complex64 {
    complex_inv(real_sqrt(complex_of_ints(2, 0)))
}

/// A square, well-formed matrix whose side is a power of two.
pub open spec fn is_gate_matrix(m: ComplexDoubleMatrix) -> bool {
    m.wf() && m.rows() == m.cols() && is_pow2(m.rows() as nat)
}

/// A matrix of the given side whose data has the square of that many
/// entries is well formed.
proof fn lemma_square_shape(m: ComplexDoubleMatrix, side: int)
    requires
        m.rows() == side,
        m.cols() == side,
        m.data@.len() == side * side,
    ensures
        m.wf(),
{
}

impl GateType {
    /// The number of operands this gate takes.
    pub open spec fn arity(&self) -> nat {
        match self {
            GateType::CNot => 2,
            GateType::U(m) => log2(m.rows() as nat),
            _ => 1,
        }
    }

    /// A caller's matrix must be a gate matrix; the named gates always are
    /// proper.
    pub open spec fn proper(&self) -> bool {
        match self {
            GateType::U(m) => is_gate_matrix(*m),
            _ => true,
        }
    }

    /// The entries of this gate's matrix in column-major order. The identity
    /// has none because it is never multiplied; Pauli Y has none because it
    /// is not supported.
    pub open spec fn catalog(&self) -> Option<Seq<Complex64>> {
        match self {
            GateType::I => None,
            GateType::Y => None,
            GateType::X => Some(seq![zero(), one(), one(), zero()]),
            GateType::Z => Some(seq![one(), zero(), zero(), minus_one()]),
            GateType::H => Some(
                seq![
                    complex_product(hadamard_scale(), one()),
                    complex_product(hadamard_scale(), one()),
                    complex_product(hadamard_scale(), one()),
                    complex_product(hadamard_scale(), minus_one()),
                ],
            ),
            GateType::CNot => Some(
                seq![
                    one(),
                    zero(),
                    zero(),
                    zero(),
                    zero(),
                    one(),
                    zero(),
                    zero(),
                    zero(),
                    zero(),
                    zero(),
                    one(),
                    zero(),
                    zero(),
                    one(),
                    zero(),
                ],
            ),
            GateType::U(m) => Some(m.data@),
        }
    }

    /// The number of operands this gate takes. Fails with `DimensionMismatch`
    /// exactly when a caller's matrix is no gate matrix.
    pub fn checked_arity(&self) -> (r: Result<u32, ExecError>)
        ensures
            match r {
                Ok(k) => self.proper() && k == self.arity() && k <= 31,
                Err(e) => e == ExecError::DimensionMismatch && !self.proper(),
            },
    {
        match self {
            GateType::CNot => Ok(2),
            GateType::U(m) => {
                if !m.well_formed() || m.size[0] != m.size[1] {
                    return Err(ExecError::DimensionMismatch);
                }
                match exponent_of(m.size[0]) {
                    Some(k) => Ok(k),
                    None => Err(ExecError::DimensionMismatch),
                }
            },
            _ => Ok(1),
        }
    }

    /// The matrix of this gate: none for the identity, the supplied matrix for
    /// a caller's gate, the catalog entry otherwise. Fails with
    /// `UnsupportedGate` exactly for Pauli Y.
    pub fn matrix(self) -> (r: Result<Option<ComplexDoubleMatrix>, ExecError>)
        ensures
            match r {
                Ok(Some(m)) => self.catalog() == Some(m.data@) && (self.proper() ==> is_gate_matrix(
                    m,
                ) && m.rows() == pow2(self.arity())) && (self matches GateType::U(u) ==> m == u),
                Ok(None) => self is I,
                Err(e) => e == ExecError::UnsupportedGate && self is Y,
            },
    {
        proof {
            reveal_with_fuel(log2, 4);
            reveal_with_fuel(pow2, 4);
        }
        let o: Complex64 = amp_of_ints(0, 0);
        let i: Complex64 = amp_of_ints(1, 0);
        match self {
            GateType::I => Ok(None),
            GateType::Y => Err(ExecError::UnsupportedGate),
            GateType::X => {
                let mut d: Vec<Complex64> = Vec::new();
                d.push(o);
                d.push(i);
                d.push(i);
                d.push(o);
                assert(d@ =~= seq![zero(), one(), one(), zero()]);
                let x = ComplexDoubleMatrix { size: [2, 2], data: d };
                proof {
                    lemma_square_shape(x, 2);
                }
                Ok(Some(x))
            },
            GateType::Z => {
                let mut d: Vec<Complex64> = Vec::new();
                d.push(i);
                d.push(o);
                d.push(o);
                d.push(amp_of_ints(-1, 0));
                assert(d@ =~= seq![one(), zero(), zero(), minus_one()]);
                let z = ComplexDoubleMatrix { size: [2, 2], data: d };
                proof {
                    lemma_square_shape(z, 2);
                }
                Ok(Some(z))
            },
            GateType::H => {
                let mut d: Vec<Complex64> = Vec::new();
                d.push(i);
                d.push(i);
                d.push(i);
                d.push(amp_of_ints(-1, 0));
                let signs = ComplexDoubleMatrix { size: [2, 2], data: d };
                let h = signs.scalmul(amp_inv(amp_real_sqrt(amp_of_ints(2, 0))));
                assert(h.data@ =~= self.catalog().unwrap());
                proof {
                    lemma_square_shape(h, 2);
                }
                Ok(Some(h))
            },
            GateType::CNot => {
                let mut d: Vec<Complex64> = Vec::new();
                d.push(i);
                d.push(o);
                d.push(o);
                d.push(o);
                d.push(o);
                d.push(i);
                d.push(o);
                d.push(o);
                d.push(o);
                d.push(o);
                d.push(o);
                d.push(i);
                d.push(o);
                d.push(o);
                d.push(i);
                d.push(o);
                assert(d@ =~= self.catalog().unwrap());
                let cnot = ComplexDoubleMatrix { size: [4, 4], data: d };
                proof {
                    lemma_square_shape(cnot, 4);
                }
                Ok(Some(cnot))
            },
            GateType::U(m) => {
                proof {
                    if is_gate_matrix(m) {
                        assert(m.rows() == pow2(log2(m.rows() as nat)));
                    }
                }
                Ok(Some(m))
            },
        }
    }
}

} // verus!
