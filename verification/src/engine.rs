//! The execution engine: gate application and measurement on a register.

use crate::coset::{all_below, all_distinct, coset_members, exponent_of, gather, mask_of, scatter};
use crate::coset::{coset_base, coset_member, is_pow2, local_index, log2, operand_mask, pow2};
use crate::coset::{operands_below, operands_distinct};
use crate::coset::{bit, lemma_bit_is_digit};
use crate::coset::{lemma_base_properties, lemma_bit_is_pow2, lemma_local_bound, lemma_member_base};
use crate::coset::{lemma_member_in_register, lemma_member_local, lemma_member_roundtrip};
use crate::coset::{lemma_log2_pow2, lemma_pow2_adds, lemma_pow2_positive};
use crate::error::ExecError;
use crate::gate::{is_gate_matrix, QuantumOper};
use crate::matrix::{dot, lemma_split, self_dot, ComplexDoubleMatrix, Matrix};
use crate::scalar::{amp_eq, amp_inv, amp_of_ints, amp_real_sqrt};
use crate::scalar::{complex_equal, complex_inv, complex_product, real_sqrt, zero};
use num_complex::Complex64;
use vstd::arithmetic::div_mod::{lemma_div_denominator, lemma_fundamental_div_mod};
use vstd::arithmetic::div_mod::lemma_fundamental_div_mod_converse;
use vstd::prelude::*;

verus! {

/// A register: one column whose length is a power of two.
pub open spec fn is_register(m: ComplexDoubleMatrix) -> bool {
    m.wf() && m.cols() == 1 && is_pow2(m.rows() as nat)
}

/// The number of qubits of a register.
pub open spec fn qubits(m: ComplexDoubleMatrix) -> nat {
    log2(m.rows() as nat)
}

/// Why a gate application is rejected, if it is. The checks come in this
/// order: the register, a caller's matrix, the number of operands, their
/// range, their distinctness, and last whether a matrix exists for this gate at all.
pub open spec fn apply_error(state: ComplexDoubleMatrix, oper: QuantumOper) -> Option<ExecError> {
    if !is_register(state) {
        Some(ExecError::DimensionMismatch)
    } else if !oper.oper_type.proper() {
        Some(ExecError::DimensionMismatch)
    } else if oper.operand@.len() != oper.oper_type.arity() {
        Some(ExecError::InvalidArity)
    } else if !operands_below(oper.operand@, qubits(state)) {
        Some(ExecError::OperandOutOfRange)
    } else if !operands_distinct(oper.operand@) {
        Some(ExecError::DuplicateOperand)
    } else if oper.oper_type is Y {
        Some(ExecError::UnsupportedGate)
    } else {
        None
    }
}

/// The amplitudes of the coset with the given base, in the order of their
/// numbers.
pub open spec fn coset_amplitudes(amps: Seq<Complex64>, ops: Seq<u32>, base: u32) -> Seq<
    Complex64,
> {
    Seq::new(pow2(ops.len()), |l: int| amps[coset_member(ops, base, l as nat) as int])
}

/// The amplitude at index `g` after a gate with the given matrix entries
/// has acted on the operands: the row of the matrix that belongs to the
/// number of `g` inside its coset, times the amplitudes of that coset.
pub open spec fn applied_amplitude(
    amps: Seq<Complex64>,
    ops: Seq<u32>,
    entries: Seq<Complex64>,
    g: u32,
) -> Complex64 {
    let dim = pow2(ops.len()) as int;
    dot(
        entries,
        coset_amplitudes(amps, ops, coset_base(ops, g)),
        dim,
        dim,
        local_index(ops, g) as int,
        0,
        dim,
    )
}

/// The index that results from `h` when a binary digit with value `v` is
/// inserted at position `q`: the digits of `h` below `q` stay, those from
/// `q` on move up by one.
pub open spec fn insert_bit(h: nat, q: nat, v: bool) -> nat {
    (h / pow2(q)) * (2 * pow2(q)) + (if v {
        pow2(q)
    } else {
        0
    }) + h % pow2(q)
}

/// Why a branch of the register cannot be taken, if it cannot.
pub open spec fn branch_error(state: ComplexDoubleMatrix, bit: u32) -> Option<ExecError> {
    if !is_register(state) {
        Some(ExecError::DimensionMismatch)
    } else if bit >= qubits(state) {
        Some(ExecError::OperandOutOfRange)
    } else {
        None
    }
}

/// The amplitudes of the branch in which qubit `bit` has the value `v`, in
/// the order of their indices in the smaller register.
pub open spec fn branch_amplitudes(state: ComplexDoubleMatrix, bit: u32, v: bool) -> Seq<
    Complex64,
> {
    Seq::new(
        (state.rows() / 2) as nat,
        |h: int| state.data@[insert_bit(h as nat, bit as nat, v) as int],
    )
}

/// The weight of a branch: the inner product of its amplitudes with
/// themselves. Its real part is the probability of the branch.
pub open spec fn branch_weight(state: ComplexDoubleMatrix, bit: u32, v: bool) -> Complex64 {
    self_dot(branch_amplitudes(state, bit, v), state.rows() / 2)
}

/// The factor that renormalizes a branch of the given weight: the
/// reciprocal of the square root of the weight.
pub open spec fn renormalizer(weight: Complex64) -> Complex64 {
    complex_inv(real_sqrt(weight))
}

/// Why a measurement with the given outcome is rejected, if it is. A branch
/// whose weight is zero has no norm to divide by.
pub open spec fn measure_error(state: ComplexDoubleMatrix, bit: u32, outcome: bool) -> Option<
    ExecError,
> {
    if branch_error(state, bit) is Some {
        branch_error(state, bit)
    } else if complex_equal(branch_weight(state, bit, outcome), zero()) {
        Some(ExecError::NumericalDegeneracy)
    } else {
        None
    }
}

/// Inserting a digit into an index of the smaller register gives an index
/// of the larger one.
pub proof fn lemma_insert_bit_bound(h: nat, q: nat, n: nat, v: bool)
    requires
        q < n,
        h < pow2((n - 1) as nat),
    ensures
        insert_bit(h, q, v) < pow2(n),
        (h / pow2(q)) * (2 * pow2(q)) <= insert_bit(h, q, v),
{
    let p = pow2(q) as int;
    let r = pow2((n - 1 - q) as nat) as int;
    lemma_pow2_positive(q);
    lemma_pow2_positive((n - 1 - q) as nat);
    lemma_pow2_adds(q, (n - 1 - q) as nat);
    assert(pow2((n - 1) as nat) == p * r);
    assert(p * r == r * p) by (nonlinear_arith);
    lemma_split(h as int, r, p);
    let a = h as int / p;
    let b = h as int % p;
    assert(a * (2 * p) <= 2 * (p * r) - 2 * p && 0 <= a * (2 * p)) by (nonlinear_arith)
        requires
            0 <= a <= r - 1,
            p > 0,
    ;
}

/// The index from which `insert_bit` at place `q` gives `g` back: the
/// digits of `g` without the one at place `q`.
pub open spec fn remove_bit(g: nat, q: nat) -> nat {
    (g / (2 * pow2(q))) * pow2(q) + g % pow2(q)
}

/// The inserted digit stands at place `q`; the digits below it are those of
/// `h`, and the digits above it are those of `h` from place `q` on.
pub proof fn lemma_insert_bit_digits(h: nat, q: nat, v: bool)
    ensures
        (insert_bit(h, q, v) / pow2(q)) % 2 == (if v {
            1nat
        } else {
            0nat
        }),
        insert_bit(h, q, v) % pow2(q) == h % pow2(q),
        insert_bit(h, q, v) / (2 * pow2(q)) == h / pow2(q),
        remove_bit(insert_bit(h, q, v), q) == h,
{
    let p = pow2(q) as int;
    lemma_pow2_positive(q);
    let a = h as int / p;
    let b = h as int % p;
    let d: int = if v {
        1
    } else {
        0
    };
    let x = insert_bit(h, q, v) as int;
    assert(x == a * (2 * p) + d * p + b) by (nonlinear_arith)
        requires
            x == a * (2 * p) + (if v {
                p
            } else {
                0
            }) + b,
            d == (if v {
                1int
            } else {
                0int
            }),
    ;
    assert(x == (2 * a + d) * p + b) by (nonlinear_arith)
        requires
            x == a * (2 * p) + d * p + b,
    ;
    lemma_fundamental_div_mod_converse(x, p, 2 * a + d, b);
    assert(x == a * (2 * p) + (d * p + b));
    assert(0 <= d * p + b < 2 * p) by (nonlinear_arith)
        requires
            0 <= d <= 1,
            0 <= b < p,
    ;
    lemma_fundamental_div_mod_converse(x, 2 * p, a, d * p + b);
    lemma_fundamental_div_mod(h as int, p);
    assert(p * a == a * p) by (nonlinear_arith);
}

/// The indices of a branch are those whose bit `q` has the value of the
/// branch: a measurement reads the same bit that a gate on qubit `q` acts on.
pub proof fn lemma_branch_has_bit(h: nat, q: u32, n: u32, v: bool)
    requires
        q < n <= 31,
        h < pow2((n - 1) as nat),
    ensures
        insert_bit(h, q as nat, v) < pow2(n as nat) <= u32::MAX,
        ((insert_bit(h, q as nat, v) as u32) & bit(q) != 0) == v,
{
    lemma_insert_bit_bound(h, q as nat, n as nat, v);
    lemma_bit_is_pow2(n);
    lemma_insert_bit_digits(h, q as nat, v);
    lemma_bit_is_digit(insert_bit(h, q as nat, v) as u32, q);
}

/// Every index is reached: inserting its own digit at place `q` into the
/// index without that digit gives the index back.
pub proof fn lemma_insert_bit_covers(g: nat, q: nat)
    ensures
        insert_bit(remove_bit(g, q), q, (g / pow2(q)) % 2 == 1) == g,
{
    let p = pow2(q) as int;
    lemma_pow2_positive(q);
    let top = g as int / (2 * p);
    let low = g as int % p;
    let h = remove_bit(g, q) as int;
    assert(h == top * p + low);
    lemma_fundamental_div_mod_converse(h, p, top, low);
    lemma_div_denominator(g as int, p, 2);
    assert(p * 2 == 2 * p);
    let mid = g as int / p;
    assert(mid / 2 == top);
    lemma_fundamental_div_mod(g as int, p);
    lemma_fundamental_div_mod(mid, 2);
    let d = mid % 2;
    assert(g == p * (2 * top + d) + low);
    assert(p * (2 * top + d) == top * (2 * p) + d * p) by (nonlinear_arith);
    assert(d * p == (if d == 1 {
        p
    } else {
        0
    })) by (nonlinear_arith)
        requires
            0 <= d <= 1,
    ;
}

/// Inserting a digit keeps the order of the indices.
pub proof fn lemma_insert_bit_increasing(h1: nat, h2: nat, q: nat, v: bool)
    requires
        h1 < h2,
    ensures
        insert_bit(h1, q, v) < insert_bit(h2, q, v),
{
    let p = pow2(q) as int;
    lemma_pow2_positive(q);
    let a1 = h1 as int / p;
    let a2 = h2 as int / p;
    let b1 = h1 as int % p;
    let b2 = h2 as int % p;
    lemma_fundamental_div_mod(h1 as int, p);
    lemma_fundamental_div_mod(h2 as int, p);
    assert(a1 <= a2 && (a1 == a2 ==> b1 < b2)) by (nonlinear_arith)
        requires
            h1 == p * a1 + b1,
            h2 == p * a2 + b2,
            0 <= b1 < p,
            0 <= b2 < p,
            h1 < h2,
    ;
    assert(a1 * (2 * p) + b1 < a2 * (2 * p) + b2) by (nonlinear_arith)
        requires
            a1 <= a2,
            a1 == a2 ==> b1 < b2,
            0 <= b1 < p,
            0 <= b2 < p,
    ;
}

/// A gate acts on each coset by itself: the new amplitude at an index
/// depends only on the old amplitudes of the coset of that index.
pub proof fn lemma_apply_is_local(
    a: Seq<Complex64>,
    b: Seq<Complex64>,
    ops: Seq<u32>,
    entries: Seq<Complex64>,
    g: u32,
)
    requires
        forall|l: nat|
            l < pow2(ops.len()) ==> a[#[trigger] coset_member(ops, coset_base(ops, g), l) as int]
                == b[coset_member(ops, coset_base(ops, g), l) as int],
    ensures
        applied_amplitude(a, ops, entries, g) == applied_amplitude(b, ops, entries, g),
{
    let base = coset_base(ops, g);
    assert(coset_amplitudes(a, ops, base) =~= coset_amplitudes(b, ops, base));
}

/// A gate applied with a number of operands that differs from its arity is
/// rejected for that reason, whatever the operands are, as long as the
/// register is a register and a caller's matrix is a gate matrix.
pub proof fn lemma_arity_mismatch_is_rejected(state: ComplexDoubleMatrix, oper: QuantumOper)
    requires
        is_register(state),
        oper.oper_type.proper(),
        oper.operand@.len() != oper.oper_type.arity(),
    ensures
        apply_error(state, oper) == Some(ExecError::InvalidArity),
{
}

/// A copy of the vector.
fn duplicate(v: &Vec<Complex64>) -> (r: Vec<Complex64>)
    ensures
        r@ == v@,
{
    let mut copy: Vec<Complex64> = Vec::new();
    let mut i: usize = 0;
    while i < v.len()
        invariant
            i <= v@.len(),
            copy@ == v@.subrange(0, i as int),
        decreases v@.len() - i,
    {
        copy.push(v[i]);
        assert(copy@ =~= v@.subrange(0, i + 1));
        i += 1;
    }
    assert(v@.subrange(0, v@.len() as int) =~= v@);
    copy
}

/// The number of qubits of the register. Fails with `DimensionMismatch`
/// exactly when the matrix is no register.
pub fn register_qubits(m: &ComplexDoubleMatrix) -> (r: Result<u32, ExecError>)
    ensures
        match r {
            Ok(n) => is_register(*m) && n == qubits(*m) && n <= 31 && m.rows() == pow2(n as nat),
            Err(e) => e == ExecError::DimensionMismatch && !is_register(*m),
        },
{
    if !m.well_formed() || m.size[1] != 1 {
        return Err(ExecError::DimensionMismatch);
    }
    match exponent_of(m.size[0]) {
        Some(n) => Ok(n),
        None => Err(ExecError::DimensionMismatch),
    }
}

/// A register and the operations on it.
pub struct Executer {
    pub state: ComplexDoubleMatrix,
}

impl Executer {
    /// Applies a gate to its operand qubits.
    ///
    /// On success the register keeps its shape. Under the identity every
    /// amplitude stays; under any other gate the amplitude at index `g` is
    /// `applied_amplitude` of the old amplitudes. On failure the register is
    /// left as it was, and the error is the one `apply_error` names.
    pub fn apply(&mut self, oper: QuantumOper) -> (r: Result<(), ExecError>)
        ensures
            match r {
                Ok(_) => apply_error(old(self).state, oper) is None && final(self).state.size == old(
                    self,
                ).state.size && final(self).state.data@.len() == old(self).state.data@.len()
                    && is_register(final(self).state)
                    && forall|g: u32|
                    g < old(self).state.data@.len() ==> #[trigger] final(self).state.data@[g as int]
                        == (match oper.oper_type.catalog() {
                        Some(entries) => applied_amplitude(
                            old(self).state.data@,
                            oper.operand@,
                            entries,
                            g,
                        ),
                        None => old(self).state.data@[g as int],
                    }),
                Err(e) => apply_error(old(self).state, oper) == Some(e) && *final(self) == *old(
                    self,
                ),
            },
    {
        let n: u32 = match register_qubits(&self.state) {
            Ok(n) => n,
            Err(e) => {
                return Err(e);
            },
        };
        let k: u32 = match oper.oper_type.checked_arity() {
            Ok(k) => k,
            Err(e) => {
                return Err(e);
            },
        };
        if oper.operand.len() != k as usize {
            return Err(ExecError::InvalidArity);
        }
        if !all_below(&oper.operand, n) {
            return Err(ExecError::OperandOutOfRange);
        }
        if !all_distinct(&oper.operand) {
            return Err(ExecError::DuplicateOperand);
        }
        let QuantumOper { operand, oper_type } = oper;
        let gate: ComplexDoubleMatrix = match oper_type.matrix() {
            Ok(Some(m)) => m,
            Ok(None) => {
                return Ok(());
            },
            Err(e) => {
                return Err(e);
            },
        };
        let len: u32 = self.state.size[0];
        let ghost dim = gate.rows();
        let ghost amps = self.state.data@;
        let ghost ops = operand@;
        let ghost entries = gate.data@;
        let mask: u32 = mask_of(&operand);
        let mut out: Vec<Complex64> = duplicate(&self.state.data);
        let mut base: u32 = 0;
        while base < len
            invariant
                base <= len,
                n <= 31,
                len == pow2(n as nat),
                self.state.data@ == amps,
                amps.len() == len,
                operand@ == ops,
                operands_below(ops, n as nat),
                operands_below(ops, 32),
                operands_distinct(ops),
                ops.len() <= 31,
                dim == pow2(ops.len()),
                is_gate_matrix(gate),
                gate.rows() == dim,
                gate.data@ == entries,
                mask == operand_mask(ops),
                out@.len() == len,
                forall|g: u32|
                    g < len && coset_base(ops, g) < base ==> out@[g as int]
                        == #[trigger] applied_amplitude(amps, ops, entries, g),
            decreases len - base,
        {
            if base & mask == 0 {
                let members: Vec<u32> = coset_members(&operand, base);
                proof {
                    assert forall|l: int| 0 <= l < members@.len() implies #[trigger] members@[l]
                        < self.state.data@.len() by {
                        lemma_member_in_register(ops, base, l as nat, n);
                    }
                    assert forall|a: int, b: int| 0 <= a < b < members@.len() implies members@[a]
                        != members@[b] by {
                        lemma_member_local(ops, base, a as nat);
                        lemma_member_local(ops, base, b as nat);
                    }
                }
                let picked: Vec<Complex64> = gather(&self.state.data, &members);
                let input = ComplexDoubleMatrix { size: [gate.size[0], 1], data: picked };
                assert(input.data@ =~= coset_amplitudes(amps, ops, base));
                assert(input.rows() * input.cols() == dim) by (nonlinear_arith)
                    requires
                        input.rows() == dim,
                        input.cols() == 1,
                ;
                assert(input.wf() && gate.wf() && gate.cols() == input.rows());
                match gate.mul(&input) {
                    Ok(output) => {
                        let ghost before = out@;
                        scatter(&mut out, &members, &output.data);
                        proof {
                            assert forall|g: u32|
                                g < len && coset_base(ops, g) < base + 1 implies out@[g as int]
                                == #[trigger] applied_amplitude(amps, ops, entries, g) by {
                                if coset_base(ops, g) == base {
                                    lemma_member_roundtrip(ops, g);
                                    lemma_local_bound(ops, g);
                                    let l = local_index(ops, g) as int;
                                    assert(members@[l] == g);
                                    assert(out@[members@[l] as int] == output.data@[l]);
                                    assert(output.entry(l, 0) == output.data@[l]);
                                } else {
                                    assert forall|l: int|
                                        0 <= l < members@.len() implies #[trigger] members@[l]
                                        != g by {
                                        lemma_member_base(ops, base, l as nat);
                                    }
                                    assert(out@[g as int] == before[g as int]);
                                }
                            }
                        }
                    },
                    Err(e) => {
                        // A gate matrix times a coset column always exists.
                        assert(false);
                        return Err(e);
                    },
                }
            } else {
                proof {
                    assert forall|g: u32|
                        g < len && coset_base(ops, g) < base + 1 implies out@[g as int]
                        == #[trigger] applied_amplitude(amps, ops, entries, g) by {
                        lemma_base_properties(ops, g);
                    }
                }
            }
            base += 1;
        }
        proof {
            assert forall|g: u32| g < len implies out@[g as int] == applied_amplitude(
                amps,
                ops,
                entries,
                g,
            ) by {
                lemma_base_properties(ops, g);
            }
        }
        self.state = ComplexDoubleMatrix { size: self.state.size, data: out };
        Ok(())
    }

    /// The branch of the register in which qubit `bit` has the given value,
    /// not renormalized. The branch is itself a register, with one qubit
    /// less: qubits above `bit` move down by one place. Entry `h` of the
    /// branch is the old amplitude at the index that results from `h` by
    /// inserting the value at place `bit`.
    pub fn branch(&self, bit: u32, value: bool) -> (r: Result<ComplexDoubleMatrix, ExecError>)
        ensures
            match r {
                Ok(b) => branch_error(self.state, bit) is None && is_register(b) && qubits(b)
                    == qubits(self.state) - 1 && b.rows() == self.state.rows() / 2 && b.data@
                    == branch_amplitudes(self.state, bit, value),
                Err(e) => branch_error(self.state, bit) == Some(e),
            },
    {
        let n: u32 = match register_qubits(&self.state) {
            Ok(n) => n,
            Err(e) => {
                return Err(e);
            },
        };
        if bit >= n {
            return Err(ExecError::OperandOutOfRange);
        }
        let len: u32 = self.state.size[0];
        let half: u32 = len / 2;
        let p: u64 = (1u32 << bit) as u64;
        let here: u64 = if value {
            p
        } else {
            0
        };
        proof {
            lemma_bit_is_pow2(bit);
            lemma_log2_pow2((n - 1) as nat);
            lemma_pow2_positive(bit as nat);
        }
        let mut data: Vec<Complex64> = Vec::new();
        let mut h: u32 = 0;
        while h < half
            invariant
                h <= half,
                bit < n <= 31,
                len == pow2(n as nat),
                half == pow2((n - 1) as nat),
                self.state.data@.len() == len,
                p == pow2(bit as nat),
                0 < p <= 0xFFFF_FFFF,
                here == (if value {
                    pow2(bit as nat)
                } else {
                    0
                }),
                data@.len() == h,
                forall|c: int|
                    0 <= c < h ==> #[trigger] data@[c] == self.state.data@[insert_bit(
                        c as nat,
                        bit as nat,
                        value,
                    ) as int],
            decreases half - h,
        {
            proof {
                lemma_insert_bit_bound(h as nat, bit as nat, n as nat, value);
            }
            let high: u64 = (h as u64 / p) * (2 * p);
            let g: u64 = high + here + h as u64 % p;
            data.push(self.state.data[g as usize]);
            h += 1;
        }
        let b = ComplexDoubleMatrix { size: [half, 1], data };
        assert(b.rows() * b.cols() == half) by (nonlinear_arith)
            requires
                b.rows() == half,
                b.cols() == 1,
        ;
        assert(b.data@ =~= branch_amplitudes(self.state, bit, value));
        Ok(b)
    }

    /// Both branches of a measurement of qubit `bit`: first the one in
    /// which the qubit is zero, then the one in which it is one.
    pub fn split(&self, bit: u32) -> (r: Result<
        (ComplexDoubleMatrix, ComplexDoubleMatrix),
        ExecError,
    >)
        ensures
            match r {
                Ok((zero, one)) => branch_error(self.state, bit) is None && is_register(zero)
                    && is_register(one) && zero.rows() == self.state.rows() / 2 && one.rows()
                    == self.state.rows() / 2 && zero.data@ == branch_amplitudes(
                    self.state,
                    bit,
                    false,
                ) && one.data@ == branch_amplitudes(self.state, bit, true),
                Err(e) => branch_error(self.state, bit) == Some(e),
            },
    {
        let zero = match self.branch(bit, false) {
            Ok(b) => b,
            Err(e) => {
                return Err(e);
            },
        };
        let one = match self.branch(bit, true) {
            Ok(b) => b,
            Err(e) => {
                return Err(e);
            },
        };
        Ok((zero, one))
    }

    /// The weight of the branch in which qubit `bit` is one. Its real part
    /// is the probability of measuring one.
    pub fn weight_of_one(&self, bit: u32) -> (r: Result<Complex64, ExecError>)
        ensures
            match r {
                Ok(w) => branch_error(self.state, bit) is None && w == branch_weight(
                    self.state,
                    bit,
                    true,
                ),
                Err(e) => branch_error(self.state, bit) == Some(e),
            },
    {
        match self.branch(bit, true) {
            Ok(one) => Ok(one.inner()),
            Err(e) => Err(e),
        }
    }

    /// Collapses the register onto the measured value `outcome` of qubit
    /// `bit`, and returns the outcome.
    ///
    /// On success the register is the branch of the outcome, every
    /// amplitude multiplied by the renormalizer of the branch's weight; it
    /// has one qubit less, and the qubits above `bit` have moved down by one
    /// place. On failure the register is left as it was, and the error is
    /// the one `measure_error` names.
    pub fn measure(&mut self, bit: u32, outcome: bool) -> (r: Result<bool, ExecError>)
        ensures
            match r {
                Ok(b) => b == outcome && measure_error(old(self).state, bit, outcome) is None
                    && is_register(final(self).state) && qubits(final(self).state) == qubits(
                    old(self).state,
                ) - 1 && final(self).state.rows() == old(self).state.rows() / 2 && forall|h: int|
                    0 <= h < final(self).state.rows() ==> #[trigger] final(self).state.data@[h]
                        == complex_product(
                        renormalizer(branch_weight(old(self).state, bit, outcome)),
                        branch_amplitudes(old(self).state, bit, outcome)[h],
                    ),
                Err(e) => measure_error(old(self).state, bit, outcome) == Some(e) && *final(self)
                    == *old(self),
            },
    {
        let selected = match self.branch(bit, outcome) {
            Ok(b) => b,
            Err(e) => {
                return Err(e);
            },
        };
        let weight: Complex64 = selected.inner();
        if amp_eq(weight, amp_of_ints(0, 0)) {
            return Err(ExecError::NumericalDegeneracy);
        }
        let scale: Complex64 = amp_inv(amp_real_sqrt(weight));
        self.state = selected.scalmul(scale);
        Ok(outcome)
    }
}

} // verus!
