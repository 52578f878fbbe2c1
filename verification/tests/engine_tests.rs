use num_complex::Complex64;
use quantum_register::engine::{register_qubits, Executer};
use quantum_register::error::ExecError;
use quantum_register::gate::{GateType, QuantumOper};
use quantum_register::matrix::{ComplexDoubleMatrix, Matrix};
use rand::Rng;

fn reals(values: &[f64]) -> Vec<Complex64> {
    values.iter().map(|x| Complex64::from(*x)).collect()
}

fn register(values: &[f64]) -> Executer {
    Executer {
        state: ComplexDoubleMatrix { size: [values.len() as u32, 1], data: reals(values) },
    }
}

fn basis(len: usize, index: usize) -> Executer {
    let mut values = vec![0.0; len];
    values[index] = 1.0;
    register(&values)
}

fn gate(oper_type: GateType, operand: &[u32]) -> QuantumOper {
    QuantumOper { operand: operand.to_vec(), oper_type }
}

fn total_probability(exc: &Executer) -> f64 {
    exc.state.data().iter().map(|a| a.norm_sqr()).sum()
}

fn close(a: &[Complex64], b: &[Complex64]) -> bool {
    a.len() == b.len() && a.iter().zip(b.iter()).all(|(x, y)| (x - y).norm() < 1e-9)
}

/// Measures with the sample `t` in place of a random draw.
fn measure_with(exc: &mut Executer, bit: u32, t: f64) -> Result<bool, ExecError> {
    let prob_one = exc.weight_of_one(bit)?.re;
    exc.measure(bit, t < prob_one)
}

fn bell() -> Executer {
    let mut exc = basis(4, 0);
    exc.apply(gate(GateType::H, &[0])).unwrap();
    exc.apply(gate(GateType::CNot, &[0, 1])).unwrap();
    exc
}

#[test]
fn test_apply1() {
    let mut exc = Executer {
        state: ComplexDoubleMatrix {
            size: [4, 1],
            data: vec![
                Complex64::from(0.0),
                Complex64::from(0.0),
                Complex64::from(1.0),
                Complex64::from(0.0),
            ],
        },
    };
    exc.apply(QuantumOper { operand: vec![1, 0], oper_type: GateType::CNot }).unwrap();
    let ans: Vec<Complex64> = vec![0.0.into(), 0.0.into(), 0.0.into(), 1.0.into()];
    assert_eq!(&ans, exc.state.data());
}

#[test]
fn test_apply2() {
    let mut exc = Executer {
        state: ComplexDoubleMatrix {
            size: [16, 1],
            data: vec![
                Complex64::from(1.0),
                Complex64::from(0.0),
                Complex64::from(0.0),
                Complex64::from(0.0),
                Complex64::from(0.0),
                Complex64::from(0.0),
                Complex64::from(0.0),
                Complex64::from(0.0),
                Complex64::from(0.0),
                Complex64::from(0.0),
                Complex64::from(0.0),
                Complex64::from(0.0),
                Complex64::from(0.0),
                Complex64::from(0.0),
                Complex64::from(0.0),
                Complex64::from(0.0),
            ],
        },
    };
    exc.apply(QuantumOper { operand: vec![0], oper_type: GateType::H }).unwrap();
    exc.apply(QuantumOper { operand: vec![1], oper_type: GateType::H }).unwrap();
    exc.apply(QuantumOper { operand: vec![2], oper_type: GateType::H }).unwrap();
    exc.apply(QuantumOper { operand: vec![3], oper_type: GateType::H }).unwrap();
    for a in exc.state.data().iter() {
        assert!((a.norm() - 0.25).abs() < 1e-12);
    }
    exc.apply(QuantumOper { operand: vec![0], oper_type: GateType::H }).unwrap();
    exc.apply(QuantumOper { operand: vec![1], oper_type: GateType::H }).unwrap();
    exc.apply(QuantumOper { operand: vec![2], oper_type: GateType::H }).unwrap();
    exc.apply(QuantumOper { operand: vec![3], oper_type: GateType::H }).unwrap();
    let data = exc.state.data();
    assert!(data[0].norm() > 0.99.into());
    for i in 1..16 {
        assert!(data[i].norm() < 0.01.into());
    }
}

#[test]
fn test_apply3() {
    let mut exc = Executer {
        state: ComplexDoubleMatrix {
            size: [4, 1],
            data: vec![
                Complex64::from(1.0),
                Complex64::from(0.0),
                Complex64::from(0.0),
                Complex64::from(0.0),
            ],
        },
    };
    exc.apply(QuantumOper { operand: vec![0], oper_type: GateType::H }).unwrap();
    exc.apply(QuantumOper { operand: vec![0, 1], oper_type: GateType::CNot }).unwrap();
    assert_eq!(exc.state.data()[1], 0.0.into());
    assert_eq!(exc.state.data()[2], 0.0.into());
    assert!((exc.state.data()[0].re - 0.5f64.sqrt()).abs() < 1e-12);
    assert!((exc.state.data()[3].re - 0.5f64.sqrt()).abs() < 1e-12);
}

#[test]
fn test_measure() {
    let mut exc = Executer {
        state: ComplexDoubleMatrix {
            size: [4, 1],
            data: vec![
                Complex64::from(1.0),
                Complex64::from(0.0),
                Complex64::from(0.0),
                Complex64::from(0.0),
            ],
        },
    };
    exc.apply(QuantumOper { operand: vec![0], oper_type: GateType::H }).unwrap();
    exc.apply(QuantumOper { operand: vec![0, 1], oper_type: GateType::CNot }).unwrap();
    let mut rng = rand::thread_rng();
    let m1 = &measure_with(&mut exc, 0, rng.gen_range(0.0..1.0)).unwrap();
    let m2 = &measure_with(&mut exc, 0, rng.gen_range(0.0..1.0)).unwrap();
    assert!(!(m1 ^ m2));
}

#[test]
fn bell_pair_outcomes_always_agree() {
    let mut rng = rand::thread_rng();
    let mut ones = 0;
    for _ in 0..200 {
        let mut exc = bell();
        let m1 = measure_with(&mut exc, 0, rng.gen_range(0.0..1.0)).unwrap();
        assert_eq!(exc.state.size(), [2, 1]);
        assert!((total_probability(&exc) - 1.0).abs() < 1e-9);
        let m2 = measure_with(&mut exc, 0, rng.gen_range(0.0..1.0)).unwrap();
        assert_eq!(exc.state.size(), [1, 1]);
        assert_eq!(m1, m2);
        if m1 {
            ones += 1;
        }
    }
    assert!(ones > 0 && ones < 200);
}

#[test]
fn sample_below_the_probability_selects_the_one_branch() {
    let exc = bell();
    let (_, one) = exc.split(0).unwrap();
    let prob_one = exc.weight_of_one(0).unwrap().re;
    assert_eq!(exc.weight_of_one(0).unwrap(), one.inner());
    assert!((prob_one - 0.5).abs() < 1e-9);

    let mut below = bell();
    assert_eq!(measure_with(&mut below, 0, prob_one - 1e-9), Ok(true));
    assert!(close(below.state.data(), &reals(&[0., 1.])));

    let mut above = bell();
    assert_eq!(measure_with(&mut above, 0, prob_one + 1e-9), Ok(false));
    assert!(close(above.state.data(), &reals(&[1., 0.])));
}

#[test]
fn measure_takes_the_branch_of_the_outcome_and_renormalizes_it() {
    let mut exc = register(&[1., 2., 3., 4., 5., 6., 7., 8.]);
    assert_eq!(exc.weight_of_one(1), Ok(Complex64::from(138.0)));
    assert_eq!(exc.measure(1, true), Ok(true));
    assert_eq!(exc.state.size(), [4, 1]);
    let n = 138f64.sqrt();
    assert!(close(exc.state.data(), &reals(&[3. / n, 4. / n, 7. / n, 8. / n])));
    assert!((total_probability(&exc) - 1.0).abs() < 1e-9);

    let mut exc = register(&[1., 2., 3., 4., 5., 6., 7., 8.]);
    assert_eq!(exc.measure(1, false), Ok(false));
    let n = 66f64.sqrt();
    assert!(close(exc.state.data(), &reals(&[1. / n, 2. / n, 5. / n, 6. / n])));

    let mut exc = register(&[3., 4.]);
    assert_eq!(exc.measure(0, true), Ok(true));
    assert_eq!(exc.state.size(), [1, 1]);
    assert!(close(exc.state.data(), &reals(&[1.])));
}

#[test]
fn branches_renumber_the_qubits_above_the_measured_one() {
    let exc = register(&[0., 1., 2., 3., 4., 5., 6., 7.]);
    assert_eq!(exc.branch(0, false).unwrap().data(), &reals(&[0., 2., 4., 6.]));
    assert_eq!(exc.branch(0, true).unwrap().data(), &reals(&[1., 3., 5., 7.]));
    assert_eq!(exc.branch(1, false).unwrap().data(), &reals(&[0., 1., 4., 5.]));
    assert_eq!(exc.branch(1, true).unwrap().data(), &reals(&[2., 3., 6., 7.]));
    assert_eq!(exc.branch(2, false).unwrap().data(), &reals(&[0., 1., 2., 3.]));
    assert_eq!(exc.branch(2, true).unwrap().data(), &reals(&[4., 5., 6., 7.]));
    let (zero, one) = exc.split(1).unwrap();
    assert_eq!(zero.size(), [4, 1]);
    assert_eq!(one.size(), [4, 1]);
    assert_eq!(zero.data(), &reals(&[0., 1., 4., 5.]));
    assert_eq!(one.data(), &reals(&[2., 3., 6., 7.]));
}

#[test]
fn measure_failures_leave_the_register_alone() {
    let mut exc = register(&[1., 0., 0., 0.]);
    assert_eq!(exc.measure(2, false), Err(ExecError::OperandOutOfRange));
    assert_eq!(exc.weight_of_one(2), Err(ExecError::OperandOutOfRange));
    assert_eq!(exc.state.data(), &reals(&[1., 0., 0., 0.]));
    assert_eq!(exc.measure(0, true), Err(ExecError::NumericalDegeneracy));
    assert_eq!(exc.measure(1, true), Err(ExecError::NumericalDegeneracy));
    assert_eq!(exc.state.size(), [4, 1]);
    assert_eq!(exc.state.data(), &reals(&[1., 0., 0., 0.]));
    assert_eq!(measure_with(&mut exc, 0, 0.5), Ok(false));
    assert_eq!(exc.state.data(), &reals(&[1., 0.]));

    let mut odd = register(&[1., 0., 0.]);
    assert_eq!(odd.measure(0, false), Err(ExecError::DimensionMismatch));
    assert_eq!(odd.weight_of_one(0), Err(ExecError::DimensionMismatch));
    assert!(matches!(odd.split(0), Err(ExecError::DimensionMismatch)));
    assert!(matches!(exc.branch(1, true), Err(ExecError::OperandOutOfRange)));
    assert_eq!(odd.state.data(), &reals(&[1., 0., 0.]));
}

#[test]
fn arity_mismatch_is_rejected_and_changes_nothing() {
    let before = reals(&[0.6, 0.0, 0.8, 0.0]);
    for (oper, operand) in [
        (GateType::I, vec![]),
        (GateType::X, vec![0, 1]),
        (GateType::Y, vec![]),
        (GateType::Z, vec![0, 1]),
        (GateType::H, vec![]),
        (GateType::CNot, vec![0]),
        (GateType::CNot, vec![0, 1, 1]),
    ] {
        let mut exc = register(&[0.6, 0.0, 0.8, 0.0]);
        assert_eq!(exc.apply(QuantumOper { operand, oper_type: oper }), Err(ExecError::InvalidArity));
        assert_eq!(exc.state.size(), [4, 1]);
        assert_eq!(exc.state.data(), &before);
    }
}

#[test]
fn every_rejection_names_its_reason() {
    let mut exc = register(&[1., 0., 0., 0.]);
    assert_eq!(exc.apply(gate(GateType::X, &[2])), Err(ExecError::OperandOutOfRange));
    assert_eq!(exc.apply(gate(GateType::CNot, &[1, 1])), Err(ExecError::DuplicateOperand));
    assert_eq!(exc.apply(gate(GateType::CNot, &[5, 5])), Err(ExecError::OperandOutOfRange));
    assert_eq!(exc.apply(gate(GateType::Y, &[0])), Err(ExecError::UnsupportedGate));
    assert_eq!(exc.apply(gate(GateType::Y, &[7])), Err(ExecError::OperandOutOfRange));
    let three = ComplexDoubleMatrix { size: [3, 3], data: reals(&[1.; 9]) };
    assert_eq!(exc.apply(gate(GateType::U(three), &[0])), Err(ExecError::DimensionMismatch));
    let short = ComplexDoubleMatrix { size: [2, 2], data: reals(&[1.; 3]) };
    assert_eq!(exc.apply(gate(GateType::U(short), &[0])), Err(ExecError::DimensionMismatch));
    let wide = ComplexDoubleMatrix { size: [2, 4], data: reals(&[1.; 8]) };
    assert_eq!(exc.apply(gate(GateType::U(wide), &[0])), Err(ExecError::DimensionMismatch));
    let four = ComplexDoubleMatrix { size: [4, 4], data: reals(&[1.; 16]) };
    assert_eq!(exc.apply(gate(GateType::U(four), &[0])), Err(ExecError::InvalidArity));
    assert_eq!(exc.state.data(), &reals(&[1., 0., 0., 0.]));

    let mut odd = register(&[1., 0., 0.]);
    assert_eq!(odd.apply(gate(GateType::X, &[0])), Err(ExecError::DimensionMismatch));
    let mut row = Executer { state: ComplexDoubleMatrix { size: [1, 2], data: reals(&[1., 0.]) } };
    assert_eq!(row.apply(gate(GateType::X, &[0])), Err(ExecError::DimensionMismatch));
    assert_eq!(row.state.size(), [1, 2]);
}

#[test]
fn register_qubits_counts_or_rejects() {
    assert_eq!(register_qubits(&register(&[1.]).state), Ok(0));
    assert_eq!(register_qubits(&register(&[1., 0.]).state), Ok(1));
    assert_eq!(register_qubits(&register(&[0.; 32]).state), Ok(5));
    assert_eq!(register_qubits(&register(&[0.; 6]).state), Err(ExecError::DimensionMismatch));
    assert_eq!(register_qubits(&register(&[]).state), Err(ExecError::DimensionMismatch));
}

#[test]
fn identity_passes_the_register_through() {
    let mut exc = register(&[0.1, -0.0, 0.3, 0.4]);
    exc.apply(gate(GateType::I, &[1])).unwrap();
    assert_eq!(exc.state.data(), &reals(&[0.1, -0.0, 0.3, 0.4]));
    assert!(exc.state.data()[1].re.is_sign_negative());
}

#[test]
fn pauli_x_flips_the_operand_bit() {
    let mut exc = register(&[0., 1., 2., 3., 4., 5., 6., 7.]);
    exc.apply(gate(GateType::X, &[1])).unwrap();
    assert_eq!(exc.state.data(), &reals(&[2., 3., 0., 1., 6., 7., 4., 5.]));
    exc.apply(gate(GateType::X, &[2])).unwrap();
    assert_eq!(exc.state.data(), &reals(&[6., 7., 4., 5., 2., 3., 0., 1.]));
}

#[test]
fn pauli_z_negates_where_the_operand_bit_is_set() {
    let mut exc = register(&[1., 2., 3., 4.]);
    exc.apply(gate(GateType::Z, &[0])).unwrap();
    assert_eq!(exc.state.data(), &reals(&[1., -2., 3., -4.]));
    exc.apply(gate(GateType::Z, &[1])).unwrap();
    assert_eq!(exc.state.data(), &reals(&[1., -2., -3., 4.]));
}

#[test]
fn hadamard_on_a_basis_state() {
    let s = 0.5f64.sqrt();
    let mut exc = basis(2, 0);
    exc.apply(gate(GateType::H, &[0])).unwrap();
    assert!(close(exc.state.data(), &reals(&[s, s])));
    let mut exc = basis(2, 1);
    exc.apply(gate(GateType::H, &[0])).unwrap();
    assert!(close(exc.state.data(), &reals(&[s, -s])));
}

#[test]
fn controlled_not_follows_the_operand_order() {
    // control = qubit 0, target = qubit 2
    let mut exc = register(&[0., 1., 2., 3., 4., 5., 6., 7.]);
    exc.apply(gate(GateType::CNot, &[0, 2])).unwrap();
    assert_eq!(exc.state.data(), &reals(&[0., 5., 2., 7., 4., 1., 6., 3.]));
    // control = qubit 2, target = qubit 0
    let mut exc = register(&[0., 1., 2., 3., 4., 5., 6., 7.]);
    exc.apply(gate(GateType::CNot, &[2, 0])).unwrap();
    assert_eq!(exc.state.data(), &reals(&[0., 1., 2., 3., 5., 4., 7., 6.]));
}

#[test]
fn caller_matrix_acts_like_the_catalog_gate() {
    let swap = ComplexDoubleMatrix { size: [2, 2], data: reals(&[0., 1., 1., 0.]) };
    let mut exc = register(&[0., 1., 2., 3.]);
    exc.apply(gate(GateType::U(swap), &[1])).unwrap();
    assert_eq!(exc.state.data(), &reals(&[2., 3., 0., 1.]));

    // Rows of the matrix follow the coset numbering: first operand highest.
    let pick = ComplexDoubleMatrix {
        size: [4, 4],
        data: reals(&[0., 0., 0., 0., 1., 0., 0., 0., 0., 0., 0., 0., 0., 0., 0., 0.]),
    };
    let mut exc = register(&[10., 20., 30., 40.]);
    exc.apply(gate(GateType::U(pick), &[1, 0])).unwrap();
    assert_eq!(exc.state.data(), &reals(&[20., 0., 0., 0.]));
    let pick = ComplexDoubleMatrix {
        size: [4, 4],
        data: reals(&[0., 0., 0., 0., 1., 0., 0., 0., 0., 0., 0., 0., 0., 0., 0., 0.]),
    };
    let mut exc = register(&[10., 20., 30., 40.]);
    exc.apply(gate(GateType::U(pick), &[0, 1])).unwrap();
    assert_eq!(exc.state.data(), &reals(&[30., 0., 0., 0.]));

    let scalar = ComplexDoubleMatrix { size: [1, 1], data: reals(&[3.]) };
    let mut exc = register(&[1., 2.]);
    exc.apply(gate(GateType::U(scalar), &[])).unwrap();
    assert_eq!(exc.state.data(), &reals(&[3., 6.]));
}

#[test]
fn gates_keep_the_total_probability() {
    let mut exc = register(&[0.5, 0.5, 0.5, 0.5, 0.0, 0.0, 0.0, 0.0]);
    exc.state = exc.state.scalmul(Complex64::new(0.6, 0.8));
    assert!((total_probability(&exc) - 1.0).abs() < 1e-9);
    let steps = [
        gate(GateType::H, &[2]),
        gate(GateType::CNot, &[2, 0]),
        gate(GateType::X, &[1]),
        gate(GateType::Z, &[0]),
        gate(GateType::I, &[1]),
        gate(GateType::H, &[0]),
        gate(GateType::CNot, &[1, 2]),
    ];
    for step in steps {
        exc.apply(step).unwrap();
        assert_eq!(exc.state.size(), [8, 1]);
        assert!((total_probability(&exc) - 1.0).abs() < 1e-9);
    }
}

#[test]
fn applying_a_gate_twice_restores_the_register() {
    let start = [0.1, 0.2, 0.3, 0.4, 0.5, 0.6, 0.7, 0.8];
    let opers: [(fn() -> GateType, Vec<u32>); 6] = [
        (|| GateType::X, vec![1]),
        (|| GateType::Z, vec![2]),
        (|| GateType::H, vec![0]),
        (|| GateType::H, vec![2]),
        (|| GateType::CNot, vec![0, 2]),
        (|| GateType::CNot, vec![2, 1]),
    ];
    for (make, operand) in opers {
        let mut exc = register(&start);
        exc.apply(QuantumOper { operand: operand.clone(), oper_type: make() }).unwrap();
        assert!(!close(exc.state.data(), &reals(&start)));
        exc.apply(QuantumOper { operand, oper_type: make() }).unwrap();
        assert!(close(exc.state.data(), &reals(&start)));
    }
}

#[test]
fn catalog_matrices() {
    let x = GateType::X.matrix().unwrap().unwrap();
    assert_eq!(x.size(), [2, 2]);
    assert_eq!(x.data(), &reals(&[0., 1., 1., 0.]));
    let z = GateType::Z.matrix().unwrap().unwrap();
    assert_eq!(z.data(), &reals(&[1., 0., 0., -1.]));
    let h = GateType::H.matrix().unwrap().unwrap();
    let s = 0.5f64.sqrt();
    assert_eq!(h.size(), [2, 2]);
    assert!(close(h.data(), &reals(&[s, s, s, -s])));
    let c = GateType::CNot.matrix().unwrap().unwrap();
    assert_eq!(c.size(), [4, 4]);
    assert_eq!(
        c.data(),
        &reals(&[1., 0., 0., 0., 0., 1., 0., 0., 0., 0., 0., 1., 0., 0., 1., 0.])
    );
    assert!(GateType::I.matrix().unwrap().is_none());
    assert!(matches!(GateType::Y.matrix(), Err(ExecError::UnsupportedGate)));
    let own = ComplexDoubleMatrix { size: [1, 1], data: reals(&[2.]) };
    assert_eq!(GateType::U(own).matrix().unwrap().unwrap().data(), &reals(&[2.]));
}

#[test]
fn arity_of_each_gate() {
    assert_eq!(GateType::I.checked_arity(), Ok(1));
    assert_eq!(GateType::X.checked_arity(), Ok(1));
    assert_eq!(GateType::Y.checked_arity(), Ok(1));
    assert_eq!(GateType::Z.checked_arity(), Ok(1));
    assert_eq!(GateType::H.checked_arity(), Ok(1));
    assert_eq!(GateType::CNot.checked_arity(), Ok(2));
    let eight = ComplexDoubleMatrix { size: [8, 8], data: reals(&[0.; 64]) };
    assert_eq!(GateType::U(eight).checked_arity(), Ok(3));
    let six = ComplexDoubleMatrix { size: [6, 6], data: reals(&[0.; 36]) };
    assert_eq!(GateType::U(six).checked_arity(), Err(ExecError::DimensionMismatch));
    let empty = ComplexDoubleMatrix { size: [0, 0], data: vec![] };
    assert_eq!(GateType::U(empty).checked_arity(), Err(ExecError::DimensionMismatch));
}
