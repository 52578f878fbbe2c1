use quantum_register::coset::{all_below, all_distinct, coset_members, exponent_of};
use quantum_register::coset::{gather, mask_of, member_of, scatter};

#[test]
fn mask_sets_exactly_the_operand_bits() {
    assert_eq!(mask_of(&vec![]), 0);
    assert_eq!(mask_of(&vec![0]), 1);
    assert_eq!(mask_of(&vec![3, 1]), 0b1010);
    assert_eq!(mask_of(&vec![1, 3]), 0b1010);
    assert_eq!(mask_of(&vec![31, 0]), 0x8000_0001);
    assert_eq!(mask_of(&vec![2, 2]), 0b100);
}

#[test]
fn first_operand_is_the_highest_digit() {
    assert_eq!(coset_members(&vec![1, 0], 0), vec![0, 1, 2, 3]);
    assert_eq!(coset_members(&vec![0, 1], 0), vec![0, 2, 1, 3]);
    assert_eq!(coset_members(&vec![1, 0], 4), vec![4, 5, 6, 7]);
    assert_eq!(coset_members(&vec![0, 2], 2), vec![2, 6, 3, 7]);
    assert_eq!(coset_members(&vec![2, 0], 2), vec![2, 3, 6, 7]);
    assert_eq!(coset_members(&vec![3], 5), vec![5, 13]);
    assert_eq!(coset_members(&vec![], 9), vec![9]);
    assert_eq!(coset_members(&vec![2, 1, 0], 8), vec![8, 9, 10, 11, 12, 13, 14, 15]);
    assert_eq!(coset_members(&vec![0, 1, 2], 8), vec![8, 12, 10, 14, 9, 13, 11, 15]);
}

#[test]
fn member_of_spreads_the_digits_over_the_operands() {
    assert_eq!(member_of(&vec![4, 1], 0, 0), 0);
    assert_eq!(member_of(&vec![4, 1], 0, 1), 2);
    assert_eq!(member_of(&vec![4, 1], 0, 2), 16);
    assert_eq!(member_of(&vec![4, 1], 0, 3), 18);
    assert_eq!(member_of(&vec![4, 1], 9, 3), 27);
    assert_eq!(member_of(&vec![31], 0, 1), 0x8000_0000);
}

#[test]
fn cosets_cover_every_index_once() {
    let ops = vec![3, 0];
    let mask = mask_of(&ops);
    let mut seen = vec![0; 32];
    for base in 0..32u32 {
        if base & mask == 0 {
            for g in coset_members(&ops, base) {
                assert_eq!(g & !mask, base);
                seen[g as usize] += 1;
            }
        }
    }
    assert_eq!(seen, vec![1; 32]);
}

#[test]
fn exponent_of_powers_of_two() {
    assert_eq!(exponent_of(1), Some(0));
    assert_eq!(exponent_of(2), Some(1));
    assert_eq!(exponent_of(16), Some(4));
    assert_eq!(exponent_of(0x8000_0000), Some(31));
    assert_eq!(exponent_of(0), None);
    assert_eq!(exponent_of(3), None);
    assert_eq!(exponent_of(12), None);
    assert_eq!(exponent_of(u32::MAX), None);
}

#[test]
fn operand_checks() {
    assert!(all_below(&vec![], 0));
    assert!(all_below(&vec![0, 1, 2], 3));
    assert!(!all_below(&vec![0, 3], 3));
    assert!(all_distinct(&vec![]));
    assert!(all_distinct(&vec![5]));
    assert!(all_distinct(&vec![2, 0, 1]));
    assert!(!all_distinct(&vec![2, 0, 2]));
    assert!(!all_distinct(&vec![1, 1]));
}

#[test]
fn gather_then_scatter() {
    let state = vec![10, 11, 12, 13, 14, 15];
    let members = vec![4, 0, 3];
    let picked = gather(&state, &members);
    assert_eq!(picked, vec![14, 10, 13]);
    let mut out = vec![0, 1, 2, 3, 4, 5];
    scatter(&mut out, &members, &vec![70, 80, 90]);
    assert_eq!(out, vec![80, 1, 2, 90, 70, 5]);
    let mut same = state.clone();
    scatter(&mut same, &members, &picked);
    assert_eq!(same, state);
    assert_eq!(gather(&state, &vec![]), Vec::<i32>::new());
}
