//! Index arithmetic for applying a gate to chosen qubits of a register.
//!
//! The operands of a gate pick out some bits of a register index. All indices
//! that agree on every other bit form a coset; the coset is named by its base,
//! the index with all operand bits cleared. Inside a coset the members are
//! numbered by their operand bits, read as a binary number in which the
//! first operand is the most significant digit and the last operand the
//! least significant one. Gate matrices are written against this numbering.

use vstd::prelude::*;

verus! {

/// Two to the power `k`.
pub open spec fn pow2(k: nat) -> nat
    decreases k,
{
    if k == 0 {
        1
    } else {
        2 * pow2((k - 1) as nat)
    }
}

/// The index in which only bit `q` is set.
pub open spec fn bit(q: u32) -> u32 {
    1u32 << q
}

/// Every operand names a qubit below `n`.
pub open spec fn operands_below(ops: Seq<u32>, n: nat) -> bool {
    forall|i: int| 0 <= i < ops.len() ==> #[trigger] ops[i] < n
}

/// No qubit is named twice.
pub open spec fn operands_distinct(ops: Seq<u32>) -> bool {
    forall|i: int, j: int| 0 <= i < j < ops.len() ==> ops[i] != ops[j]
}

/// The index in which exactly the operand bits are set.
pub open spec fn operand_mask(ops: Seq<u32>) -> u32
    decreases ops.len(),
{
    if ops.len() == 0 {
        0
    } else {
        operand_mask(ops.drop_last()) | bit(ops.last())
    }
}

/// The operand bits of the member numbered `local`: the last operand carries
/// the lowest binary digit of `local`, the first operand the highest.
pub open spec fn spread(ops: Seq<u32>, local: nat) -> u32
    decreases ops.len(),
{
    if ops.len() == 0 {
        0
    } else {
        spread(ops.drop_last(), local / 2) | (if local % 2 == 1 {
            bit(ops.last())
        } else {
            0
        })
    }
}

/// The number of index `g` inside its coset.
pub open spec fn local_index(ops: Seq<u32>, g: u32) -> nat
    decreases ops.len(),
{
    if ops.len() == 0 {
        0
    } else {
        2 * local_index(ops.drop_last(), g) + (if g & bit(ops.last()) != 0 {
            1nat
        } else {
            0nat
        })
    }
}

/// The base of the coset that holds `g`.
pub open spec fn coset_base(ops: Seq<u32>, g: u32) -> u32 {
    g & !operand_mask(ops)
}

/// The member numbered `local` of the coset with the given base.
pub open spec fn coset_member(ops: Seq<u32>, base: u32, local: nat) -> u32 {
    base | spread(ops, local)
}

pub proof fn lemma_pow2_positive(k: nat)
    ensures
        pow2(k) >= 1,
    decreases k,
{
    if k > 0 {
        lemma_pow2_positive((k - 1) as nat);
    }
}

pub proof fn lemma_pow2_monotone(a: nat, b: nat)
    requires
        a <= b,
    ensures
        pow2(a) <= pow2(b),
    decreases b,
{
    if a < b {
        lemma_pow2_monotone(a, (b - 1) as nat);
    }
}

/// Powers of two multiply by adding exponents.
pub proof fn lemma_pow2_adds(a: nat, b: nat)
    ensures
        pow2(a + b) == pow2(a) * pow2(b),
    decreases a,
{
    if a == 0 {
        assert(pow2(0) * pow2(b) == pow2(b)) by (nonlinear_arith)
            requires
                pow2(0) == 1,
        ;
    } else {
        lemma_pow2_adds((a - 1) as nat, b);
        let x = pow2((a - 1) as nat);
        let y = pow2(b);
        assert(pow2(a + b) == 2 * pow2(((a - 1) as nat) + b));
        assert(2 * (x * y) == (2 * x) * y) by (nonlinear_arith);
    }
}

/// For a shift that keeps the bit inside 32 bits, the shifted one is the
/// power of two.
pub proof fn lemma_bit_is_pow2(q: u32)
    requires
        q <= 31,
    ensures
        bit(q) == pow2(q as nat),
    decreases q,
{
    if q == 0 {
        assert(1u32 << 0u32 == 1u32) by (bit_vector);
    } else {
        let p: u32 = (q - 1) as u32;
        lemma_bit_is_pow2(p);
        assert((1u32 << q) == 2 * (1u32 << p)) by (bit_vector)
            requires
                1 <= q <= 31,
                p == q - 1,
        ;
    }
}

/// Bit `q` of an index is its binary digit at place `q`: the digit that
/// gates test with a mask is the digit that a measurement removes.
pub proof fn lemma_bit_is_digit(g: u32, q: u32)
    requires
        q <= 31,
    ensures
        (g & bit(q) != 0) == ((g as nat / pow2(q as nat)) % 2 == 1),
{
    lemma_bit_is_pow2(q);
    let b = bit(q);
    assert((g & b != 0) == ((g / b) % 2 == 1)) by (bit_vector)
        requires
            b == 1u32 << q,
            q <= 31,
    ;
}

/// A qubit that is no operand has its bit outside the mask.
pub proof fn lemma_bit_outside_mask(ops: Seq<u32>, q: u32)
    requires
        operands_below(ops, 32),
        q < 32,
        forall|i: int| 0 <= i < ops.len() ==> ops[i] != q,
    ensures
        bit(q) & operand_mask(ops) == 0,
    decreases ops.len(),
{
    if ops.len() == 0 {
        let b = bit(q);
        assert(b & 0 == 0) by (bit_vector);
    } else {
        let rest = ops.drop_last();
        let p = ops.last();
        lemma_bit_outside_mask(rest, q);
        let m = operand_mask(rest);
        assert(ops[ops.len() - 1] < 32);
        assert(((1u32 << q) & (m | (1u32 << p))) == 0) by (bit_vector)
            requires
                (1u32 << q) & m == 0,
                q < 32,
                p < 32,
                q != p,
        ;
    }
}

/// The operand bits of a member lie inside the mask.
pub proof fn lemma_spread_within_mask(ops: Seq<u32>, local: nat)
    ensures
        spread(ops, local) & !operand_mask(ops) == 0,
    decreases ops.len(),
{
    if ops.len() == 0 {
        assert(0u32 & !0u32 == 0) by (bit_vector);
    } else {
        let rest = ops.drop_last();
        lemma_spread_within_mask(rest, local / 2);
        let s = spread(rest, local / 2);
        let m = operand_mask(rest);
        let b = bit(ops.last());
        assert((s | b) & !(m | b) == 0 && (s | 0) & !(m | b) == 0) by (bit_vector)
            requires
                s & !m == 0,
        ;
    }
}

/// The base of a coset has no operand bit set and is not above the index.
pub proof fn lemma_base_properties(ops: Seq<u32>, g: u32)
    ensures
        coset_base(ops, g) & operand_mask(ops) == 0,
        coset_base(ops, g) <= g,
{
    let m = operand_mask(ops);
    assert((g & !m) & m == 0 && (g & !m) <= g) by (bit_vector);
}

/// Every member of a coset has the base of that coset.
pub proof fn lemma_member_base(ops: Seq<u32>, base: u32, local: nat)
    requires
        base & operand_mask(ops) == 0,
    ensures
        coset_base(ops, coset_member(ops, base, local)) == base,
{
    lemma_spread_within_mask(ops, local);
    let s = spread(ops, local);
    let m = operand_mask(ops);
    assert((base | s) & !m == base) by (bit_vector)
        requires
            base & m == 0,
            s & !m == 0,
    ;
}

/// The number of an index inside its coset is below two to the number of
/// operands.
pub proof fn lemma_local_bound(ops: Seq<u32>, g: u32)
    ensures
        local_index(ops, g) < pow2(ops.len()),
    decreases ops.len(),
{
    if ops.len() > 0 {
        lemma_local_bound(ops.drop_last(), g);
    }
}

/// Numbering is the inverse of listing: the member numbered `local` has the
/// number `local`.
pub proof fn lemma_member_local(ops: Seq<u32>, base: u32, local: nat)
    requires
        operands_below(ops, 32),
        operands_distinct(ops),
        base & operand_mask(ops) == 0,
        local < pow2(ops.len()),
    ensures
        local_index(ops, coset_member(ops, base, local)) == local,
    decreases ops.len(),
{
    if ops.len() > 0 {
        let rest = ops.drop_last();
        let q = ops.last();
        let x: u32 = if local % 2 == 1 {
            bit(q)
        } else {
            0
        };
        let s = spread(rest, local / 2);
        let m = operand_mask(rest);
        let g = coset_member(ops, base, local);
        let shifted: u32 = base | x;
        assert(forall|i: int| 0 <= i < rest.len() ==> rest[i] == ops[i]);
        assert(ops[ops.len() - 1] < 32);
        assert forall|i: int| 0 <= i < rest.len() implies rest[i] != q by {
            assert(ops[i] != ops[ops.len() - 1]);
        }
        lemma_bit_outside_mask(rest, q);
        lemma_spread_within_mask(rest, local / 2);
        let b = bit(q);
        assert(shifted & m == 0 && (base | (s | x)) == (shifted | s) && (((base | (s | x)) & b
            != 0) <==> x == b)) by (bit_vector)
            requires
                base & (m | b) == 0,
                b & m == 0,
                s & !m == 0,
                x == b || x == 0,
                shifted == base | x,
                b == 1u32 << q,
                q < 32,
        ;
        assert(b != 0) by (bit_vector)
            requires
                b == 1u32 << q,
                q < 32,
        ;
        lemma_member_local(rest, shifted, local / 2);
        assert(coset_member(rest, shifted, local / 2) == g);
    }
}

/// Listing is the inverse of numbering: every index is the member of its own
/// coset that carries its own number.
pub proof fn lemma_member_roundtrip(ops: Seq<u32>, g: u32)
    requires
        operands_below(ops, 32),
    ensures
        coset_member(ops, coset_base(ops, g), local_index(ops, g)) == g,
    decreases ops.len(),
{
    if ops.len() == 0 {
        assert((g & !0u32) | 0u32 == g) by (bit_vector);
    } else {
        let rest = ops.drop_last();
        let q = ops.last();
        assert(ops[ops.len() - 1] < 32);
        assert(forall|i: int| 0 <= i < rest.len() ==> rest[i] == ops[i]);
        lemma_member_roundtrip(rest, g);
        let inner = local_index(rest, g);
        let local = local_index(ops, g);
        assert(local / 2 == inner && (local % 2 == 1 <==> g & bit(q) != 0));
        let s = spread(rest, inner);
        let m = operand_mask(rest);
        let b = bit(q);
        let x: u32 = if g & b != 0 {
            b
        } else {
            0
        };
        assert(((g & !(m | b)) | (s | x)) == g) by (bit_vector)
            requires
                ((g & !m) | s) == g,
                b == 1u32 << q,
                q < 32,
                x == (if g & b != 0 {
                    b
                } else {
                    0u32
                }),
        ;
    }
}

/// Two indices with the same base and the same number are the same index.
pub proof fn lemma_cosets_partition(ops: Seq<u32>, g: u32, h: u32)
    requires
        operands_below(ops, 32),
        coset_base(ops, g) == coset_base(ops, h),
        local_index(ops, g) == local_index(ops, h),
    ensures
        g == h,
{
    lemma_member_roundtrip(ops, g);
    lemma_member_roundtrip(ops, h);
}

/// With a single operand, the number of an index inside its coset is the
/// value of that qubit.
pub proof fn lemma_one_operand_numbering(q: u32, g: u32)
    ensures
        operand_mask(seq![q]) == bit(q),
        local_index(seq![q], g) == (if g & bit(q) != 0 {
            1nat
        } else {
            0nat
        }),
{
    reveal_with_fuel(operand_mask, 2);
    reveal_with_fuel(local_index, 2);
    let ops = seq![q];
    assert(ops.drop_last() =~= Seq::<u32>::empty());
    assert(ops.last() == q);
    let b = bit(q);
    assert(0u32 | b == b) by (bit_vector);
}

/// With two operands, the first is the high digit and the second the low
/// digit of the number of an index inside its coset: a controlled gate finds
/// its control in the first operand.
pub proof fn lemma_two_operand_numbering(first: u32, second: u32, g: u32)
    ensures
        local_index(seq![first, second], g) == 2 * (if g & bit(first) != 0 {
            1nat
        } else {
            0nat
        }) + (if g & bit(second) != 0 {
            1nat
        } else {
            0nat
        }),
{
    reveal_with_fuel(local_index, 3);
    let ops = seq![first, second];
    assert(ops.drop_last() =~= seq![first]);
    assert(ops.last() == second);
    assert(seq![first].drop_last() =~= Seq::<u32>::empty());
    assert(seq![first].last() == first);
}

/// The members of a coset whose base lies in a register of `n` qubits lie in
/// that register, if the operands do.
pub proof fn lemma_member_in_register(ops: Seq<u32>, base: u32, local: nat, n: u32)
    requires
        n <= 31,
        operands_below(ops, n as nat),
        base < pow2(n as nat),
    ensures
        coset_member(ops, base, local) < pow2(n as nat),
    decreases ops.len(),
{
    lemma_bit_is_pow2(n);
    let len = bit(n);
    if ops.len() == 0 {
        assert(base | 0u32 == base) by (bit_vector);
    } else {
        let rest = ops.drop_last();
        let q = ops.last();
        assert(ops[ops.len() - 1] < n);
        assert(forall|i: int| 0 <= i < rest.len() ==> rest[i] == ops[i]);
        lemma_member_in_register(rest, base, local / 2, n);
        let prev = coset_member(rest, base, local / 2);
        let s = spread(rest, local / 2);
        assert((base | (s | (1u32 << q))) < (1u32 << n) && (base | (s | 0u32)) < (1u32 << n))
            by (bit_vector)
            requires
                (base | s) < (1u32 << n),
                q < n,
                n <= 31,
        ;
    }
}

/// The number of binary digits needed to count up to `x`, less one: the
/// exponent, where `x` is a power of two.
pub open spec fn log2(x: nat) -> nat
    decreases x,
{
    if x <= 1 {
        0
    } else {
        1 + log2(x / 2)
    }
}

/// Tells whether `x` is a power of two.
pub open spec fn is_pow2(x: nat) -> bool {
    x == pow2(log2(x))
}

/// The exponent of a power of two is found again by `log2`.
pub proof fn lemma_log2_pow2(k: nat)
    ensures
        log2(pow2(k)) == k,
        is_pow2(pow2(k)),
    decreases k,
{
    if k > 0 {
        lemma_log2_pow2((k - 1) as nat);
        lemma_pow2_positive((k - 1) as nat);
        assert(pow2(k) / 2 == pow2((k - 1) as nat));
    }
}

/// The exponent `n` with `x == 2^n`, if there is one. It is below 32.
pub fn exponent_of(x: u32) -> (r: Option<u32>)
    ensures
        match r {
            Some(n) => n <= 31 && is_pow2(x as nat) && n == log2(x as nat) && x == pow2(n as nat),
            None => !is_pow2(x as nat),
        },
{
    let mut n: u32 = 0;
    let mut p: u64 = 1;
    while n < 32
        invariant
            n <= 32,
            p == pow2(n as nat),
            n < 32 ==> p <= 0xFFFF_FFFF,
            forall|m: nat| m < n ==> pow2(m) != x,
        decreases 32 - n,
    {
        if p == x as u64 {
            proof {
                lemma_log2_pow2(n as nat);
            }
            return Some(n);
        }
        proof {
            if n < 31 {
                lemma_bit_is_pow2((n + 1) as u32);
            }
        }
        p = p * 2;
        n += 1;
    }
    proof {
        let e = log2(x as nat);
        if e >= 32 {
            lemma_bit_is_pow2(31);
            assert(1u32 << 31u32 == 0x8000_0000u32) by (bit_vector);
            assert(pow2(32) == 2 * pow2(31));
            lemma_pow2_monotone(32, e);
        }
    }
    None
}

/// The operand mask of the given operands.
pub fn mask_of(ops: &Vec<u32>) -> (r: u32)
    requires
        operands_below(ops@, 32),
    ensures
        r == operand_mask(ops@),
{
    let mut m: u32 = 0;
    let mut i: usize = 0;
    while i < ops.len()
        invariant
            operands_below(ops@, 32),
            i <= ops@.len(),
            m == operand_mask(ops@.subrange(0, i as int)),
        decreases ops@.len() - i,
    {
        proof {
            let next = ops@.subrange(0, i + 1);
            assert(next.drop_last() =~= ops@.subrange(0, i as int));
            assert(next.last() == ops@[i as int]);
        }
        m = m | (1u32 << ops[i]);
        i += 1;
    }
    proof {
        assert(ops@.subrange(0, ops@.len() as int) =~= ops@);
    }
    m
}

/// The member numbered `local` of the coset with the given base.
pub fn member_of(ops: &Vec<u32>, base: u32, local: usize) -> (r: u32)
    requires
        operands_below(ops@, 32),
    ensures
        r == coset_member(ops@, base, local as nat),
{
    let mut s: u32 = 0;
    let mut t: usize = local;
    let mut j: usize = ops.len();
    proof {
        assert(ops@.subrange(0, ops@.len() as int) =~= ops@);
        let whole = spread(ops@, local as nat);
        assert(whole | 0u32 == whole) by (bit_vector);
    }
    while j > 0
        invariant
            operands_below(ops@, 32),
            j <= ops@.len(),
            spread(ops@, local as nat) == spread(ops@.subrange(0, j as int), t as nat) | s,
        decreases j,
    {
        j -= 1;
        let x: u32 = if t % 2 == 1 {
            1u32 << ops[j]
        } else {
            0
        };
        proof {
            let prefix = ops@.subrange(0, j + 1);
            assert(prefix.drop_last() =~= ops@.subrange(0, j as int));
            assert(prefix.last() == ops@[j as int]);
            let a = spread(ops@.subrange(0, j as int), (t / 2) as nat);
            assert((a | x) | s == a | (s | x)) by (bit_vector);
        }
        s = s | x;
        t = t / 2;
    }
    proof {
        assert(ops@.subrange(0, 0).len() == 0);
        assert(0u32 | s == s) by (bit_vector);
    }
    base | s
}

/// The members of the coset with the given base, in the order of their
/// numbers: two to the number of operands many.
pub fn coset_members(ops: &Vec<u32>, base: u32) -> (r: Vec<u32>)
    requires
        operands_below(ops@, 32),
        ops@.len() <= 31,
    ensures
        r@.len() == pow2(ops@.len()),
        forall|l: int|
            0 <= l < r@.len() ==> #[trigger] r@[l] == coset_member(ops@, base, l as nat),
{
    let mut dim: usize = 1;
    let mut k: usize = 0;
    while k < ops.len()
        invariant
            k <= ops@.len() <= 31,
            dim == pow2(k as nat),
            dim <= 0x8000_0000,
        decreases ops@.len() - k,
    {
        proof {
            lemma_bit_is_pow2(k as u32);
            lemma_bit_is_pow2((k + 1) as u32);
            let b = bit(k as u32);
            assert(b <= 0x4000_0000) by (bit_vector)
                requires
                    b == 1u32 << (k as u32),
                    k < 31,
            ;
        }
        dim = dim * 2;
        k += 1;
    }
    let mut members: Vec<u32> = Vec::new();
    let mut l: usize = 0;
    while l < dim
        invariant
            operands_below(ops@, 32),
            l <= dim,
            members@.len() == l,
            forall|c: int|
                0 <= c < l ==> #[trigger] members@[c] == coset_member(ops@, base, c as nat),
        decreases dim - l,
    {
        members.push(member_of(ops, base, l));
        l += 1;
    }
    members
}

/// The entries of `state` at the given positions, in the order of the
/// positions.
pub fn gather<T: Copy>(state: &Vec<T>, members: &Vec<u32>) -> (r: Vec<T>)
    requires
        forall|l: int| 0 <= l < members@.len() ==> #[trigger] members@[l] < state@.len(),
    ensures
        r@.len() == members@.len(),
        forall|l: int| 0 <= l < members@.len() ==> #[trigger] r@[l] == state@[members@[l] as int],
{
    let mut picked: Vec<T> = Vec::new();
    let mut l: usize = 0;
    while l < members.len()
        invariant
            forall|c: int| 0 <= c < members@.len() ==> #[trigger] members@[c] < state@.len(),
            l <= members@.len(),
            picked@.len() == l,
            forall|c: int| 0 <= c < l ==> #[trigger] picked@[c] == state@[members@[c] as int],
        decreases members@.len() - l,
    {
        picked.push(state[members[l] as usize]);
        l += 1;
    }
    picked
}

/// Writes `values` into `out` at the given positions, which name no entry
/// twice. Every other entry of `out` is kept.
pub fn scatter<T: Copy>(out: &mut Vec<T>, members: &Vec<u32>, values: &Vec<T>)
    requires
        members@.len() == values@.len(),
        forall|l: int| 0 <= l < members@.len() ==> #[trigger] members@[l] < old(out)@.len(),
        forall|a: int, b: int| 0 <= a < b < members@.len() ==> members@[a] != members@[b],
    ensures
        final(out)@.len() == old(out)@.len(),
        forall|l: int|
            0 <= l < members@.len() ==> final(out)@[#[trigger] members@[l] as int] == values@[l],
        forall|g: int|
            0 <= g < old(out)@.len() && (forall|l: int|
                0 <= l < members@.len() ==> #[trigger] members@[l] != g) ==> #[trigger] final(out)@[g]
                == old(out)@[g],
{
    let mut l: usize = 0;
    while l < members.len()
        invariant
            members@.len() == values@.len(),
            out@.len() == old(out)@.len(),
            forall|c: int| 0 <= c < members@.len() ==> #[trigger] members@[c] < out@.len(),
            forall|a: int, b: int| 0 <= a < b < members@.len() ==> members@[a] != members@[b],
            l <= members@.len(),
            forall|c: int| 0 <= c < l ==> out@[#[trigger] members@[c] as int] == values@[c],
            forall|g: int|
                0 <= g < out@.len() && (forall|c: int|
                    0 <= c < l ==> #[trigger] members@[c] != g) ==> #[trigger] out@[g] == old(out)@[g],
        decreases members@.len() - l,
    {
        out.set(members[l] as usize, values[l]);
        l += 1;
    }
}

/// Tells whether every operand names a qubit below `n`.
pub fn all_below(ops: &Vec<u32>, n: u32) -> (r: bool)
    ensures
        r == operands_below(ops@, n as nat),
{
    let mut i: usize = 0;
    while i < ops.len()
        invariant
            i <= ops@.len(),
            forall|c: int| 0 <= c < i ==> #[trigger] ops@[c] < n,
        decreases ops@.len() - i,
    {
        if ops[i] >= n {
            return false;
        }
        i += 1;
    }
    true
}

/// Tells whether no qubit is named twice among the operands.
pub fn all_distinct(ops: &Vec<u32>) -> (r: bool)
    ensures
        r == operands_distinct(ops@),
{
    let mut j: usize = 0;
    while j < ops.len()
        invariant
            j <= ops@.len(),
            forall|a: int, b: int| 0 <= a < b < j ==> ops@[a] != ops@[b],
        decreases ops@.len() - j,
    {
        let mut i: usize = 0;
        while i < j
            invariant
                j < ops@.len(),
                i <= j,
                forall|a: int| 0 <= a < i ==> ops@[a] != ops@[j as int],
            decreases j - i,
        {
            if ops[i] == ops[j] {
                return false;
            }
            i += 1;
        }
        j += 1;
    }
    true
}

} // verus!
