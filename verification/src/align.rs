//! Arithmetic of alignments.

use vstd::arithmetic::div_mod::{
    lemma_fundamental_div_mod, lemma_mod_multiples_vanish, lemma_small_mod,
};
use vstd::arithmetic::power2::{lemma_pow2_pos, lemma_pow2_strictly_increases, lemma_pow2_unfold, pow2};
use vstd::prelude::*;

verus! {

/// The bytes that are missing from `size` to a multiple of `alignment`.
pub open spec fn padding(size: int, alignment: int) -> int {
    if size % alignment == 0 {
        0
    } else {
        alignment - size % alignment
    }
}

/// The smallest multiple of `alignment` that is at least `size`.
pub open spec fn aligned(size: int, alignment: int) -> int {
    size + padding(size, alignment)
}

/// `aligned` is what it says.
pub proof fn lemma_aligned(size: int, alignment: int)
    requires
        0 <= size,
        0 < alignment,
    ensures
        0 <= padding(size, alignment) < alignment,
        aligned(size, alignment) % alignment == 0,
        forall|other: int| #![trigger other % alignment]
            size <= other && other % alignment == 0 ==> aligned(size, alignment) <= other,
{
    let quotient = size / alignment;
    let rest = size % alignment;
    lemma_fundamental_div_mod(size, alignment);
    assert(0 <= rest < alignment) by (nonlinear_arith)
        requires
            rest == size % alignment,
            0 < alignment,
    ;
    let steps = if rest == 0 { quotient } else { quotient + 1 };
    assert(aligned(size, alignment) == alignment * steps) by (nonlinear_arith)
        requires
            aligned(size, alignment) == if rest == 0 { size } else { size + alignment - rest },
            size == alignment * quotient + rest,
            steps == if rest == 0 { quotient } else { quotient + 1 },
    ;
    assert((alignment * steps) % alignment == 0) by {
        lemma_mod_multiples_vanish(steps, 0, alignment);
    }
    assert forall|other: int|
        size <= other && #[trigger] (other % alignment) == 0 implies aligned(size, alignment)
        <= other by {
        let other_steps = other / alignment;
        lemma_fundamental_div_mod(other, alignment);
        assert(steps <= other_steps) by (nonlinear_arith)
            requires
                0 < alignment,
                0 <= rest < alignment,
                size == alignment * quotient + rest,
                other == alignment * other_steps,
                size <= other,
                steps == if rest == 0 { quotient } else { quotient + 1 },
        ;
        assert(alignment * steps <= alignment * other_steps) by (nonlinear_arith)
            requires
                0 < alignment,
                steps <= other_steps,
        ;
    }
}

/// The sum of two multiples of `alignment` is one.
pub proof fn lemma_aligned_sum(a: int, b: int, alignment: int)
    requires
        0 < alignment,
        a % alignment == 0,
        b % alignment == 0,
    ensures
        (a + b) % alignment == 0,
{
    lemma_fundamental_div_mod(a, alignment);
    lemma_fundamental_div_mod(b, alignment);
    let steps = a / alignment + b / alignment;
    assert(a + b == alignment * steps) by (nonlinear_arith)
        requires
            a == alignment * (a / alignment),
            b == alignment * (b / alignment),
            steps == a / alignment + b / alignment,
    ;
    lemma_mod_multiples_vanish(steps, 0, alignment);
}

/// The difference of two multiples of `alignment` is one.
pub proof fn lemma_aligned_difference(a: int, b: int, alignment: int)
    requires
        0 < alignment,
        a % alignment == 0,
        b % alignment == 0,
    ensures
        (a - b) % alignment == 0,
{
    lemma_fundamental_div_mod(a, alignment);
    lemma_fundamental_div_mod(b, alignment);
    let steps = a / alignment - b / alignment;
    assert(a - b == alignment * steps) by (nonlinear_arith)
        requires
            a == alignment * (a / alignment),
            b == alignment * (b / alignment),
            steps == a / alignment - b / alignment,
    ;
    lemma_mod_multiples_vanish(steps, 0, alignment);
}

/// Only one multiple of `alignment` holds `size` and is less than `alignment` larger.
pub proof fn lemma_is_aligned(size: int, need: int, alignment: int)
    requires
        0 <= size,
        0 < alignment,
        need % alignment == 0,
        size <= need < size + alignment,
    ensures
        need == aligned(size, alignment),
{
    lemma_aligned(size, alignment);
    let more = need - aligned(size, alignment);
    lemma_aligned_difference(need, aligned(size, alignment), alignment);
    assert(aligned(size, alignment) <= need);
    assert(more == 0) by {
        lemma_small_mod(more as nat, alignment as nat);
    }
}

/// The bytes to add to `size` so that what follows is aligned.
pub fn calculate_padding(size: u64, alignment: u64) -> (bytes: u64)
    requires
        alignment > 0,
    ensures
        bytes == padding(size as int, alignment as int),
        bytes < alignment,
        (size + bytes) % (alignment as int) == 0,
{
    proof {
        lemma_aligned(size as int, alignment as int);
    }
    let rest: u64 = size % alignment;
    if rest == 0 {
        0
    } else {
        alignment - rest
    }
}

/// The smallest multiple of `alignment` that is at least `size`.
pub fn next_multiple_of(size: u64, alignment: u64) -> (multiple: u64)
    requires
        alignment > 0,
        aligned(size as int, alignment as int) <= u64::MAX,
    ensures
        multiple == aligned(size as int, alignment as int),
{
    size + calculate_padding(size, alignment)
}

/// Whether `power` is the smallest power of two that is at least `n`.
pub open spec fn is_next_power_of_two(power: nat, n: nat) -> bool {
    &&& n <= power
    &&& exists|exponent: nat| power == #[trigger] pow2(exponent)
    &&& forall|exponent: nat| #![trigger pow2(exponent)]
        n <= pow2(exponent) ==> power <= pow2(exponent)
}

/// The smallest power of two that is at least `n`.
pub fn next_power_of_two(n: usize) -> (power: usize)
    requires
        n <= usize::MAX / 2 + 1,
    ensures
        is_next_power_of_two(power as nat, n as nat),
{
    let mut power: usize = 1;
    let ghost mut exponent: nat = 0;
    proof {
        assert(pow2(0) == 1) by {
            vstd::arithmetic::power2::lemma2_to64();
        }
    }
    while power < n
        invariant
            n <= usize::MAX / 2 + 1,
            power == pow2(exponent),
            power > 0,
            exponent > 0 ==> pow2((exponent - 1) as nat) < n,
        decreases usize::MAX - power,
    {
        proof {
            lemma_pow2_unfold(exponent + 1);
            lemma_pow2_pos(exponent);
            exponent = exponent + 1;
        }
        power = power * 2;
    }
    proof {
        assert forall|other: nat| n <= #[trigger] pow2(other) implies power <= pow2(other) by {
            if other < exponent {
                if other < exponent - 1 {
                    lemma_pow2_strictly_increases(other, (exponent - 1) as nat);
                }
            } else if exponent < other {
                lemma_pow2_strictly_increases(exponent, other);
            }
        }
    }
    power
}

/// `value`, or the end of the range from `low` to `high` that it lies beyond.
pub open spec fn clamped(value: int, low: int, high: int) -> int {
    if value < low {
        low
    } else if value > high {
        high
    } else {
        value
    }
}

/// Calculates a best-effort heuristic for the alignment of row-aligned tensors.
/// Prefers contiguous alignments for unit dimensions, 16-byte minimum alignment for non-unit,
/// scaling with input size up to `buffer_align`.
pub fn optimal_align(shape: usize, elem_size: usize, buffer_align: usize) -> (align: usize)
    requires
        shape != 1 ==> {
            &&& shape * elem_size <= usize::MAX / 2 + 1
            &&& 16 <= buffer_align
        },
    ensures
        shape == 1 ==> align == elem_size,
        shape != 1 ==> exists|power: nat| #[trigger]
            is_next_power_of_two(power, (shape * elem_size) as nat) && align == clamped(
                power as int,
                16,
                buffer_align as int,
            ),
{
    if shape == 1 {
        elem_size
    } else {
        let power: usize = next_power_of_two(shape * elem_size);
        assert(is_next_power_of_two(power as nat, (shape * elem_size) as nat));
        if power < 16 {
            16
        } else if power > buffer_align {
            buffer_align
        } else {
            power
        }
    }
}

/// There is only one power of two that is the next one.
pub proof fn lemma_next_power_of_two_is_unique(a: nat, b: nat, n: nat)
    requires
        is_next_power_of_two(a, n),
        is_next_power_of_two(b, n),
    ensures
        a == b,
{
    let i = choose|exponent: nat| a == #[trigger] pow2(exponent);
    let j = choose|exponent: nat| b == #[trigger] pow2(exponent);
    assert(n <= pow2(i) && n <= pow2(j));
}

} // verus!
