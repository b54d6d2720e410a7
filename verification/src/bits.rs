//! Arithmetic on the low-order bits of directory slot numbers.
//!
//! A directory of depth `d` addresses its slots by the `d` low-order bits of
//! a hash value. Everything the index needs to know about those bits is
//! stated here over `low_bits`, the remainder modulo a power of two, together
//! with the executable mask, shift and exclusive-or operations that compute
//! it.

use vstd::arithmetic::div_mod::{
    lemma_fundamental_div_mod, lemma_mod_bound, lemma_mod_mod, lemma_mod_multiples_vanish,
    lemma_small_mod,
};
use vstd::arithmetic::power2::{
    lemma_pow2_adds, lemma_pow2_pos, lemma_pow2_strictly_increases, lemma_pow2_unfold, pow2,
};
use vstd::bits::{
    low_bits_mask, lemma_usize_low_bits_mask_is_mod, lemma_usize_pow2_no_overflow,
    lemma_usize_shl_is_mul,
};
use vstd::prelude::*;

verus! {

/// The value of the `depth` low-order bits of `x`.
pub open spec fn low_bits(x: int, depth: nat) -> int {
    x % (pow2(depth) as int)
}

/// The slot that differs from `slot` exactly in bit `depth - 1`: its
/// sibling at that depth.
pub open spec fn sibling(slot: usize, depth: nat) -> usize {
    slot ^ (1usize << ((depth - 1) as usize))
}

/// The largest depth whose slot numbers fit in a machine word.
pub open spec fn max_depth() -> nat {
    (usize::BITS - 1) as nat
}

/// The low-order bits of a number lie below the corresponding power of two.
pub proof fn lemma_low_bits_range(x: int, depth: nat)
    ensures
        0 <= low_bits(x, depth) < pow2(depth),
{
    lemma_pow2_pos(depth);
    lemma_mod_bound(x, pow2(depth) as int);
}

/// A number below `2^depth` is its own `depth` low-order bits.
pub proof fn lemma_low_bits_small(x: int, depth: nat)
    requires
        0 <= x < pow2(depth),
    ensures
        low_bits(x, depth) == x,
{
    lemma_small_mod(x as nat, pow2(depth));
}

/// Taking fewer bits of the low-order bits gives the same as taking them of
/// the number itself.
pub proof fn lemma_low_bits_nested(x: int, fine: nat, coarse: nat)
    requires
        coarse <= fine,
    ensures
        low_bits(low_bits(x, fine), coarse) == low_bits(x, coarse),
{
    let rest = (fine - coarse) as nat;
    lemma_pow2_adds(coarse, rest);
    lemma_pow2_pos(coarse);
    lemma_pow2_pos(rest);
    lemma_mod_mod(x, pow2(coarse) as int, pow2(rest) as int);
}

/// Numbers that agree on their `fine` low-order bits agree on any fewer.
pub proof fn lemma_low_bits_coarser(x: int, y: int, fine: nat, coarse: nat)
    requires
        coarse <= fine,
        low_bits(x, fine) == low_bits(y, fine),
    ensures
        low_bits(x, coarse) == low_bits(y, coarse),
{
    lemma_low_bits_nested(x, fine, coarse);
    lemma_low_bits_nested(y, fine, coarse);
}

/// One more bit either leaves the low-order bits as they are or adds the
/// new bit's weight.
pub proof fn lemma_low_bits_step(x: int, depth: nat)
    ensures
        low_bits(x, depth + 1) == low_bits(x, depth) || low_bits(x, depth + 1) == low_bits(x, depth)
            + pow2(depth),
{
    let wide = low_bits(x, depth + 1);
    lemma_low_bits_range(x, depth + 1);
    lemma_low_bits_nested(x, depth + 1, depth);
    lemma_pow2_unfold(depth + 1);
    lemma_pow2_pos(depth);
    if wide < pow2(depth) {
        lemma_low_bits_small(wide, depth);
    } else {
        lemma_low_bits_small(wide - pow2(depth), depth);
        lemma_mod_multiples_vanish(1, wide - pow2(depth), pow2(depth) as int);
    }
}

/// Adding a multiple of `2^depth` leaves the `depth` low-order bits alone.
pub proof fn lemma_low_bits_periodic(x: int, times: int, depth: nat)
    ensures
        low_bits(x + times * pow2(depth), depth) == low_bits(x, depth),
{
    lemma_pow2_pos(depth);
    lemma_mod_multiples_vanish(times, x, pow2(depth) as int);
    assert(pow2(depth) * times + x == x + times * pow2(depth)) by (nonlinear_arith);
}

/// Two numbers less than `2^depth` apart with the same `depth` low-order
/// bits are the same number.
pub proof fn lemma_low_bits_window(a: int, b: int, depth: nat)
    requires
        a <= b < a + pow2(depth),
        low_bits(a, depth) == low_bits(b, depth),
    ensures
        a == b,
{
    let m = pow2(depth) as int;
    lemma_pow2_pos(depth);
    lemma_fundamental_div_mod(a, m);
    lemma_fundamental_div_mod(b, m);
    let qa = a / m;
    let qb = b / m;
    assert(b - a == m * (qb - qa)) by (nonlinear_arith)
        requires
            a == m * qa + a % m,
            b == m * qb + b % m,
            a % m == b % m,
    ;
    assert(qb - qa == 0) by (nonlinear_arith)
        requires
            0 <= m * (qb - qa) < m,
            m > 0,
    ;
}

/// Powers of two grow with the exponent.
pub proof fn lemma_pow2_monotone(small: nat, large: nat)
    requires
        small <= large,
    ensures
        pow2(small) <= pow2(large),
{
    if small < large {
        lemma_pow2_strictly_increases(small, large);
    }
}

/// What the sibling of a slot shares with it and where it differs.
pub proof fn lemma_sibling(slot: usize, depth: nat)
    requires
        1 <= depth <= max_depth(),
    ensures
        low_bits(sibling(slot, depth) as int, (depth - 1) as nat) == low_bits(
            slot as int,
            (depth - 1) as nat,
        ),
        low_bits(sibling(slot, depth) as int, depth) != low_bits(slot as int, depth),
        sibling(sibling(slot, depth), depth) == slot,
{
    let k = (depth - 1) as usize;
    let bit = 1usize << k;
    let other = sibling(slot, depth);
    lemma_usize_pow2_no_overflow(k as nat);
    lemma_usize_pow2_no_overflow(depth);
    lemma_usize_shl_is_mul(1, k);
    assert(bit == pow2(k as nat));
    assert(other ^ bit == slot) by (bit_vector)
        requires
            other == slot ^ bit,
    ;
    assert((slot & bit) == 0 ==> other == slot + bit) by (bit_vector)
        requires
            other == slot ^ bit,
            bit == 1usize << k,
            k < usize::BITS,
    ;
    assert((slot & bit) != 0 ==> other == slot - bit) by (bit_vector)
        requires
            other == slot ^ bit,
            bit == 1usize << k,
            k < usize::BITS,
    ;
    let sign: int = if (slot & bit) == 0 {
        1
    } else {
        -1
    };
    assert(other == slot + sign * pow2(k as nat)) by (nonlinear_arith)
        requires
            bit == pow2(k as nat),
            (slot & bit) == 0 ==> other == slot + bit,
            (slot & bit) != 0 ==> other == slot - bit,
            sign == (if (slot & bit) == 0 {
                1int
            } else {
                -1int
            }),
    ;
    lemma_low_bits_periodic(slot as int, sign, k as nat);
    lemma_pow2_unfold(depth);
    lemma_pow2_pos(k as nat);
    if low_bits(other as int, depth) == low_bits(slot as int, depth) {
        if sign == 1 {
            lemma_low_bits_window(slot as int, other as int, depth);
        } else {
            lemma_low_bits_window(other as int, slot as int, depth);
        }
    }
}

/// The sibling of a slot of a directory is a slot of that directory.
pub proof fn lemma_sibling_in_directory(slot: usize, depth: nat, global: nat)
    requires
        1 <= depth <= global <= max_depth(),
        slot < pow2(global),
    ensures
        sibling(slot, depth) < pow2(global),
{
    let k = (depth - 1) as usize;
    let g = global as usize;
    lemma_usize_pow2_no_overflow(global);
    lemma_usize_shl_is_mul(1, g);
    assert(slot ^ (1usize << k) < (1usize << g)) by (bit_vector)
        requires
            k < g,
            g < usize::BITS,
            slot < (1usize << g),
    ;
}

/// A slot with the `depth - 1` low-order bits of `slot` has the `depth`
/// low-order bits either of `slot` or of its sibling.
pub proof fn lemma_sibling_covers(slot: usize, other: int, depth: nat)
    requires
        1 <= depth <= max_depth(),
        low_bits(other, (depth - 1) as nat) == low_bits(slot as int, (depth - 1) as nat),
    ensures
        low_bits(other, depth) == low_bits(slot as int, depth) || low_bits(other, depth)
            == low_bits(sibling(slot, depth) as int, depth),
{
    let below = (depth - 1) as nat;
    lemma_sibling(slot, depth);
    lemma_low_bits_step(other, below);
    lemma_low_bits_step(slot as int, below);
    lemma_low_bits_step(sibling(slot, depth) as int, below);
}

/// The slots of a directory of depth `global` whose `depth` low-order bits
/// are `suffix`.
pub open spec fn slots_with(depth: nat, suffix: int, global: nat) -> Set<int> {
    Set::new(|slot: int| 0 <= slot < pow2(global) && low_bits(slot, depth) == suffix)
}

/// A directory of depth `global` has `2^(global - depth)` slots with any
/// given `depth` low-order bits.
pub proof fn lemma_slots_with_count(depth: nat, suffix: int, global: nat)
    requires
        depth <= global,
        0 <= suffix < pow2(depth),
    ensures
        slots_with(depth, suffix, global).finite(),
        slots_with(depth, suffix, global).len() == pow2((global - depth) as nat),
{
    let rest = (global - depth) as nat;
    let unit = pow2(depth) as int;
    let turns = vstd::set_lib::set_int_range(0, pow2(rest) as int);
    let place = |turn: int| suffix + turn * unit;
    let slots = slots_with(depth, suffix, global);
    lemma_pow2_pos(depth);
    lemma_pow2_adds(depth, rest);
    vstd::set_lib::lemma_int_range(0, pow2(rest) as int);
    assert(vstd::relations::injective_on(place, turns)) by {
        assert forall|a: int, b: int| #[trigger] place(a) == #[trigger] place(b) implies a == b by {
            assert(a * unit == b * unit ==> a == b) by (nonlinear_arith)
                requires
                    unit > 0,
            ;
        }
    }
    assert(turns.map(place) =~= slots) by {
        assert forall|slot: int| slots.contains(slot) implies turns.map(place).contains(slot) by {
            let turn = slot / unit;
            lemma_fundamental_div_mod(slot, unit);
            assert(0 <= turn < pow2(rest)) by (nonlinear_arith)
                requires
                    slot == unit * turn + suffix,
                    0 <= suffix < unit,
                    0 <= slot < unit * pow2(rest),
            ;
            assert(unit * turn == turn * unit) by (nonlinear_arith);
            assert(turns.contains(turn) && place(turn) == slot);
        }
        assert forall|slot: int| turns.map(place).contains(slot) implies slots.contains(slot) by {
            let turn = choose|turn: int| turns.contains(turn) && place(turn) == slot;
            lemma_low_bits_periodic(suffix, turn, depth);
            lemma_low_bits_small(suffix, depth);
            assert(0 <= suffix + turn * unit < unit * pow2(rest)) by (nonlinear_arith)
                requires
                    0 <= turn < pow2(rest),
                    0 <= suffix < unit,
            ;
        }
    }
    vstd::set_lib::lemma_map_size(turns, slots, place);
}

/// The digit, `'0'` or `'1'`, that bit `position` of `x` contributes to the
/// binary numeral of `x`.
pub open spec fn binary_digit(x: int, position: nat) -> char {
    if (x / (pow2(position) as int)) % 2 == 1 {
        '1'
    } else {
        '0'
    }
}

/// The `width` low-order bits of `x` as a binary numeral, most significant
/// digit first.
pub open spec fn binary_numeral(x: int, width: nat) -> Seq<char> {
    Seq::new(width, |place: int| binary_digit(x, (width - 1 - place) as nat))
}

/// Whether bit `position` of `x` is set.
pub fn bit_is_set(x: usize, position: usize) -> (set: bool)
    requires
        position <= max_depth(),
    ensures
        set == (binary_digit(x as int, position as nat) == '1'),
{
    let shifted = x >> position;
    proof {
        vstd::bits::lemma_usize_shr_is_div(x, position);
        assert(shifted & 1 == shifted % 2) by (bit_vector);
    }
    shifted & 1 == 1
}

/// The largest depth whose slot numbers fit in a machine word.
pub fn depth_limit() -> (limit: usize)
    ensures
        limit == max_depth(),
{
    (usize::BITS - 1) as usize
}

/// `2^depth`, for a depth whose slot numbers fit in a machine word.
pub fn power_of_two(depth: usize) -> (power: usize)
    requires
        depth <= max_depth(),
    ensures
        power == pow2(depth as nat),
{
    proof {
        lemma_usize_pow2_no_overflow(depth as nat);
        lemma_usize_shl_is_mul(1, depth);
    }
    1usize << depth
}

/// The `depth` low-order bits of `x`, by masking.
pub fn mask_low(x: usize, depth: usize) -> (low: usize)
    requires
        depth <= max_depth(),
    ensures
        low == low_bits(x as int, depth as nat),
{
    let power = power_of_two(depth);
    proof {
        lemma_pow2_pos(depth as nat);
        lemma_usize_low_bits_mask_is_mod(x, depth as nat);
        assert(low_bits_mask(depth as nat) == power - 1);
    }
    x & (power - 1)
}

/// The sibling of `slot` at `depth`, by flipping bit `depth - 1`.
pub fn flip_top_bit(slot: usize, depth: usize) -> (other: usize)
    requires
        1 <= depth <= max_depth(),
    ensures
        other == sibling(slot, depth as nat),
{
    let bit: usize = 1usize << (depth - 1);
    assert(bit ^ slot == slot ^ bit) by (bit_vector);
    bit ^ slot
}

} // verus!
