//! The generator state and its derivation operations.
//!
//! The register holds 48 bits, stored widened in a `u64` whose upper 16 bits
//! are always zero. Spec functions below give the mathematical model: how a
//! raw seed is scrambled on construction ([`scramble`]), how one step of the
//! congruence moves the register ([`advance`]), and how a draw reads the top
//! bits of the register as a signed 32-bit value ([`extract`]).

use vstd::prelude::*;

verus! {

use vstd::arithmetic::div_mod::{
    lemma_add_mod_noop, lemma_div_multiples_vanish, lemma_fundamental_div_mod,
    lemma_mod_breakdown, lemma_mod_equivalence, lemma_mod_multiples_basic,
    lemma_mul_mod_noop_general, lemma_mul_mod_noop_left, lemma_small_mod,
};
use vstd::arithmetic::power::pow;
use vstd::arithmetic::power2::pow2;

/// The multiplier of the congruence `seed' = (seed * MULTIPLIER + INCREMENT) mod 2^48`.
pub const MULTIPLIER: u64 = 0x5DEECE66D;

/// The increment of the congruence.
pub const INCREMENT: u64 = 0xB;

/// The register keeps 48 bits: every stored seed `s` satisfies `s & SEED_MASK == s`.
pub const SEED_MASK: u64 = 0xFFFF_FFFF_FFFF;

/// The number of distinct register states, `SEED_MASK + 1 == 2^48`.
pub const STATE_COUNT: u64 = 0x1_0000_0000_0000;

/// The register value a raw caller-supplied seed is scrambled into before it
/// is stored: the seed's 64-bit pattern XORed with the multiplier, masked to
/// 48 bits.
pub open spec fn scramble(raw: i64) -> u64 {
    ((raw as u64) ^ MULTIPLIER) & SEED_MASK
}

/// One advance of the register: the linear congruence modulo 2^48.
pub open spec fn advance(s: u64) -> u64 {
    ((s * MULTIPLIER + INCREMENT) % (STATE_COUNT as int)) as u64
}

/// `n` advances of the register.
pub open spec fn advance_n(s: u64, n: nat) -> u64
    decreases n,
{
    if n == 0 {
        s
    } else {
        advance(advance_n(s, (n - 1) as nat))
    }
}

/// The low 32 bits of `x` read as a two's-complement signed value.
/// Every use keeps `x` below 2^32.
pub open spec fn to_signed_32(x: u64) -> i32 {
    if x < 0x8000_0000 {
        x as i32
    } else {
        ((x - 0x1_0000_0000) as i32)
    }
}

/// What a `bits`-wide draw reads once the register holds `s`: the top `bits`
/// bits of the 48-bit register, as a signed 32-bit value. Only widths 1 to 32
/// occur.
pub open spec fn extract(s: u64, bits: i32) -> i32 {
    to_signed_32(s >> ((48 - bits) as u64))
}

/// The `k`-th (0-based) value an unbounded 32-bit draw yields from register
/// state `s`.
pub open spec fn nth_int(s: u64, k: nat) -> i32 {
    extract(advance_n(s, k + 1), 32)
}

/// A 32-bit draw arithmetically shifted right by `j` bytes.
pub open spec fn peeled(r: i32, j: nat) -> i32
    decreases j,
{
    if j == 0 {
        r
    } else {
        peeled(r, (j - 1) as nat) >> 8i32
    }
}

/// Byte `j` (0 = lowest) that one 32-bit draw `r` contributes to a byte
/// fill: the low 8 bits left after `j` arithmetic right shifts by 8.
pub open spec fn byte_of_draw(r: i32, j: int) -> u8 {
    peeled(r, j as nat) as u8
}

/// The byte a fill starting from register state `s` writes at index `i`:
/// draw `i / 4` supplies its `i % 4`-th byte.
pub open spec fn filled_byte(s: u64, i: int) -> u8 {
    byte_of_draw(nth_int(s, (i / 4) as nat), i % 4)
}

/// Advancing the register `m` times and then `n` more advances it `m + n`
/// times.
pub proof fn lemma_advance_n_add(s: u64, m: nat, n: nat)
    ensures
        advance_n(advance_n(s, m), n) == advance_n(s, m + n),
    decreases n,
{
    if n > 0 {
        lemma_advance_n_add(s, m, (n - 1) as nat);
    }
}

/// The signed 64-bit value the long draw assembles from two 32-bit draws:
/// the first shifted up by 32 and the second added, with silent wraparound.
pub open spec fn long_from(hi: i32, lo: i32) -> i64 {
    (hi * 0x1_0000_0000 + lo) as i64
}

/// Draws of fewer than 32 bits read the register's top bits as nonnegative
/// values below the corresponding power of two.
pub proof fn lemma_extract_small(s: u64)
    requires
        s <= SEED_MASK,
    ensures
        0 <= extract(s, 1) <= 1,
        0 <= extract(s, 24) < 0x100_0000,
        0 <= extract(s, 26) < 0x400_0000,
        0 <= extract(s, 27) < 0x800_0000,
        0 <= extract(s, 31) < 0x8000_0000,
{
    assert(0 <= to_signed_32(s >> 47u64) <= 1 && 0 <= to_signed_32(s >> 24u64) < 0x100_0000
        && 0 <= to_signed_32(s >> 22u64) < 0x400_0000 && 0 <= to_signed_32(s >> 21u64)
        < 0x800_0000 && 0 <= to_signed_32(s >> 17u64) < 0x8000_0000) by (bit_vector)
        requires
            s <= 0xFFFF_FFFF_FFFFu64,
    ;
}

/// An advanced register always fits back in 48 bits.
pub proof fn lemma_advance_in_range(s: u64)
    ensures
        advance(s) <= SEED_MASK,
{
}

/// The power-of-two test the bounded draw uses: `b & -b == b` over the
/// bound's two's-complement image.
pub open spec fn bound_is_pow2(b: u32) -> bool {
    b & ((0x1_0000_0000 - b) as u32) == b
}

/// The bounded draw's power-of-two path: `(b * next(31)) >> 31`. The product
/// stays below 2^62, so the shift is an exact division by 2^31.
pub open spec fn scaled_draw(b: u32, bits: i32) -> int {
    (b * bits) / 0x8000_0000
}

/// Whether the rejection loop accepts the 31-bit read `bits` for bound `b`:
/// exactly when `bits - bits % b + (b - 1)` fits in a signed 32-bit integer.
/// The reference algorithm computes that sum with wraparound and redraws when
/// it comes out negative, cutting off the biased top of the 31-bit range.
pub open spec fn draw_accepted(bits: i32, b: u32) -> bool {
    bits - bits % (b as i32) + b - 1 < 0x8000_0000
}

/// One draw of the rejection loop from register state `s`, with `fuel`
/// redraws still allowed: the final register state, and the first accepted
/// remainder — or, to keep the recursion well-founded, the last remainder
/// drawn once the fuel is spent. The contracts pass a full period of the
/// register, 2^48 draws, as fuel, and the fuel-spent case provably never
/// arises: an accepted read always lies within one period
/// ([`lemma_acceptance_exists`]), so the named draw is the genuinely first
/// accepted one, unchanged by any larger fuel
/// ([`lemma_bounded_draw_is_reference`]) — exactly what the reference
/// algorithm's unbounded loop returns.
#[verifier::opaque]
pub open spec fn rejection_draw(s: u64, b: u32, fuel: nat) -> (u64, int)
    decreases fuel,
{
    let s1 = advance(s);
    let bits = extract(s1, 31);
    let val = (bits % (b as i32)) as int;
    if draw_accepted(bits, b) || fuel == 0 {
        (s1, val)
    } else {
        rejection_draw(s1, b, (fuel - 1) as nat)
    }
}

/// Bounded-draw range, power-of-two path: scaling a 31-bit read down by 2^31
/// always lands in `[0, b)`.
pub proof fn lemma_scaled_draw_range(b: u32, bits: i32)
    requires
        1 <= b,
        0 <= bits < 0x8000_0000,
    ensures
        0 <= scaled_draw(b, bits) < b,
{
    assert((b as int) * (bits as int) < 0x8000_0000 * (b as int)) by (nonlinear_arith)
        requires
            0 <= bits < 0x8000_0000 && 1 <= b,
    ;
    vstd::arithmetic::div_mod::lemma_multiply_divide_lt(
        (b as int) * (bits as int),
        0x8000_0000,
        b as int,
    );
    assert((b as int) * (bits as int) >= 0) by (nonlinear_arith)
        requires
            0 <= bits && 1 <= b,
    ;
}

/// Bounded-draw range, rejection path: from any register state and with any
/// fuel, the draw is a remainder modulo the bound, so it lands in `[0, b)`,
/// and the register it leaves behind still fits in 48 bits.
pub proof fn lemma_rejection_draw_range(s: u64, b: u32, fuel: nat)
    requires
        1 <= b < 0x8000_0000,
    ensures
        0 <= rejection_draw(s, b, fuel).1 < b,
        rejection_draw(s, b, fuel).0 <= SEED_MASK,
    decreases fuel,
{
    reveal_with_fuel(rejection_draw, 1);
    let s1 = advance(s);
    let bits = extract(s1, 31);
    if !(draw_accepted(bits, b) || fuel == 0) {
        lemma_rejection_draw_range(s1, b, (fuel - 1) as nat);
    }
}

/// The congruence permutes the 48-bit states: distinct registers advance to
/// distinct registers, because the multiplier is odd. Every orbit of states
/// is therefore purely periodic — the sequence never collapses and never
/// halts.
pub proof fn lemma_advance_injective(s1: u64, s2: u64)
    requires
        s1 <= SEED_MASK,
        s2 <= SEED_MASK,
        advance(s1) == advance(s2),
    ensures
        s1 == s2,
{
    if s1 < s2 {
        lemma_advance_ordered_distinct(s2, s1);
    } else if s2 < s1 {
        lemma_advance_ordered_distinct(s1, s2);
    }
}

/// Two ordered distinct 48-bit states advance to different registers: their
/// difference times the odd multiplier is no multiple of 2^48.
proof fn lemma_advance_ordered_distinct(s1: u64, s2: u64)
    requires
        s2 < s1 <= SEED_MASK,
    ensures
        advance(s1) != advance(s2),
{
    if advance(s1) == advance(s2) {
        let p = STATE_COUNT as int;
        let x = s1 * MULTIPLIER + INCREMENT;
        let y = s2 * MULTIPLIER + INCREMENT;
        assert(x % p == y % p);
        vstd::arithmetic::div_mod::lemma_fundamental_div_mod(x, p);
        vstd::arithmetic::div_mod::lemma_fundamental_div_mod(y, p);
        let k = x / p - y / p;
        assert(x - y == p * k);
        let du: u64 = (s1 - s2) as u64;
        assert(du * MULTIPLIER == p * k);
        vstd::arithmetic::div_mod::lemma_mod_multiples_basic(k, p);
        assert((du * MULTIPLIER) % p == 0);
        assert((du * 0x5DEECE66Du64) % 0x1_0000_0000_0000 != 0) by (bit_vector)
            requires
                1u64 <= du < 0x1_0000_0000_0000u64,
        ;
    }
}

/// Every iterate of a 48-bit state is again a 48-bit state.
pub proof fn lemma_advance_n_range(s: u64, n: nat)
    requires
        s <= SEED_MASK,
    ensures
        advance_n(s, n) <= SEED_MASK,
    decreases n,
{
    if n > 0 {
        lemma_advance_n_range(s, (n - 1) as nat);
    }
}

/// A collision between two iterates peels back, one injective step at a
/// time, to a return to the starting state after `j - i` advances.
proof fn lemma_collision_peels(s: u64, i: nat, j: nat)
    requires
        s <= SEED_MASK,
        i < j,
        advance_n(s, i) == advance_n(s, j),
    ensures
        advance_n(s, (j - i) as nat) == s,
    decreases i,
{
    if i > 0 {
        assert(advance_n(s, i) == advance(advance_n(s, (i - 1) as nat)));
        assert(advance_n(s, j) == advance(advance_n(s, (j - 1) as nat)));
        lemma_advance_n_range(s, (i - 1) as nat);
        lemma_advance_n_range(s, (j - 1) as nat);
        lemma_advance_injective(
            advance_n(s, (i - 1) as nat),
            advance_n(s, (j - 1) as nat),
        );
        lemma_collision_peels(s, (i - 1) as nat, (j - 1) as nat);
    }
}

/// The set of the first `n` iterates of `s`, as integers.
spec fn orbit_set(s: u64, n: int) -> Set<int> {
    Set::new(|v: int| exists|i: int| 0 <= i < n && #[trigger] advance_n(s, i as nat) == v)
}

/// While no two iterates have collided, the orbit set keeps growing: it
/// holds one value per iterate.
proof fn lemma_orbit_set_size(s: u64, n: int)
    requires
        s <= SEED_MASK,
        0 <= n,
        forall|i: int, j: int|
            0 <= i < j < n ==> #[trigger] advance_n(s, i as nat) != #[trigger] advance_n(
                s,
                j as nat,
            ),
    ensures
        orbit_set(s, n).finite(),
        orbit_set(s, n).len() == n,
    decreases n,
{
    if n == 0 {
        assert(orbit_set(s, 0) =~= Set::<int>::empty());
    } else {
        lemma_orbit_set_size(s, n - 1);
        let last = advance_n(s, (n - 1) as nat) as int;
        assert forall|v: int|
            orbit_set(s, n).contains(v) <==> orbit_set(s, n - 1).insert(last).contains(v) by {
            if orbit_set(s, n).contains(v) {
                let i = choose|i: int| 0 <= i < n && #[trigger] advance_n(s, i as nat) == v;
                if i < n - 1 {
                    assert(0 <= i < n - 1 && advance_n(s, i as nat) == v);
                }
            }
            if orbit_set(s, n - 1).insert(last).contains(v) {
                if v == last {
                    assert(0 <= n - 1 < n && advance_n(s, (n - 1) as nat) == v);
                } else {
                    let i = choose|i: int|
                        0 <= i < n - 1 && #[trigger] advance_n(s, i as nat) == v;
                    assert(0 <= i < n && advance_n(s, i as nat) == v);
                }
            }
        }
        assert(orbit_set(s, n) =~= orbit_set(s, n - 1).insert(last));
        if orbit_set(s, n - 1).contains(last) {
            let i = choose|i: int| 0 <= i < n - 1 && #[trigger] advance_n(s, i as nat) == last;
            assert(false);
        }
    }
}

/// Among the first 2^48 + 1 iterates of a state, two must coincide: there
/// are only 2^48 registers for them to land on.
proof fn lemma_orbit_collision(s: u64)
    requires
        s <= SEED_MASK,
    ensures
        exists|i: int, j: int|
            0 <= i < j <= STATE_COUNT as int && #[trigger] advance_n(s, i as nat)
                == #[trigger] advance_n(s, j as nat),
{
    let p = STATE_COUNT as int;
    if forall|i: int, j: int|
        0 <= i < j < p + 1 ==> #[trigger] advance_n(s, i as nat) != #[trigger] advance_n(
            s,
            j as nat,
        ) {
        lemma_orbit_set_size(s, p + 1);
        vstd::set_lib::lemma_int_range(0, p);
        assert forall|v: int| orbit_set(s, p + 1).contains(v) implies vstd::set_lib::set_int_range(
            0,
            p,
        ).contains(v) by {
            let i = choose|i: int| 0 <= i < p + 1 && #[trigger] advance_n(s, i as nat) == v;
            lemma_advance_n_range(s, i as nat);
        }
        vstd::set_lib::lemma_len_subset(
            orbit_set(s, p + 1),
            vstd::set_lib::set_int_range(0, p),
        );
        assert(false);
    }
}

/// Pure periodicity: every 48-bit register state returns to itself within
/// 2^48 advances. The orbit of the register is a cycle, so within one full
/// period — the fuel the bounded draw carries — every state the rejection
/// loop can ever reach has been visited.
pub proof fn lemma_orbit_returns(s: u64)
    requires
        s <= SEED_MASK,
    ensures
        exists|q: int| 1 <= q <= STATE_COUNT as int && #[trigger] advance_n(s, q as nat) == s,
{
    lemma_orbit_collision(s);
    let (i, j) = choose|i: int, j: int|
        0 <= i < j <= STATE_COUNT as int && #[trigger] advance_n(s, i as nat)
            == #[trigger] advance_n(s, j as nat);
    lemma_collision_peels(s, i as nat, j as nat);
    assert(1 <= j - i <= STATE_COUNT as int && advance_n(s, (j - i) as nat) == s);
}

/// Once some redraw is accepted at step `n`, any two fuels of at least `n`
/// give the rejection loop the same outcome: the first accepted draw.
proof fn lemma_fuel_independent(s: u64, b: u32, n: nat, f1: nat, f2: nat)
    requires
        s <= SEED_MASK,
        draw_accepted(extract(advance_n(s, n + 1), 31), b),
        n <= f1,
        n <= f2,
    ensures
        rejection_draw(s, b, f1) == rejection_draw(s, b, f2),
    decreases n,
{
    reveal_with_fuel(rejection_draw, 1);
    let s1 = advance(s);
    assert(advance_n(s, 1) == advance(advance_n(s, 0)));
    if !draw_accepted(extract(s1, 31), b) {
        assert(n >= 1);
        lemma_advance_n_add(s, 1, (n - 1) as nat + 1);
        assert(advance_n(s1, (n - 1) as nat + 1) == advance_n(s, n + 1));
        lemma_fuel_independent(s1, b, (n - 1) as nat, (f1 - 1) as nat, (f2 - 1) as nat);
    }
}

/// An acceptance anywhere in the infinite stream moves, by periodicity, to
/// an acceptance within the first 2^48 redraws.
proof fn lemma_acceptance_within_period(s: u64, b: u32, n: nat, q: nat)
    requires
        s <= SEED_MASK,
        draw_accepted(extract(advance_n(s, n + 1), 31), b),
        1 <= q <= STATE_COUNT,
        advance_n(s, q) == s,
    ensures
        exists|m: nat| m < q && draw_accepted(extract(#[trigger] advance_n(s, m + 1), 31), b),
    decreases n,
{
    if n < q {
        assert(n < q && draw_accepted(extract(advance_n(s, n + 1), 31), b));
    } else {
        lemma_advance_n_add(s, q, (n - q) as nat + 1);
        assert(advance_n(s, n + 1) == advance_n(s, (n - q) as nat + 1));
        lemma_acceptance_within_period(s, b, (n - q) as nat, q);
    }
}

/// Once some redraw at some step `n` is accepted, the full-period fuel of
/// 2^48 is enough: the draw named through `rejection_draw` is the genuinely
/// first accepted one, unchanged by any larger fuel.
proof fn lemma_full_period_fuel_suffices(s: u64, b: u32, n: nat, extra: nat)
    requires
        s <= SEED_MASK,
        draw_accepted(extract(advance_n(s, n + 1), 31), b),
    ensures
        rejection_draw(s, b, STATE_COUNT as nat) == rejection_draw(
            s,
            b,
            STATE_COUNT as nat + extra,
        ),
{
    lemma_orbit_returns(s);
    let q = choose|q: int| 1 <= q <= STATE_COUNT as int && #[trigger] advance_n(s, q as nat) == s;
    lemma_acceptance_within_period(s, b, n, q as nat);
    let m = choose|m: nat|
        m < q as nat && draw_accepted(extract(#[trigger] advance_n(s, m + 1), 31), b);
    lemma_fuel_independent(s, b, m, STATE_COUNT as nat, STATE_COUNT as nat + extra);
}

/// The geometric sum `1 + A + ... + A^(n-1)` of the multiplier's powers,
/// over the unbounded integers.
spec fn geo(n: nat) -> int
    decreases n,
{
    if n == 0 {
        0
    } else {
        geo((n - 1) as nat) + pow(MULTIPLIER as int, (n - 1) as nat)
    }
}

/// Every power of the multiplier is 1 modulo 4, as the multiplier is.
proof fn lemma_pow_mult_mod4(n: nat)
    ensures
        pow(MULTIPLIER as int, n) % 4 == 1,
    decreases n,
{
    reveal(pow);
    if n > 0 {
        lemma_pow_mult_mod4((n - 1) as nat);
        lemma_mul_mod_noop_general(
            MULTIPLIER as int,
            pow(MULTIPLIER as int, (n - 1) as nat),
            4,
        );
    }
}

/// A value that is 1 modulo 4 is odd.
proof fn lemma_mod4_one_is_odd(x: int)
    requires
        x % 4 == 1,
    ensures
        x % 2 == 1,
{
    lemma_fundamental_div_mod(x, 4);
    let q = x / 4;
    assert((2 * q) * 2 % 2 == 0) by {
        lemma_mod_multiples_basic(2 * q, 2);
    }
    assert(x == (2 * q) * 2 + 1) by (nonlinear_arith)
        requires
            x == 4 * q + 1,
    ;
    lemma_add_mod_noop((2 * q) * 2, 1, 2);
}

/// The geometric sum is positive from one term on.
proof fn lemma_geo_pos(n: nat)
    requires
        n >= 1,
    ensures
        geo(n) >= 1,
    decreases n,
{
    reveal(pow);
    vstd::arithmetic::power::lemma_pow_positive(MULTIPLIER as int, (n - 1) as nat);
    if n == 1 {
        assert(geo(0) == 0);
    } else {
        lemma_geo_pos((n - 1) as nat);
    }
}

/// Prepending a term: `geo(n) == 1 + A * geo(n - 1)`.
proof fn lemma_geo_prepend(n: nat)
    requires
        n >= 1,
    ensures
        geo(n) == 1 + (MULTIPLIER as int) * geo((n - 1) as nat),
    decreases n,
{
    reveal(pow);
    let a = MULTIPLIER as int;
    if n == 1 {
        assert(a * 0 == 0) by (nonlinear_arith);
    } else {
        lemma_geo_prepend((n - 1) as nat);
        let g2 = geo((n - 2) as nat);
        let p2 = pow(a, (n - 2) as nat);
        assert(pow(a, (n - 1) as nat) == a * p2);
        assert((1 + a * g2) + a * p2 == 1 + a * (g2 + p2)) by (nonlinear_arith);
    }
}

/// Splitting the sum: `geo(m + n) == geo(m) + A^m * geo(n)`.
proof fn lemma_geo_add(m: nat, n: nat)
    ensures
        geo(m + n) == geo(m) + pow(MULTIPLIER as int, m) * geo(n),
    decreases n,
{
    reveal(pow);
    let a = MULTIPLIER as int;
    if n == 0 {
        assert(pow(a, m) * 0 == 0) by (nonlinear_arith);
    } else {
        lemma_geo_add(m, (n - 1) as nat);
        vstd::arithmetic::power::lemma_pow_adds(a, m, (n - 1) as nat);
        assert((m + n - 1) as nat == m + (n - 1) as nat);
        let gn = geo((n - 1) as nat);
        let pn = pow(a, (n - 1) as nat);
        assert(pow(a, m) * gn + pow(a, m) * pn == pow(a, m) * (gn + pn)) by (nonlinear_arith);
    }
}

/// The factorization `A^n - 1 == (A - 1) * geo(n)`.
proof fn lemma_pow_minus_one(n: nat)
    ensures
        pow(MULTIPLIER as int, n) - 1 == (MULTIPLIER - 1) * geo(n),
    decreases n,
{
    reveal(pow);
    let a = MULTIPLIER as int;
    if n == 0 {
        assert((a - 1) * 0 == 0) by (nonlinear_arith);
    } else {
        lemma_pow_minus_one((n - 1) as nat);
        lemma_geo_prepend(n);
        let g = geo((n - 1) as nat);
        let p = pow(a, (n - 1) as nat);
        assert(a * p - 1 == a * (p - 1) + (a - 1)) by (nonlinear_arith);
        assert(a * (p - 1) == a * ((a - 1) * g)) by (nonlinear_arith)
            requires
                p - 1 == (a - 1) * g,
        ;
        assert(a * ((a - 1) * g) + (a - 1) == (a - 1) * (1 + a * g)) by (nonlinear_arith);
    }
}

/// The geometric sum has the parity of its length.
proof fn lemma_geo_parity(n: nat)
    ensures
        geo(n) % 2 == n % 2,
    decreases n,
{
    if n > 0 {
        lemma_geo_parity((n - 1) as nat);
        lemma_pow_mult_mod4((n - 1) as nat);
        let p = pow(MULTIPLIER as int, (n - 1) as nat);
        lemma_mod4_one_is_odd(p);
        lemma_add_mod_noop(geo((n - 1) as nat), p, 2);
        lemma_add_mod_noop((n - 1) as int, 1, 2);
    }
}

/// Odd-part decomposition of the geometric sum: `geo(k)` is `2^j` times an
/// odd number, with `2^j` no larger than `k` itself.
proof fn lemma_geo_odd_part(k: nat)
    requires
        1 <= k,
    ensures
        exists|j: nat, u: int| geo(k) == #[trigger] (pow2(j) * u) && u % 2 == 1 && pow2(j) <= k,
    decreases k,
{
    let a = MULTIPLIER as int;
    if k % 2 == 1 {
        lemma_geo_parity(k);
        assert(pow2(0) == 1) by {
            vstd::arithmetic::power2::lemma2_to64();
        }
        assert(geo(k) == pow2(0) * geo(k) && geo(k) % 2 == 1 && pow2(0) <= k) by (nonlinear_arith)
            requires
                pow2(0) == 1 && geo(k) % 2 == 1 && k >= 1,
        ;
    } else {
        let m = k / 2;
        lemma_fundamental_div_mod(k as int, 2);
        assert(k == 2 * m);
        assert(m >= 1);
        lemma_geo_odd_part(m);
        let (j0, u0) = choose|j0: nat, u0: int|
            geo(m) == #[trigger] (pow2(j0) * u0) && u0 % 2 == 1 && pow2(j0) <= m;
        lemma_geo_add(m, m);
        let pm = pow(a, m);
        lemma_pow_mult_mod4(m);
        lemma_fundamental_div_mod(pm, 4);
        let t = pm / 4;
        let w = 2 * t + 1;
        assert(1 + pm == 2 * w) by (nonlinear_arith)
            requires
                pm == 4 * t + 1 && w == 2 * t + 1,
        ;
        assert(w % 2 == 1) by {
            assert(t * 2 % 2 == 0) by {
                lemma_mod_multiples_basic(t, 2);
            }
            assert(w == t * 2 + 1) by (nonlinear_arith)
                requires
                    w == 2 * t + 1,
            ;
            lemma_add_mod_noop(t * 2, 1, 2);
        }
        assert(geo(k) == geo(m) * (1 + pm)) by (nonlinear_arith)
            requires
                geo(k) == geo(m) + pm * geo(m),
        ;
        assert(pow2(j0 + 1) == pow2(j0) * 2) by {
            vstd::arithmetic::power2::lemma_pow2_adds(j0, 1);
            vstd::arithmetic::power2::lemma2_to64();
        }
        let u1 = u0 * w;
        assert(geo(k) == pow2(j0 + 1) * u1) by (nonlinear_arith)
            requires
                geo(k) == (pow2(j0) * u0) * (2 * w) && pow2(j0 + 1) == pow2(j0) * 2 && u1 == u0
                    * w,
        ;
        assert(u1 % 2 == 1) by {
            lemma_mul_mod_noop_general(u0, w, 2);
        }
        assert(pow2(j0 + 1) <= k) by (nonlinear_arith)
            requires
                pow2(j0 + 1) == pow2(j0) * 2 && pow2(j0) <= m && k == 2 * m,
        ;
    }
}

/// The closed form of the iterated congruence:
/// `advance_n(s, n) == (A^n * s + C * geo(n)) mod 2^48`.
proof fn lemma_iterate_formula(s: u64, n: nat)
    requires
        s <= SEED_MASK,
    ensures
        advance_n(s, n) == (pow(MULTIPLIER as int, n) * s + INCREMENT * geo(n)) % (
        STATE_COUNT as int),
    decreases n,
{
    let a = MULTIPLIER as int;
    let c = INCREMENT as int;
    let p = STATE_COUNT as int;
    reveal(pow);
    if n == 0 {
        assert(pow(a, 0) == 1);
        assert(geo(0) == 0);
        assert(pow(a, 0) * s + c * geo(0) == s) by (nonlinear_arith)
            requires
                pow(a, 0) == 1 && geo(0) == 0,
        ;
        lemma_small_mod(s as nat, STATE_COUNT as nat);
        assert((s as int) % p == s);
    } else {
        lemma_iterate_formula(s, (n - 1) as nat);
        assert(pow(a, n) == a * pow(a, (n - 1) as nat));
        let x = pow(a, (n - 1) as nat) * s + c * geo((n - 1) as nat);
        let t = advance_n(s, (n - 1) as nat);
        assert(advance_n(s, n) == advance(t));
        assert(advance(t) == (t * a + c) % p);
        lemma_mul_mod_noop_left(x, a, p);
        lemma_add_mod_noop((x % p) * a, c, p);
        lemma_add_mod_noop(x * a, c, p);
        assert((t * a + c) % p == (x * a + c) % p);
        lemma_geo_prepend(n);
        assert(x * a + c == pow(a, n) * s + c * geo(n)) by (nonlinear_arith)
            requires
                x == pow(a, (n - 1) as nat) * s + c * geo((n - 1) as nat) && pow(a, n) == a
                    * pow(a, (n - 1) as nat) && geo(n) == 1 + a * geo((n - 1) as nat),
        ;
    }
}

/// No cycle shorter than the full period: fewer than 2^48 advances never
/// return the register to where it started, because the orbit difference
/// `geo(n) * ((A - 1) * s + C)` is `2^(v)` times an odd number with `v < 48`.
proof fn lemma_no_short_cycle(s: u64, n: nat)
    requires
        s <= SEED_MASK,
        1 <= n < STATE_COUNT,
    ensures
        advance_n(s, n) != s,
{
    let a = MULTIPLIER as int;
    let c = INCREMENT as int;
    let p = STATE_COUNT as int;
    if advance_n(s, n) == s {
        lemma_iterate_formula(s, n);
        let x = pow(a, n) * s + c * geo(n);
        lemma_small_mod(s as nat, STATE_COUNT as nat);
        lemma_mod_equivalence(x, s as int, p);
        assert((x - s) % p == 0);
        lemma_pow_minus_one(n);
        let d = (a - 1) * s + c;
        assert(x - s == geo(n) * d) by (nonlinear_arith)
            requires
                x == pow(a, n) * s + c * geo(n) && pow(a, n) - 1 == (a - 1) * geo(n) && d == (a
                    - 1) * s + c,
        ;
        assert(d % 2 == 1) by {
            let si = s as int;
            assert(d == (a - 1) * si + c);
            lemma_mul_mod_noop_general(a - 1, si, 2);
            assert(((a - 1) * si) % 2 == 0);
            lemma_add_mod_noop((a - 1) * si, c, 2);
        }
        lemma_geo_odd_part(n);
        let (j, u) = choose|j: nat, u: int|
            geo(n) == #[trigger] (pow2(j) * u) && u % 2 == 1 && pow2(j) <= n;
        assert(j < 48) by {
            if j >= 48 {
                vstd::arithmetic::power2::lemma2_to64();
                vstd::arithmetic::power2::lemma2_to64_rest();
                if j > 48 {
                    vstd::arithmetic::power2::lemma_pow2_strictly_increases(48, j);
                }
            }
        }
        let w = u * d;
        let y = pow2(j) as int;
        let z = pow2((48 - j) as nat) as int;
        assert(p == y * z) by {
            vstd::arithmetic::power2::lemma_pow2_adds(j, (48 - j) as nat);
            vstd::arithmetic::power2::lemma2_to64();
            vstd::arithmetic::power2::lemma2_to64_rest();
        }
        assert(w % 2 == 1) by {
            lemma_mul_mod_noop_general(u, d, 2);
        }
        vstd::arithmetic::power2::lemma_pow2_pos(j);
        vstd::arithmetic::power2::lemma_pow2_pos((48 - j) as nat);
        assert(x - s == y * w) by (nonlinear_arith)
            requires
                x - s == geo(n) * d && geo(n) == pow2(j) * u && w == u * d && y == pow2(
                    j,
                ) as int,
        ;
        lemma_geo_pos(n);
        assert(u >= 1) by (nonlinear_arith)
            requires
                geo(n) == y * u && geo(n) >= 1 && y >= 1,
        ;
        assert(d >= 1) by (nonlinear_arith)
            requires
                d == (a - 1) * s + c && a == 0x5DEECE66D && c == 0xB && s >= 0,
        ;
        assert(w >= 1 && 0 <= y * w) by (nonlinear_arith)
            requires
                w == u * d && u >= 1 && d >= 1 && y >= 1,
        ;
        lemma_mod_breakdown(y * w, y, z);
        assert((y * w) % y == 0) by {
            lemma_mod_multiples_basic(w, y);
            vstd::arithmetic::mul::lemma_mul_is_commutative(w, y);
        }
        assert((y * w) / y == w) by {
            lemma_div_multiples_vanish(w, y);
        }
        assert(y * (w % z) == 0);
        assert(w % z == 0) by (nonlinear_arith)
            requires
                y * (w % z) == 0 && y >= 1,
        ;
        assert(z % 2 == 0) by {
            vstd::arithmetic::power2::lemma_pow2_adds(1, (47 - j) as nat);
            vstd::arithmetic::power2::lemma2_to64();
            vstd::arithmetic::power2::lemma_pow2_pos((47 - j) as nat);
            let z2 = pow2((47 - j) as nat) as int;
            assert(z == z2 * 2) by (nonlinear_arith)
                requires
                    z == 2 * z2,
            ;
            lemma_mod_multiples_basic(z2, 2);
        }
        lemma_fundamental_div_mod(w, z);
        let q = w / z;
        assert(w % 2 == 0) by {
            let z2 = z / 2;
            lemma_fundamental_div_mod(z, 2);
            assert(w == (z2 * q) * 2) by (nonlinear_arith)
                requires
                    w == z * q + 0 && z == 2 * z2 + 0,
            ;
            lemma_mod_multiples_basic(z2 * q, 2);
        }
        assert(false);
    }
}

/// The orbit of any 48-bit state visits the zero register within one full
/// period: all of the first 2^48 iterates are distinct, so they fill the
/// whole state space.
proof fn lemma_orbit_hits_zero(s: u64)
    requires
        s <= SEED_MASK,
    ensures
        exists|n: int|
            1 <= n <= STATE_COUNT as int && #[trigger] advance_n(s, n as nat) == 0,
{
    let p = STATE_COUNT as int;
    assert forall|i: int, j: int|
        0 <= i < j < p implies #[trigger] advance_n(s, i as nat) != #[trigger] advance_n(
        s,
        j as nat,
    ) by {
        if advance_n(s, i as nat) == advance_n(s, j as nat) {
            lemma_collision_peels(s, i as nat, j as nat);
            lemma_no_short_cycle(s, (j - i) as nat);
        }
    }
    lemma_orbit_set_size(s, p);
    if !orbit_set(s, p).contains(0) {
        vstd::set_lib::lemma_int_range(1, p);
        assert forall|v: int|
            orbit_set(s, p).contains(v) implies vstd::set_lib::set_int_range(1, p).contains(
            v,
        ) by {
            let i = choose|i: int| 0 <= i < p && #[trigger] advance_n(s, i as nat) == v;
            lemma_advance_n_range(s, i as nat);
        }
        vstd::set_lib::lemma_len_subset(
            orbit_set(s, p),
            vstd::set_lib::set_int_range(1, p),
        );
        assert(false);
    }
    let i = choose|i: int| 0 <= i < p && #[trigger] advance_n(s, i as nat) == 0;
    if i == 0 {
        lemma_orbit_returns(s);
        let q = choose|q: int|
            1 <= q <= STATE_COUNT as int && #[trigger] advance_n(s, q as nat) == s;
        assert(advance_n(s, q as nat) == 0);
    }
}

/// The rejection loop always has an accepted read ahead of it, within one
/// full period: the orbit visits the zero register, whose 31-bit read is
/// zero, and every admissible bound accepts a zero read.
pub proof fn lemma_acceptance_exists(s: u64, b: u32)
    requires
        s <= SEED_MASK,
        1 <= b < 0x8000_0000,
    ensures
        exists|m: nat|
            m < STATE_COUNT && draw_accepted(extract(#[trigger] advance_n(s, m + 1), 31), b),
{
    lemma_orbit_hits_zero(s);
    let n = choose|n: int|
        1 <= n <= STATE_COUNT as int && #[trigger] advance_n(s, n as nat) == 0;
    assert(extract(0u64, 31) == 0) by (bit_vector);
    lemma_small_mod(0, b as nat);
    assert(draw_accepted(0, b));
    let m = (n - 1) as nat;
    assert(advance_n(s, m + 1) == 0);
    assert(m < STATE_COUNT && draw_accepted(extract(advance_n(s, m + 1), 31), b));
}

/// The bounded draw never runs out of fuel: some read within the first 2^48
/// redraws is always accepted, so the draw the contract names through
/// `rejection_draw` is the genuinely first accepted one — the same value for
/// the full-period fuel as for any larger fuel, exactly as the reference
/// algorithm's unbounded loop computes it.
pub proof fn lemma_bounded_draw_is_reference(s: u64, b: u32, extra: nat)
    requires
        s <= SEED_MASK,
        1 <= b < 0x8000_0000,
    ensures
        rejection_draw(s, b, STATE_COUNT as nat) == rejection_draw(
            s,
            b,
            STATE_COUNT as nat + extra,
        ),
{
    lemma_acceptance_exists(s, b);
    let m = choose|m: nat|
        m < STATE_COUNT && draw_accepted(extract(#[trigger] advance_n(s, m + 1), 31), b);
    lemma_full_period_fuel_suffices(s, b, m, extra);
}

/// Determinism: the result and successor register of a draw are functions
/// of the register and the requested width alone — equal states and equal
/// widths give equal draws and equal successor states, and `with_seed`
/// stores the same register for the same raw seed. Two fresh instances
/// built from one seed therefore yield identical output sequences under any
/// fixed sequence of calls; no clock or other state is consulted.
pub proof fn lemma_deterministic_stream(s1: u64, s2: u64, n: nat, bits: i32)
    requires
        s1 == s2,
    ensures
        advance(s1) == advance(s2),
        extract(advance(s1), bits) == extract(advance(s2), bits),
        nth_int(s1, n) == nth_int(s2, n),
{
}

/// The register invariant in bit form: a value at most `SEED_MASK` is
/// unchanged by masking, that is, its bits 48 to 63 are zero.
pub proof fn lemma_masked_in_range(s: u64)
    requires
        s <= SEED_MASK,
    ensures
        s & SEED_MASK == s,
        s & !SEED_MASK == 0,
        s >> 48u64 == 0,
{
    assert(s <= 0xFFFF_FFFF_FFFFu64 ==> (s & 0xFFFF_FFFF_FFFFu64 == s && s
        & !0xFFFF_FFFF_FFFFu64 == 0 && s >> 48u64 == 0)) by (bit_vector);
}

/// Seed accessor asymmetry: the stored register is the scrambled image
/// `(raw XOR MULTIPLIER) AND SEED_MASK` of the raw seed, not the raw seed
/// itself. Seeding with zero, for instance, stores the multiplier.
pub proof fn lemma_seed_accessor_asymmetry()
    ensures
        forall|raw: i64| scramble(raw) == ((raw as u64) ^ MULTIPLIER) & SEED_MASK,
        scramble(0) == MULTIPLIER,
        scramble(0) != 0,
{
    assert((0u64 ^ 0x5DEECE66Du64) & 0xFFFF_FFFF_FFFFu64 == 0x5DEECE66Du64) by (bit_vector);
}

/// Relies on `std::time::SystemTime`: the wall clock read as whole
/// milliseconds since the Unix epoch, truncated to 64 bits (0 if the clock
/// reads earlier than the epoch). The result depends on the moment of the
/// call, so nothing is promised of it.
#[verifier::external_body]
fn current_time_millis() -> u64 {
    match std::time::SystemTime::now().duration_since(std::time::SystemTime::UNIX_EPOCH) {
        Ok(d) => d.as_millis() as u64,
        Err(_) => 0,
    }
}

/// A bit-compatible reimplementation of the `java.util.Random` generator: a
/// 48-bit seed register advanced by a fixed linear congruence.
#[derive(Clone, Copy, PartialEq, Eq, Structural, Hash, Debug)]
pub struct JavaRandom {
    seed: u64,
}

impl View for JavaRandom {
    type V = u64;

    closed spec fn view(&self) -> u64 {
        self.seed
    }
}

impl Default for JavaRandom {
    /// A generator seeded from the wall clock, as `new` gives: whatever the
    /// clock returned, the register invariant holds.
    fn default() -> (r: JavaRandom)
        ensures
            r@ <= SEED_MASK,
    {
        JavaRandom::new()
    }
}

impl JavaRandom {
    #[verifier::type_invariant]
    spec fn seed_in_range(self) -> bool {
        self.seed <= SEED_MASK
    }

    /// Creates a generator seeded from the wall clock's millisecond reading.
    /// Non-deterministic by design: whatever the clock returned, the register
    /// invariant holds, and nothing more can be promised of the sequence.
    pub fn new() -> (r: JavaRandom)
        ensures
            r@ <= SEED_MASK,
    {
        let millis = current_time_millis();
        JavaRandom::with_seed(#[verifier::truncate] (millis as i64))
    }

    /// Creates a generator whose register holds `scramble(seed)`.
    pub fn with_seed(seed: i64) -> (r: JavaRandom)
        ensures
            r@ == scramble(seed),
            r@ <= SEED_MASK,
    {
        let raw: u64 = #[verifier::truncate] (seed as u64);
        let masked: u64 = (raw ^ MULTIPLIER) & SEED_MASK;
        proof {
            assert((raw ^ 0x5DEECE66Du64) & 0xFFFF_FFFF_FFFFu64 <= 0xFFFF_FFFF_FFFFu64)
                by (bit_vector);
        }
        JavaRandom { seed: masked }
    }

    /// Resets the register exactly as `with_seed(seed)` would.
    pub fn set_seed(&mut self, seed: i64)
        ensures
            final(self)@ == scramble(seed),
            final(self)@ <= SEED_MASK,
    {
        let raw: u64 = #[verifier::truncate] (seed as u64);
        let masked: u64 = (raw ^ MULTIPLIER) & SEED_MASK;
        proof {
            assert((raw ^ 0x5DEECE66Du64) & 0xFFFF_FFFF_FFFFu64 <= 0xFFFF_FFFF_FFFFu64)
                by (bit_vector);
        }
        self.seed = masked;
    }

    /// The current raw 48-bit register value. This is the scrambled internal
    /// state, not the seed the constructor was given.
    pub fn seed(&self) -> (r: i64)
        ensures
            r == self@,
            0 <= r <= SEED_MASK,
    {
        proof {
            use_type_invariant(self);
        }
        self.seed as i64
    }

    /// One step of the generator: advances the register by the congruence and
    /// returns its top `bits` bits as a signed 32-bit value. This is the
    /// single point of state mutation in the library.
    fn next(&mut self, bits: i32) -> (r: i32)
        requires
            1 <= bits <= 32,
        ensures
            final(self)@ == advance(old(self)@),
            final(self)@ <= SEED_MASK,
            r == extract(advance(old(self)@), bits),
    {
        proof {
            use_type_invariant(&*self);
            assert((self.seed as int) * 0x5DEECE66D + 0xB < 0x1_0000_0000_0000_0000_0000_0000)
                by (nonlinear_arith)
                requires
                    self.seed < 0x1_0000_0000_0000u64,
            ;
        }
        let prod: u128 = (self.seed as u128) * (MULTIPLIER as u128) + (INCREMENT as u128);
        let s1: u64 = (prod % (STATE_COUNT as u128)) as u64;
        self.seed = s1;
        let sh: u64 = (48 - bits) as u64;
        let shifted: u64 = s1 >> sh;
        proof {
            assert(s1 >> sh < 0x1_0000_0000u64) by (bit_vector)
                requires
                    s1 < 0x1_0000_0000_0000u64 && 16 <= sh < 64u64,
            ;
        }
        if shifted < 0x8000_0000 {
            shifted as i32
        } else {
            ((shifted as i64) - 0x1_0000_0000i64) as i32
        }
    }

    /// The next unbounded 32-bit draw: one 32-bit read of the register.
    pub fn next_int(&mut self) -> (r: i32)
        ensures
            final(self)@ == advance(old(self)@),
            final(self)@ <= SEED_MASK,
            r == extract(advance(old(self)@), 32),
            r == nth_int(old(self)@, 0),
    {
        proof {
            assert(advance_n(old(self)@, 1) == advance(advance_n(old(self)@, 0)));
            assert(advance_n(old(self)@, 0) == old(self)@);
        }
        self.next_int_inner(None)
    }

    /// The next boolean draw: whether a 1-bit read is nonzero.
    pub fn next_boolean(&mut self) -> (r: bool)
        ensures
            final(self)@ == advance(old(self)@),
            final(self)@ <= SEED_MASK,
            r == (extract(advance(old(self)@), 1) != 0),
    {
        self.next(1) != 0
    }

    /// The next signed 64-bit draw: two 32-bit reads, the first shifted up by
    /// 32 and the second added (not ORed — a negative second read differs).
    pub fn next_long(&mut self) -> (r: i64)
        ensures
            final(self)@ == advance_n(old(self)@, 2),
            final(self)@ <= SEED_MASK,
            r == long_from(
                extract(advance(old(self)@), 32),
                extract(advance_n(old(self)@, 2), 32),
            ),
    {
        let ghost s0 = self@;
        let hi = self.next(32);
        let lo = self.next(32);
        proof {
            assert(advance_n(s0, 2) == advance(advance_n(s0, 1)));
            assert(advance_n(s0, 1) == advance(advance_n(s0, 0)));
            assert(advance_n(s0, 0) == s0);
        }
        let wide: i128 = (hi as i128) * 0x1_0000_0000i128 + (lo as i128);
        #[verifier::truncate] (wide as i64)
    }

    /// The 24-bit numerator of the float draw. The reference algorithm's
    /// float is this value divided by 2^24, which lands in `[0.0, 1.0)`.
    pub fn next_float_numerator(&mut self) -> (r: i32)
        ensures
            final(self)@ == advance(old(self)@),
            final(self)@ <= SEED_MASK,
            r == extract(advance(old(self)@), 24),
            0 <= r < 0x100_0000,
    {
        let r = self.next(24);
        proof {
            lemma_extract_small(advance(old(self)@));
        }
        r
    }

    /// The 53-bit numerator of the double draw: a 26-bit read shifted up by
    /// 27, plus a 27-bit read. The reference algorithm's double is this value
    /// divided by 2^53, which lands in `[0.0, 1.0)`.
    pub fn next_double_numerator(&mut self) -> (r: i64)
        ensures
            final(self)@ == advance_n(old(self)@, 2),
            final(self)@ <= SEED_MASK,
            r == extract(advance(old(self)@), 26) * 0x800_0000 + extract(
                advance_n(old(self)@, 2),
                27,
            ),
            0 <= r < 0x20_0000_0000_0000,
    {
        let ghost s0 = self@;
        let hi = self.next(26);
        let lo = self.next(27);
        proof {
            assert(advance_n(s0, 2) == advance(advance_n(s0, 1)));
            assert(advance_n(s0, 1) == advance(advance_n(s0, 0)));
            assert(advance_n(s0, 0) == s0);
            lemma_extract_small(advance(s0));
            lemma_extract_small(advance_n(s0, 2));
        }
        (hi as i64) * 0x800_0000i64 + (lo as i64)
    }

    /// Overwrites every byte of `bytes`, left to right, peeling up to four
    /// bytes off each unbounded 32-bit draw (low byte first) and consuming
    /// exactly `ceil(len / 4)` draws.
    pub fn next_bytes(&mut self, bytes: &mut Vec<u8>)
        ensures
            final(bytes)@.len() == old(bytes)@.len(),
            forall|i: int|
                0 <= i < old(bytes)@.len() ==> final(bytes)@[i] == filled_byte(old(self)@, i),
            final(self)@ == advance_n(old(self)@, ((old(bytes)@.len() + 3) / 4) as nat),
            final(self)@ <= SEED_MASK,
    {
        let ghost s0 = self@;
        let len = bytes.len();
        let mut i: usize = 0;
        while i < len
            invariant
                s0 == old(self)@,
                len == bytes@.len(),
                bytes@.len() == old(bytes)@.len(),
                i <= len,
                i % 4 == 0 || i == len,
                self@ == advance_n(s0, ((i + 3) / 4) as nat),
                forall|j: int| 0 <= j < i ==> bytes@[j] == filled_byte(s0, j),
            decreases len - i,
        {
            let ghost c = i as int;
            let ghost k = c / 4;
            proof {
                vstd::arithmetic::div_mod::lemma_fundamental_div_mod_converse(c + 3, 4, k, 3);
                assert(self@ == advance_n(s0, k as nat));
            }
            let mut rnd = self.next_int();
            let ghost r0 = rnd;
            proof {
                assert(advance_n(s0, (k + 1) as nat) == advance(advance_n(s0, k as nat)));
                assert(rnd == nth_int(s0, k as nat));
            }
            let rem = len - i;
            let mut n: usize = if rem < 4 {
                rem
            } else {
                4
            };
            let ghost m0 = n as int;
            while n > 0
                invariant
                    s0 == old(self)@,
                    len == bytes@.len(),
                    bytes@.len() == old(bytes)@.len(),
                    c % 4 == 0,
                    k == c / 4,
                    0 <= c < len <= usize::MAX,
                    1 <= m0 <= 4,
                    c + m0 <= len,
                    (c + 4 <= len ==> m0 == 4) && (c + 4 > len ==> m0 == len - c),
                    n <= m0,
                    i as int == c + (m0 - n),
                    r0 == nth_int(s0, k as nat),
                    rnd == peeled(r0, (i as int - c) as nat),
                    self@ == advance_n(s0, (k + 1) as nat),
                    forall|j: int| 0 <= j < i ==> bytes@[j] == filled_byte(s0, j),
                decreases n,
            {
                let byte: u8 = #[verifier::truncate] (rnd as u8);
                proof {
                    vstd::arithmetic::div_mod::lemma_fundamental_div_mod_converse(
                        i as int,
                        4,
                        k,
                        i as int - c,
                    );
                    assert(filled_byte(s0, i as int) == byte_of_draw(
                        nth_int(s0, k as nat),
                        i as int - c,
                    ));
                }
                bytes.set(i, byte);
                i = i + 1;
                n = n - 1;
                rnd = rnd >> 8;
            }
            proof {
                if c + 4 <= len {
                    vstd::arithmetic::div_mod::lemma_fundamental_div_mod_converse(
                        c + 7,
                        4,
                        k + 1,
                        3,
                    );
                } else {
                    vstd::arithmetic::div_mod::lemma_fundamental_div_mod_converse(
                        c + m0 + 3,
                        4,
                        k + 1,
                        m0 - 1,
                    );
                }
            }
        }
        proof {
            use_type_invariant(&*self);
        }
    }

    /// The next bounded draw: a uniform value in `[0, bound)`. One 31-bit
    /// read scaled down for a power-of-two bound; otherwise the remainder of
    /// the first 31-bit read the rejection rule accepts.
    pub fn next_int_with_bound(&mut self, bound: u32) -> (r: i32)
        requires
            1 <= bound < 0x8000_0000,
        ensures
            0 <= r < bound,
            final(self)@ <= SEED_MASK,
            (if bound_is_pow2(bound) {
                final(self)@ == advance(old(self)@) && r == scaled_draw(
                    bound,
                    extract(advance(old(self)@), 31),
                )
            } else {
                (final(self)@, r as int) == rejection_draw(
                    old(self)@,
                    bound,
                    STATE_COUNT as nat,
                )
            }),
    {
        self.next_int_inner(Some(bound))
    }

    /// The shared body of the unbounded and bounded integer draws.
    #[verifier::rlimit(100)]
    fn next_int_inner(&mut self, bound: Option<u32>) -> (r: i32)
        requires
            bound matches Some(b) ==> 1 <= b < 0x8000_0000,
        ensures
            final(self)@ <= SEED_MASK,
            (match bound {
                None => final(self)@ == advance(old(self)@) && r == extract(
                    advance(old(self)@),
                    32,
                ),
                Some(b) => {
                    &&& 0 <= r < b
                    &&& (if bound_is_pow2(b) {
                        final(self)@ == advance(old(self)@) && r == scaled_draw(
                            b,
                            extract(advance(old(self)@), 31),
                        )
                    } else {
                        (final(self)@, r as int) == rejection_draw(
                            old(self)@,
                            b,
                            STATE_COUNT as nat,
                        )
                    })
                },
            }),
    {
        match bound {
            Some(b) => {
                let neg: u32 = (0x1_0000_0000u64 - (b as u64)) as u32;
                if b & neg == b {
                    // The bound is a power of two: scale one 31-bit read.
                    let ghost s0 = self@;
                    let x = self.next(31);
                    proof {
                        lemma_extract_small(advance(s0));
                        assert((b as int) * (x as int) < 0x8000_0000 * (b as int))
                            by (nonlinear_arith)
                            requires
                                0 <= x < 0x8000_0000 && 1 <= b,
                        ;
                    }
                    let prod: u64 = (b as u64) * (x as u64);
                    proof {
                        vstd::arithmetic::div_mod::lemma_multiply_divide_lt(
                            prod as int,
                            0x8000_0000,
                            b as int,
                        );
                    }
                    let q: u64 = prod / 0x8000_0000u64;
                    q as i32
                } else {
                    // Rejection sampling: redraw while the acceptance sum
                    // would overflow. The loop terminates: an accepted read
                    // lies within one full period of the register
                    // (`lemma_acceptance_exists`), and the ghost fuel counts
                    // the draws that period still allows.
                    let ghost s0 = self@;
                    let ghost mut fuel: u64 = STATE_COUNT;
                    proof {
                        use_type_invariant(&*self);
                        lemma_acceptance_exists(s0, b);
                    }
                    loop
                        invariant
                            bound == Some(b),
                            s0 == old(self)@,
                            1 <= b < 0x8000_0000,
                            !bound_is_pow2(b),
                            fuel <= STATE_COUNT,
                            self@ <= SEED_MASK,
                            exists|m: nat|
                                m < fuel && draw_accepted(
                                    extract(#[trigger] advance_n(self@, m + 1), 31),
                                    b,
                                ),
                            rejection_draw(s0, b, STATE_COUNT as nat) == rejection_draw(
                                self@,
                                b,
                                fuel as nat,
                            ),
                        decreases fuel,
                    {
                        let ghost s_prev = self@;
                        let bits = self.next(31);
                        proof {
                            lemma_extract_small(advance(s_prev));
                        }
                        let val_u: u32 = (bits as u32) % b;
                        let val: i32 = val_u as i32;
                        let sum: i64 = (bits as i64) - (val as i64) + (b as i64 - 1);
                        proof {
                            assert(val == bits % (b as i32));
                            assert(draw_accepted(bits, b) <==> sum < 0x8000_0000);
                        }
                        if sum < 0x8000_0000i64 {
                            proof {
                                assert(rejection_draw(s_prev, b, fuel as nat) == (
                                self@,
                                val as int,
                                )) by {
                                    reveal_with_fuel(rejection_draw, 1);
                                }
                            }
                            return val;
                        }
                        proof {
                            assert(rejection_draw(s_prev, b, fuel as nat) == rejection_draw(
                                self@,
                                b,
                                (fuel - 1) as nat,
                            )) by {
                                reveal_with_fuel(rejection_draw, 1);
                            }
                            let m = choose|m: nat|
                                m < fuel && draw_accepted(
                                    extract(#[trigger] advance_n(s_prev, m + 1), 31),
                                    b,
                                );
                            assert(advance_n(s_prev, 1) == advance(advance_n(s_prev, 0)));
                            assert(advance_n(s_prev, 0) == s_prev);
                            assert(m >= 1);
                            lemma_advance_n_add(s_prev, 1, (m - 1) as nat + 1);
                            assert(advance_n(self@, (m - 1) as nat + 1) == advance_n(
                                s_prev,
                                m + 1,
                            ));
                            assert(((m - 1) as nat) < fuel - 1 && draw_accepted(
                                extract(advance_n(self@, (m - 1) as nat + 1), 31),
                                b,
                            ));
                            fuel = (fuel - 1) as u64;
                        }
                    }
                }
            },
            None => self.next(32),
        }
    }
}

} // verus!
