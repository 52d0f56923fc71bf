//! Why a generator whose multiplier is 1 modulo 4 and whose increment is odd
//! passes through every state before it comes back to the first.

use crate::generator::{lemma_game_agrees, next_seed, Lcg};
use vstd::arithmetic::div_mod::{
    lemma_add_mod_noop, lemma_fundamental_div_mod, lemma_mod_multiples_basic,
    lemma_mod_bound, lemma_mod_multiples_vanish, lemma_mod_pos_bound,
    lemma_mul_mod_noop_left, lemma_small_mod,
};
use vstd::arithmetic::power2::{lemma_pow2_pos, lemma_pow2_unfold, pow2};
use vstd::prelude::*;

verus! {

/// The sum 1 + a + a^2 + ... + a^(n-1).
pub open spec fn geometric_sum(a: int, n: nat) -> int
    decreases n,
{
    if n == 0 {
        0
    } else {
        a * geometric_sum(a, (n - 1) as nat) + 1
    }
}

/// `x` can be halved `k` times without remainder.
pub open spec fn halves(k: nat, x: int) -> bool
    decreases k,
{
    k == 0 || (x % 2 == 0 && halves((k - 1) as nat, x / 2))
}

/// Twice `p` divides `x` exactly when `x` is even and `p` divides its half.
proof fn lemma_divisible_by_double(p: int, x: int)
    requires
        p > 0,
    ensures
        x % (2 * p) == 0 <==> (x % 2 == 0 && (x / 2) % p == 0),
{
    if x % (2 * p) == 0 {
        let u = x / (2 * p);
        lemma_fundamental_div_mod(x, 2 * p);
        assert(x == 2 * (u * p)) by (nonlinear_arith)
            requires
                x == (2 * p) * u + 0,
        ;
        lemma_mod_multiples_basic(u, p);
    }
    if x % 2 == 0 && (x / 2) % p == 0 {
        let t = (x / 2) / p;
        lemma_fundamental_div_mod(x / 2, p);
        assert(x == t * (2 * p)) by (nonlinear_arith)
            requires
                x == 2 * (x / 2),
                x / 2 == p * t + 0,
        ;
        lemma_mod_multiples_basic(t, 2 * p);
    }
}

/// A number can be halved `k` times exactly when 2^k divides it.
pub proof fn lemma_halves_is_divisible(k: nat, x: int)
    ensures
        halves(k, x) <==> x % (pow2(k) as int) == 0,
    decreases k,
{
    if k == 0 {
        vstd::arithmetic::power2::lemma2_to64();
    } else {
        let p = pow2((k - 1) as nat) as int;
        lemma_pow2_unfold(k);
        lemma_pow2_pos((k - 1) as nat);
        lemma_halves_is_divisible((k - 1) as nat, x / 2);
        lemma_divisible_by_double(p, x);
    }
}

/// An odd factor does not change how often a number can be halved.
pub proof fn lemma_halves_odd_factor(k: nat, odd: int, x: int)
    requires
        odd % 2 == 1,
    ensures
        halves(k, odd * x) <==> halves(k, x),
    decreases k,
{
    if k > 0 {
        let q = odd / 2;
        assert(odd * x == 2 * (q * x) + x) by (nonlinear_arith)
            requires
                odd == 2 * q + 1,
        ;
        if x % 2 == 0 {
            let h = x / 2;
            assert(odd * x == 2 * (odd * h)) by (nonlinear_arith)
                requires
                    x == 2 * h,
            ;
            lemma_halves_odd_factor((k - 1) as nat, odd, h);
        }
    }
}

/// With an odd `a`, the sum of `n` powers of `a` is odd exactly when `n` is.
pub proof fn lemma_geometric_sum_parity(a: int, n: nat)
    requires
        a % 2 == 1,
    ensures
        geometric_sum(a, n) % 2 == n % 2,
    decreases n,
{
    if n > 0 {
        lemma_geometric_sum_parity(a, (n - 1) as nat);
        let s = geometric_sum(a, (n - 1) as nat);
        let q = a / 2;
        assert(a * s == 2 * (q * s) + s) by (nonlinear_arith)
            requires
                a == 2 * q + 1,
        ;
    }
}

/// The sum of `m + n` powers, from the sums of `m` and of `n` powers.
pub proof fn lemma_geometric_sum_add(a: int, m: nat, n: nat)
    ensures
        geometric_sum(a, m + n) == geometric_sum(a, m) + geometric_sum(a, n) + (a - 1)
            * geometric_sum(a, m) * geometric_sum(a, n),
    decreases n,
{
    let sm = geometric_sum(a, m);
    if n == 0 {
        assert((a - 1) * sm * 0 == 0) by (nonlinear_arith);
    } else {
        lemma_geometric_sum_add(a, m, (n - 1) as nat);
        let sn = geometric_sum(a, (n - 1) as nat);
        let both = geometric_sum(a, (m + n - 1) as nat);
        assert(a * both + 1 == sm + (a * sn + 1) + (a - 1) * sm * (a * sn + 1))
            by (nonlinear_arith)
            requires
                both == sm + sn + (a - 1) * sm * sn,
        ;
    }
}

/// With a multiplier that is 1 modulo 4, the sum of `n` powers can be halved
/// exactly as often as `n` itself.
pub proof fn lemma_geometric_sum_halves(a: int, k: nat, n: nat)
    requires
        a % 4 == 1,
    ensures
        halves(k, geometric_sum(a, n)) <==> halves(k, n as int),
    decreases k,
{
    if k > 0 {
        lemma_geometric_sum_parity(a, n);
        if n % 2 == 0 {
            let h = (n / 2) as nat;
            let s = geometric_sum(a, h);
            let t = a / 4;
            let odd = 1 + 2 * (t * s);
            lemma_geometric_sum_add(a, h, h);
            assert(h + h == n);
            assert(s + s + (a - 1) * s * s == 2 * (odd * s)) by (nonlinear_arith)
                requires
                    a == 4 * t + 1,
                    odd == 1 + 2 * (t * s),
            ;
            assert(geometric_sum(a, n) / 2 == odd * s);
            lemma_halves_odd_factor((k - 1) as nat, odd, s);
            lemma_geometric_sum_halves(a, (k - 1) as nat, h);
        }
    }
}

/// How far one step moves `state`, before reduction: `step(state) - state`.
pub open spec fn drift(lcg: Lcg, state: int) -> int {
    (lcg.multiplier - 1) * state + lcg.increment
}

/// Every state that a run reaches is below the modulus.
pub proof fn lemma_iterate_in_range(lcg: Lcg, state: int, n: nat)
    requires
        0 <= state < lcg.modulus(),
    ensures
        0 <= lcg.iterate(state, n) < lcg.modulus(),
{
    if n > 0 {
        let before = lcg.iterate(state, (n - 1) as nat);
        lemma_mod_pos_bound(before * lcg.multiplier + lcg.increment, lcg.modulus());
    }
}

/// `n` steps, then `more` steps, are `n + more` steps.
pub proof fn lemma_iterate_add(lcg: Lcg, state: int, n: nat, more: nat)
    ensures
        lcg.iterate(state, n + more) == lcg.iterate(lcg.iterate(state, n), more),
    decreases more,
{
    if more > 0 {
        lemma_iterate_add(lcg, state, n, (more - 1) as nat);
    }
}

/// After `n` steps the state has moved by the drift, taken as often as the sum
/// of `n` powers of the multiplier says.
pub proof fn lemma_closed_form(lcg: Lcg, state: int, n: nat)
    requires
        0 <= state < lcg.modulus(),
    ensures
        lcg.iterate(state, n) == (state + geometric_sum(lcg.multiplier as int, n) * drift(
            lcg,
            state,
        )) % lcg.modulus(),
    decreases n,
{
    let a = lcg.multiplier as int;
    let c = lcg.increment as int;
    let m = lcg.modulus();
    let d = drift(lcg, state);
    if n == 0 {
        assert(0 * d == 0);
        lemma_small_mod(state as nat, m as nat);
    } else {
        lemma_closed_form(lcg, state, (n - 1) as nat);
        let s = geometric_sum(a, (n - 1) as nat);
        let z = state + s * d;
        assert(state + (a * s + 1) * d == z * a + c) by (nonlinear_arith)
            requires
                z == state + s * d,
                d == (a - 1) * state + c,
        ;
        lemma_mul_mod_noop_left(z, a, m);
        lemma_add_mod_noop((z % m) * a, c, m);
        lemma_add_mod_noop(z * a, c, m);
    }
}

/// Adding `y` to a state leaves it in place, modulo `m`, exactly when `m`
/// divides `y`.
proof fn lemma_added_multiple(x: int, y: int, m: int)
    requires
        0 <= x < m,
    ensures
        (x + y) % m == x <==> y % m == 0,
{
    let r = y % m;
    lemma_add_mod_noop(x, y, m);
    lemma_small_mod(x as nat, m as nat);
    lemma_mod_bound(y, m);
    if x + r < m {
        lemma_small_mod((x + r) as nat, m as nat);
    } else {
        lemma_mod_multiples_vanish(-1, x + r, m);
        lemma_small_mod((x + r - m) as nat, m as nat);
    }
}

/// A generator with a multiplier that is 1 modulo 4 and an odd increment is
/// back at the state it left from after `n` steps exactly when `n` is a
/// multiple of the number of states.
pub proof fn lemma_returns_iff(lcg: Lcg, state: int, n: nat)
    requires
        lcg.full_period(),
        0 <= state < lcg.modulus(),
    ensures
        lcg.iterate(state, n) == state <==> n as int % lcg.modulus() == 0,
{
    let a = lcg.multiplier as int;
    let k = lcg.state_bits as nat;
    let s = geometric_sum(a, n);
    let d = drift(lcg, state);
    let t = a / 4;
    assert((a - 1) * state == 2 * (2 * (t * state))) by (nonlinear_arith)
        requires
            a == 4 * t + 1,
    ;
    assert(s * d == d * s) by (nonlinear_arith);
    lemma_closed_form(lcg, state, n);
    lemma_added_multiple(state, s * d, lcg.modulus());
    lemma_halves_is_divisible(k, s * d);
    lemma_halves_odd_factor(k, d, s);
    lemma_geometric_sum_halves(a, k, n);
    lemma_halves_is_divisible(k, n as int);
}

/// Under the same two conditions a run is at the same state after `i` and
/// after `j` steps exactly when `i` and `j` differ by a multiple of the number
/// of states.
pub proof fn lemma_meets_iff(lcg: Lcg, state: int, i: nat, j: nat)
    requires
        lcg.full_period(),
        0 <= state < lcg.modulus(),
        i <= j,
    ensures
        lcg.iterate(state, i) == lcg.iterate(state, j) <==> (j - i) % lcg.modulus() == 0,
{
    lemma_iterate_in_range(lcg, state, i);
    lemma_iterate_add(lcg, state, i, (j - i) as nat);
    lemma_returns_iff(lcg, lcg.iterate(state, i), (j - i) as nat);
}

/// Under the same two conditions a run from the initial state is back there
/// after as many steps as there are states, not earlier, and no two of the
/// states before that are the same.
pub proof fn lemma_orbit_period(lcg: Lcg)
    requires
        lcg.full_period(),
    ensures
        lcg.orbit(lcg.modulus() as nat) == 0,
        forall|n: nat| 0 < n < lcg.modulus() ==> #[trigger] lcg.orbit(n) != 0,
        forall|i: nat, j: nat|
            i < j < lcg.modulus() ==> #[trigger] lcg.orbit(i) != #[trigger] lcg.orbit(j),
{
    let m = lcg.modulus();
    lemma_pow2_pos(lcg.state_bits as nat);
    lemma_returns_iff(lcg, 0, m as nat);
    lemma_mod_multiples_basic(1, m);
    assert forall|n: nat| 0 < n < m implies #[trigger] lcg.orbit(n) != 0 by {
        lemma_returns_iff(lcg, 0, n);
        lemma_small_mod(n, m as nat);
    }
    assert forall|i: nat, j: nat| i < j < m implies #[trigger] lcg.orbit(i) != #[trigger] lcg.orbit(
        j,
    ) by {
        lemma_meets_iff(lcg, 0, i, j);
        lemma_small_mod((j - i) as nat, m as nat);
    }
}

/// The seed after `n` steps of the 32-bit generator from `seed`.
pub open spec fn seed_after(seed: int, n: nat) -> int
    decreases n,
{
    if n == 0 {
        seed
    } else {
        next_seed(seed_after(seed, (n - 1) as nat))
    }
}

/// The general generator with the 32-bit constants takes the steps of
/// `next_seed`.
pub proof fn lemma_seed_after_is_iterate(seed: int, n: nat)
    ensures
        seed_after(seed, n) == Lcg::spec_game().iterate(seed, n),
    decreases n,
{
    if n > 0 {
        lemma_seed_after_is_iterate(seed, (n - 1) as nat);
        lemma_game_agrees(seed_after(seed, (n - 1) as nat));
    }
}

/// The 32-bit generator, begun at seed 0, is back at 0 after 2^32 steps and
/// not earlier, and the 2^32 seeds that it passes through until then are all
/// different.
pub proof fn lemma_seed_period()
    ensures
        seed_after(0, 0x1_0000_0000) == 0,
        forall|n: nat| 0 < n < 0x1_0000_0000 ==> #[trigger] seed_after(0, n) != 0,
        forall|i: nat, j: nat|
            i < j < 0x1_0000_0000 ==> #[trigger] seed_after(0, i) != #[trigger] seed_after(0, j),
{
    lemma_seed_returns_iff(0, 0x1_0000_0000);
    assert forall|n: nat| 0 < n < 0x1_0000_0000 implies #[trigger] seed_after(0, n) != 0 by {
        lemma_seed_returns_iff(0, n);
    }
    assert forall|i: nat, j: nat| i < j < 0x1_0000_0000 implies #[trigger] seed_after(0, i)
        != #[trigger] seed_after(0, j) by {
        lemma_seeds_differ(0, i, j);
    }
}

/// From any seed the 32-bit generator comes back to that seed after `n` steps
/// exactly when `n` is a multiple of 2^32: it passes through all 2^32 seeds,
/// each once, and then begins again.
pub proof fn lemma_seed_returns_iff(seed: int, n: nat)
    requires
        0 <= seed < 0x1_0000_0000,
    ensures
        seed_after(seed, n) == seed <==> n % 0x1_0000_0000 == 0,
{
    lemma_game_agrees(seed);
    lemma_seed_after_is_iterate(seed, n);
    lemma_returns_iff(Lcg::spec_game(), seed, n);
}

/// From any seed, the seeds that the 32-bit generator reaches within 2^32
/// steps are all different.
pub proof fn lemma_seeds_differ(seed: int, i: nat, j: nat)
    requires
        0 <= seed < 0x1_0000_0000,
        i < j < 0x1_0000_0000,
    ensures
        seed_after(seed, i) != seed_after(seed, j),
{
    lemma_game_agrees(seed);
    lemma_seed_after_is_iterate(seed, i);
    lemma_seed_after_is_iterate(seed, j);
    lemma_meets_iff(Lcg::spec_game(), seed, i, j);
}

} // verus!
