//! Decisions of the control-plane commands: which neurons of a layer an input is
//! predicted to activate, and which calibration tier a request names.
use vstd::prelude::*;
use vstd::string::StringSliceAdditionalSpecFns;
use crate::http_request::{key_at, lower_eq};
use crate::text::{decimal, push_decimal};
use vstd::arithmetic::power2::{pow2, lemma_pow2_unfold, lemma2_to64, lemma2_to64_rest, lemma_pow2_pos};
use vstd::arithmetic::div_mod::{lemma_fundamental_div_mod, lemma_mod_mod, lemma_mul_mod_noop_left, lemma_add_mod_noop, lemma_mod_multiples_vanish, lemma_small_mod};

verus! {

/// Neurons per layer (the hidden size of the served model).
pub const HIDDEN_SIZE: u32 = 2048;

/// Neurons predicted active per layer (5% of the hidden size).
pub const ACTIVE_NEURONS: usize = 102;

/// Multiplier of the generator that draws neurons.
pub const LCG_MULTIPLIER: u64 = 6364136223846793005;

/// Increment of the generator that draws neurons.
pub const LCG_INCREMENT: u64 = 1442695040888963407;

/// Draws within which every neuron comes up (2^43).
pub const DRAWS_TO_COVER: u64 = 0x800_0000_0000;

/// Byte `i` of the input hash placed in its lane of a 64-bit word.
pub open spec fn lane(b: u8, i: int) -> u64 {
    (b as u64) << (((i % 8) * 8) as u64)
}

/// The seed of an input hash: the wrapping sum of its bytes, each in its lane.
pub open spec fn hash_seed(h: Seq<u8>) -> u64
    decreases h.len(),
{
    if h.len() == 0 {
        0
    } else {
        vstd::wrapping::u64_specs::wrapping_add(hash_seed(h.drop_last()), lane(h.last(), h.len() - 1))
    }
}

/// The seed of the empty hash is 0, and each further byte adds itself, shifted left by
/// eight bits for each place its index has past a multiple of eight, to the seed of the
/// bytes before it (wrapping).
pub proof fn law_hash_seed_adds_each_byte(h: Seq<u8>, b: u8)
    ensures
        hash_seed(Seq::<u8>::empty()) == 0,
        hash_seed(h.push(b)) == vstd::wrapping::u64_specs::wrapping_add(
            hash_seed(h),
            (b as u64) << (((h.len() % 8) * 8) as u64),
        ),
{
    assert(h.push(b).drop_last() =~= h);
}

/// The generator's first state for an input hash and a layer.
pub open spec fn start_state(h: Seq<u8>, layer_id: u32) -> u64 {
    vstd::wrapping::u64_specs::wrapping_add(hash_seed(h), layer_id as u64)
}

/// One step of the generator (wrapping arithmetic).
pub open spec fn lcg_step(x: u64) -> u64 {
    vstd::wrapping::u64_specs::wrapping_add(
        vstd::wrapping::u64_specs::wrapping_mul(x, LCG_MULTIPLIER),
        LCG_INCREMENT,
    )
}

/// The generator's state after `k` steps from `s0`.
pub open spec fn state_after(s0: u64, k: nat) -> u64
    decreases k,
{
    if k == 0 {
        s0
    } else {
        lcg_step(state_after(s0, (k - 1) as nat))
    }
}

/// The neuron that a state draws: bits 32 and up of the state, modulo the hidden size.
pub open spec fn neuron_of(x: u64) -> u32 {
    ((x >> 32u64) % 2048) as u32
}

/// The first `n` neurons drawn from `s0` (one per step, the first after one step).
pub open spec fn draws(s0: u64, n: nat) -> Seq<u32> {
    Seq::new(n, |i: int| neuron_of(state_after(s0, (i + 1) as nat)))
}

/// `a` and `b` hold the same values.
pub open spec fn same_values(a: Seq<u32>, b: Seq<u32>) -> bool {
    forall|w: u32| a.contains(w) <==> b.contains(w)
}

/// The `n`-th draw from `s0` is a neuron that the draws before it had not brought up.
pub open spec fn last_draw_new(s0: u64, n: nat) -> bool {
    n >= 1 && !draws(s0, (n - 1) as nat).contains(draws(s0, n)[n - 1])
}

/// `r` holds the neurons of the first `n` draws from `s0`, and `n` is the draw at which
/// the number of distinct neurons first reached the number predicted active.
pub open spec fn predicted_by(r: Seq<u32>, s0: u64, n: nat) -> bool {
    &&& same_values(r, draws(s0, n))
    &&& r.len() == ACTIVE_NEURONS
    &&& last_draw_new(s0, n)
}

/// The seed of an input hash.
fn seed_of(h: &[u8]) -> (seed: u64)
    ensures
        seed == hash_seed(h@),
{
    let mut seed: u64 = 0;
    let mut i: usize = 0;
    while i < h.len()
        invariant
            i <= h.len(),
            seed == hash_seed(h@.take(i as int)),
        decreases h.len() - i,
    {
        let sh: u64 = ((i % 8) * 8) as u64;
        assert(h@.take(i + 1).drop_last() =~= h@.take(i as int));
        seed = seed.wrapping_add((h[i] as u64) << sh);
        i = i + 1;
    }
    assert(h@.take(i as int) =~= h@);
    seed
}

/// One step of the generator.
fn next_state(x: u64) -> (y: u64)
    ensures
        y == lcg_step(x),
{
    x.wrapping_mul(LCG_MULTIPLIER).wrapping_add(LCG_INCREMENT)
}

/// The neuron that a state draws.
fn neuron_at(x: u64) -> (n: u32)
    ensures
        n == neuron_of(x),
        n < 2048,
{
    let high = x >> 32u64;
    assert(high <= 0xffff_ffffu64) by (bit_vector)
        requires
            high == x >> 32u64,
    ;
    (high as u32) % 2048
}

proof fn lemma_draws_push(s0: u64, n: nat)
    ensures
        draws(s0, n + 1) =~= draws(s0, n).push(neuron_of(state_after(s0, n + 1))),
{
}

proof fn lemma_push_contains(s: Seq<u32>, x: u32)
    ensures
        forall|w: u32| #[trigger] s.push(x).contains(w) <==> (s.contains(w) || w == x),
{
    assert forall|w: u32| #[trigger] s.push(x).contains(w) <==> (s.contains(w) || w == x) by {
        if w == x {
            assert(s.push(x)[s.len() as int] == x);
        }
        if s.contains(w) {
            let k = choose|k: int| 0 <= k < s.len() && s[k] == w;
            assert(s.push(x)[k] == w);
        }
    }
}

/// Note the neuron `idx` as drawn.
fn record_draw(seen: &mut Vec<bool>, found: &mut Vec<u32>, idx: u32)
    requires
        old(seen)@.len() == 2048,
        idx < 2048,
        old(found)@.no_duplicates(),
        forall|w: int| 0 <= w < 2048 ==> (old(seen)@[w] <==> old(found)@.contains(w as u32)),
        forall|w: u32| old(found)@.contains(w) ==> w < 2048,
    ensures
        final(seen)@.len() == 2048,
        final(found)@.no_duplicates(),
        forall|w: int| 0 <= w < 2048 ==> (final(seen)@[w] <==> final(found)@.contains(w as u32)),
        forall|w: u32| final(found)@.contains(w) ==> w < 2048,
        final(found)@ == (if old(found)@.contains(idx) {
            old(found)@
        } else {
            old(found)@.push(idx)
        }),
{
    if !seen[idx as usize] {
        let ghost before = found@;
        seen.set(idx as usize, true);
        found.push(idx);
        proof {
            lemma_push_contains(before, idx);
            assert forall|w: int| 0 <= w < 2048 implies (seen@[w] <==> found@.contains(w as u32)) by {
                assert(found@.contains(w as u32) <==> (before.contains(w as u32) || w as u32 == idx));
            }
        }
    }
}

proof fn lemma_draws_step(s0: u64, n: nat, before: Seq<u32>, after: Seq<u32>)
    requires
        same_values(before, draws(s0, n)),
        before.len() < ACTIVE_NEURONS,
        after == (if before.contains(neuron_of(state_after(s0, n + 1))) {
            before
        } else {
            before.push(neuron_of(state_after(s0, n + 1)))
        }),
    ensures
        same_values(after, draws(s0, n + 1)),
        after.len() == ACTIVE_NEURONS ==> last_draw_new(s0, n + 1),
{
    let x = neuron_of(state_after(s0, n + 1));
    lemma_draws_push(s0, n);
    lemma_push_contains(before, x);
    lemma_push_contains(draws(s0, n), x);
    assert(draws(s0, n + 1)[n as int] == x);
}

// Every neuron comes up within 2^43 draws: the generator taken modulo 2^k reaches
// every residue within 2^k steps, for k up to 43, and bits 32 to 42 of the state are
// the neuron.

/// One step of the generator over the integers, without wrapping.
pub open spec fn lcg_int(y: int) -> int {
    y * (LCG_MULTIPLIER as int) + (LCG_INCREMENT as int)
}

/// `n` steps of the generator over the integers from `y`.
pub open spec fn iter_int(y: int, n: nat) -> int
    decreases n,
{
    if n == 0 {
        y
    } else {
        lcg_int(iter_int(y, (n - 1) as nat))
    }
}

/// The multiplier of 2^j steps of the generator.
pub open spec fn jump_mul(j: nat) -> int
    decreases j,
{
    if j == 0 {
        LCG_MULTIPLIER as int
    } else {
        jump_mul((j - 1) as nat) * jump_mul((j - 1) as nat)
    }
}

/// The increment of 2^j steps of the generator.
pub open spec fn jump_add(j: nat) -> int
    decreases j,
{
    if j == 0 {
        LCG_INCREMENT as int
    } else {
        jump_add((j - 1) as nat) * (jump_mul((j - 1) as nat) + 1)
    }
}

proof fn lemma_state_is_iter(s0: u64, k: nat)
    ensures
        state_after(s0, k) as int == iter_int(s0 as int, k) % 0x1_0000_0000_0000_0000,
    decreases k,
{
    let m: int = 0x1_0000_0000_0000_0000;
    if k == 0 {
        lemma_small_mod(s0 as nat, m as nat);
    } else {
        lemma_state_is_iter(s0, (k - 1) as nat);
        let x = state_after(s0, (k - 1) as nat);
        let y = iter_int(s0 as int, (k - 1) as nat);
        let a = LCG_MULTIPLIER as int;
        let c = LCG_INCREMENT as int;
        let wm = vstd::wrapping::u64_specs::wrapping_mul(x, LCG_MULTIPLIER);
        assert(wm as int == (x as int * a) % m);
        lemma_mul_mod_noop_left(y, a, m);
        assert(wm as int == (y * a) % m);
        let r = lcg_step(x);
        lemma_small_mod(c as nat, m as nat);
        lemma_add_mod_noop(y * a, c, m);
        if wm as int + c >= m {
            lemma_mod_multiples_vanish(1, wm as int + c - m, m);
            lemma_small_mod((wm as int + c - m) as nat, m as nat);
            assert(r as int == wm as int + c - m);
        } else {
            lemma_small_mod((wm as int + c) as nat, m as nat);
        }
        assert(r as int == (wm as int + c) % m);
    }
}

proof fn lemma_iter_add(y: int, n: nat, m: nat)
    ensures
        iter_int(y, n + m) == iter_int(iter_int(y, n), m),
    decreases m,
{
    if m > 0 {
        lemma_iter_add(y, n, (m - 1) as nat);
        assert((n + m - 1) as nat == n + (m - 1) as nat);
    }
}

proof fn lemma_jump(z: int, j: nat)
    ensures
        iter_int(z, pow2(j)) == jump_mul(j) * z + jump_add(j),
    decreases j,
{
    if j == 0 {
        lemma2_to64();
        assert(iter_int(z, 1) == lcg_int(iter_int(z, 0)));
        assert(z * (LCG_MULTIPLIER as int) == (LCG_MULTIPLIER as int) * z) by (nonlinear_arith);
    } else {
        let h = pow2((j - 1) as nat);
        lemma_pow2_unfold(j);
        lemma_jump(z, (j - 1) as nat);
        let a = jump_mul((j - 1) as nat);
        let c = jump_add((j - 1) as nat);
        lemma_iter_add(z, h, h);
        assert(h + h == pow2(j));
        lemma_jump(a * z + c, (j - 1) as nat);
        assert(a * (a * z + c) + c == (a * a) * z + c * (a + 1)) by (nonlinear_arith);
    }
}

proof fn lemma_jump_shape(j: nat) -> (uv: (int, int))
    ensures
        jump_mul(j) == 1 + pow2(j + 2) * uv.0,
        jump_add(j) == pow2(j) * (2 * uv.1 + 1),
    decreases j,
{
    if j == 0 {
        lemma2_to64();
        let u: int = (LCG_MULTIPLIER as int - 1) / 4;
        let v: int = (LCG_INCREMENT as int - 1) / 2;
        assert(LCG_MULTIPLIER as int == 1 + 4 * u);
        assert(LCG_INCREMENT as int == 2 * v + 1);
        (u, v)
    } else {
        let jj = (j - 1) as nat;
        let (u, v) = lemma_jump_shape(jj);
        let q = pow2(jj + 1) as int;
        let r = pow2(jj) as int;
        lemma_pow2_unfold(jj + 1);
        lemma_pow2_unfold(jj + 2);
        lemma_pow2_unfold(jj + 3);
        assert(pow2(jj + 2) == 2 * q);
        assert(pow2(jj + 3) == 4 * q);
        assert(q == 2 * r);
        let a = jump_mul(jj);
        let c = jump_add(jj);
        let u2 = u + q * (u * u);
        let v2 = v + r * u * (2 * v + 1);
        assert(a * a == 1 + (4 * q) * u2) by (nonlinear_arith)
            requires
                a == 1 + (2 * q) * u,
                u2 == u + q * (u * u),
        ;
        assert(c * (a + 1) == (2 * r) * (2 * v2 + 1)) by (nonlinear_arith)
            requires
                a == 1 + (2 * q) * u,
                c == r * (2 * v + 1),
                q == 2 * r,
                v2 == v + r * u * (2 * v + 1),
        ;
        assert(j + 2 == jj + 3);
        (u2, v2)
    }
}

/// 2^j steps add 2^j modulo 2^(j+1).
proof fn lemma_jump_mod(z: int, j: nat) -> (w: int)
    ensures
        iter_int(z, pow2(j)) == z + pow2(j) + pow2(j + 1) * w,
{
    lemma_jump(z, j);
    let (u, v) = lemma_jump_shape(j);
    lemma_pow2_unfold(j + 1);
    lemma_pow2_unfold(j + 2);
    let q = pow2(j + 1) as int;
    let r = pow2(j) as int;
    let w = 2 * u * z + v;
    let a = jump_mul(j);
    let c = jump_add(j);
    assert(a * z == z + q * (2 * u * z)) by (nonlinear_arith)
        requires
            a == 1 + (2 * q) * u,
    ;
    assert(c == r + q * v) by (nonlinear_arith)
        requires
            c == r * (2 * v + 1),
            q == 2 * r,
    ;
    assert(q * (2 * u * z) + q * v == q * w) by (nonlinear_arith)
        requires
            w == 2 * u * z + v,
    ;
    w
}

/// From any start, the generator reaches any residue modulo 2^j within 2^j steps.
proof fn lemma_reach(y: int, t: int, j: nat) -> (nk: (nat, int))
    ensures
        nk.0 < pow2(j),
        iter_int(y, nk.0) - t == pow2(j) * nk.1,
    decreases j,
{
    if j == 0 {
        lemma2_to64();
        (0, y - t)
    } else {
        let jj = (j - 1) as nat;
        let (n0, k0) = lemma_reach(y, t, jj);
        lemma_pow2_unfold(j);
        let h = pow2(jj) as int;
        lemma_fundamental_div_mod(k0, 2);
        let m = k0 / 2;
        if k0 % 2 == 0 {
            assert(h * k0 == (2 * h) * m) by (nonlinear_arith)
                requires
                    k0 == 2 * m,
            ;
            (n0, m)
        } else {
            let z = iter_int(y, n0);
            let w = lemma_jump_mod(z, jj);
            lemma_iter_add(y, n0, pow2(jj));
            assert(iter_int(y, n0 + pow2(jj)) - t == (2 * h) * (m + 1 + w)) by (nonlinear_arith)
                requires
                    iter_int(y, n0 + pow2(jj)) == z + h + (2 * h) * w,
                    z - t == h * k0,
                    k0 == 2 * m + 1,
            ;
            (n0 + pow2(jj), m + 1 + w)
        }
    }
}

/// Every neuron is among the first 2^43 draws.
proof fn lemma_every_neuron_drawn(s0: u64, v: u32)
    requires
        v < 2048,
    ensures
        draws(s0, pow2(43)).contains(v),
{
    let p43: int = 0x800_0000_0000;
    assert(pow2(43) == p43) by {
        lemma2_to64_rest();
    }
    let t = v as int * 0x1_0000_0000;
    let (n, k) = lemma_reach(iter_int(s0 as int, 1), t, 43);
    lemma_iter_add(s0 as int, 1, n);
    lemma_state_mod(s0, (1 + n) as nat, k, t);
    lemma_neuron_bits(state_after(s0, (1 + n) as nat), v);
    assert(draws(s0, pow2(43))[n as int] == neuron_of(state_after(s0, (n + 1) as nat)));
}

proof fn lemma_state_mod(s0: u64, m: nat, k: int, t: int)
    requires
        iter_int(s0 as int, m) - t == 0x800_0000_0000 * k,
        0 <= t < 0x800_0000_0000,
    ensures
        (state_after(s0, m) as int) % 0x800_0000_0000 == t,
{
    lemma_state_is_iter(s0, m);
    lemma_mod_chain(iter_int(s0 as int, m), state_after(s0, m) as int, k, t);
}

proof fn lemma_mod_chain(it: int, x: int, k: int, t: int)
    requires
        x == it % 0x1_0000_0000_0000_0000,
        it - t == 0x800_0000_0000 * k,
        0 <= t < 0x800_0000_0000,
    ensures
        x % 0x800_0000_0000 == t,
{
    let p43: int = 0x800_0000_0000;
    lemma_mod_mod(it, p43, 0x20_0000);
    assert(p43 * 0x20_0000int == 0x1_0000_0000_0000_0000int);
    lemma_mod_multiples_vanish(k, t, p43);
    assert(it == p43 * k + t);
    lemma_small_mod(t as nat, p43 as nat);
}

proof fn lemma_neuron_bits(x: u64, v: u32)
    requires
        v < 2048,
        (x as int) % 0x800_0000_0000 == v as int * 0x1_0000_0000,
    ensures
        neuron_of(x) == v,
{
    let vv = v as u64;
    assert(x % 0x800_0000_0000u64 == vv * 0x1_0000_0000u64);
    assert(((x >> 32u64) % 2048) == vv) by (bit_vector)
        requires
            x % 0x800_0000_0000u64 == vv * 0x1_0000_0000u64,
            vv < 2048,
    ;
}

/// A list without repeats that holds every neuron holds at least 2048 entries.
proof fn lemma_all_neurons_len(found: Seq<u32>)
    requires
        found.no_duplicates(),
        forall|v: u32| v < 2048 ==> #[trigger] found.contains(v),
    ensures
        found.len() >= 2048,
{
    let all = Seq::new(2048, |i: int| i as u32);
    assert(all.no_duplicates());
    all.unique_seq_to_set();
    found.unique_seq_to_set();
    assert(all.to_set().subset_of(found.to_set())) by {
        assert forall|v: u32| all.to_set().contains(v) implies found.to_set().contains(v) by {
            let i = choose|i: int| 0 <= i < all.len() && all[i] == v;
            assert(v < 2048);
            assert(found.contains(v));
        }
    }
    vstd::seq_lib::seq_to_set_is_finite(found);
    vstd::set_lib::lemma_len_subset(all.to_set(), found.to_set());
}

/// After 2^43 draws, the neurons drawn, without repeats, are at least all 2048.
proof fn lemma_found_all(s0: u64, found: Seq<u32>)
    requires
        found.no_duplicates(),
        same_values(found, draws(s0, DRAWS_TO_COVER as nat)),
    ensures
        found.len() >= 2048,
{
    assert(pow2(43) == DRAWS_TO_COVER) by {
        lemma2_to64_rest();
    }
    assert forall|v: u32| v < 2048 implies #[trigger] found.contains(v) by {
        lemma_every_neuron_drawn(s0, v);
    }
    lemma_all_neurons_len(found);
}

/// The neurons of a layer that an input is predicted to activate: a generator seeded
/// by the input hash and the layer draws neurons until `ACTIVE_NEURONS` distinct ones
/// have come up; they are returned in increasing order.
pub fn predict_active_neurons(layer_id: u32, input_hash: &str) -> (r: Vec<u32>)
    ensures
        r.len() == ACTIVE_NEURONS,
        increasing(r@),
        forall|i: int| 0 <= i < r.len() ==> r[i] < HIDDEN_SIZE,
        exists|n: nat| predicted_by(r@, start_state(input_hash.spec_bytes(), layer_id), n),
{
    let bytes = input_hash.as_bytes();
    let seed = seed_of(bytes);
    let s0 = seed.wrapping_add(layer_id as u64);
    let ghost g0 = s0;
    assert(g0 == start_state(input_hash.spec_bytes(), layer_id));
    let mut seen: Vec<bool> = Vec::new();
    let mut v: usize = 0;
    while v < 2048
        invariant
            v <= 2048,
            seen@.len() == v,
            forall|w: int| 0 <= w < v ==> !seen@[w],
        decreases 2048 - v,
    {
        seen.push(false);
        v = v + 1;
    }
    let mut found: Vec<u32> = Vec::new();
    let mut steps: u64 = 0;
    let mut state = s0;
    while found.len() < ACTIVE_NEURONS
        invariant
            seen@.len() == 2048,
            state == state_after(g0, steps as nat),
            steps <= DRAWS_TO_COVER,
            found.len() < ACTIVE_NEURONS ==> steps < DRAWS_TO_COVER,
            found@.no_duplicates(),
            found.len() <= ACTIVE_NEURONS,
            same_values(found@, draws(g0, steps as nat)),
            forall|w: int| 0 <= w < 2048 ==> (seen@[w] <==> found@.contains(w as u32)),
            forall|w: u32| found@.contains(w) ==> w < 2048,
            found.len() == ACTIVE_NEURONS ==> last_draw_new(g0, steps as nat),
        decreases DRAWS_TO_COVER - steps,
    {
        state = next_state(state);
        steps = steps + 1;
        let idx = neuron_at(state);
        let ghost before = found@;
        record_draw(&mut seen, &mut found, idx);
        proof {
            lemma_draws_step(g0, (steps - 1) as nat, before, found@);
            if steps == DRAWS_TO_COVER {
                lemma_found_all(g0, found@);
            }
        }
    }
    let mut r: Vec<u32> = Vec::new();
    let mut w: u32 = 0;
    while w < 2048
        invariant
            w <= 2048,
            seen@.len() == 2048,
            forall|i: int, j: int| 0 <= i < j < r.len() ==> r[i] < r[j],
            forall|i: int| 0 <= i < r.len() ==> r[i] < w,
            forall|x: u32| r@.contains(x) <==> (x < w && seen@[x as int]),
        decreases 2048 - w,
    {
        if seen[w as usize] {
            let ghost before = r@;
            r.push(w);
            proof {
                assert forall|x: u32| r@.contains(x) <==> (x < w + 1 && seen@[x as int]) by {
                    if x == w {
                        assert(r@[r@.len() - 1] == w);
                    }
                    if before.contains(x) {
                        let k = choose|k: int| 0 <= k < before.len() && before[k] == x;
                        assert(r@[k] == x);
                    }
                }
            }
        }
        w = w + 1;
    }
    proof {
        assert(r@.no_duplicates()) by {
            assert forall|i: int, j: int| 0 <= i < r.len() && 0 <= j < r.len() && i != j implies r@[i]
                != r@[j] by {
                if i < j {
                    assert(r[i] < r[j]);
                } else {
                    assert(r[j] < r[i]);
                }
            }
        }
        assert(r@.to_set() =~= found@.to_set());
        r@.unique_seq_to_set();
        found@.unique_seq_to_set();
        assert(predicted_by(r@, g0, steps as nat));
    }
    r
}

/// Whether `r` is strictly increasing.
pub open spec fn increasing(r: Seq<u32>) -> bool {
    forall|i: int, j: int| 0 <= i < j < r.len() ==> r[i] < r[j]
}

/// The number of distinct neurons among the first `n` draws from `s0`.
pub open spec fn distinct_drawn(s0: u64, n: nat) -> nat {
    draws(s0, n).to_set().len()
}

proof fn lemma_increasing_no_duplicates(r: Seq<u32>)
    requires
        increasing(r),
    ensures
        r.no_duplicates(),
{
    assert forall|i: int, j: int| 0 <= i < r.len() && 0 <= j < r.len() && i != j implies r[i]
        != r[j] by {
        if i < j {
            assert(r[i] < r[j]);
        } else {
            assert(r[j] < r[i]);
        }
    }
}

proof fn lemma_count_of_values(r: Seq<u32>, s0: u64, n: nat)
    requires
        r.no_duplicates(),
        same_values(r, draws(s0, n)),
    ensures
        r.len() == distinct_drawn(s0, n),
{
    assert(r.to_set() =~= draws(s0, n).to_set());
    r.unique_seq_to_set();
}

proof fn lemma_distinct_drawn_step(s0: u64, n: nat)
    ensures
        distinct_drawn(s0, n) <= distinct_drawn(s0, n + 1) <= distinct_drawn(s0, n) + 1,
        last_draw_new(s0, n + 1) ==> distinct_drawn(s0, n + 1) == distinct_drawn(s0, n) + 1,
{
    let x = neuron_of(state_after(s0, n + 1));
    lemma_draws_push(s0, n);
    lemma_push_contains(draws(s0, n), x);
    assert(draws(s0, n + 1)[n as int] == x);
    assert(draws(s0, n + 1).to_set() =~= draws(s0, n).to_set().insert(x));
    vstd::seq_lib::seq_to_set_is_finite(draws(s0, n));
}

proof fn lemma_distinct_drawn_monotone(s0: u64, n: nat, m: nat)
    requires
        n <= m,
    ensures
        distinct_drawn(s0, n) <= distinct_drawn(s0, m),
    decreases m - n,
{
    if n < m {
        lemma_distinct_drawn_monotone(s0, n, (m - 1) as nat);
        lemma_distinct_drawn_step(s0, (m - 1) as nat);
    }
}

proof fn lemma_increasing_unique(a: Seq<u32>, b: Seq<u32>)
    requires
        increasing(a),
        increasing(b),
        forall|w: u32| a.contains(w) <==> b.contains(w),
    ensures
        a == b,
    decreases a.len(),
{
    if a.len() == 0 {
        if b.len() > 0 {
            assert(b.contains(b[0]));
        }
        assert(a =~= b);
    } else {
        assert(a.contains(a.last()));
        assert(b.len() > 0);
        assert(b.contains(b.last()));
        let ka = choose|k: int| 0 <= k < a.len() && a[k] == b.last();
        let kb = choose|k: int| 0 <= k < b.len() && b[k] == a.last();
        assert(a.last() == b.last()) by {
            if ka < a.len() - 1 {
                assert(a[ka] < a.last());
            }
            if kb < b.len() - 1 {
                assert(b[kb] < b.last());
            }
        }
        let a2 = a.drop_last();
        let b2 = b.drop_last();
        assert forall|w: u32| a2.contains(w) <==> b2.contains(w) by {
            if a2.contains(w) {
                let k = choose|k: int| 0 <= k < a2.len() && a2[k] == w;
                assert(a.contains(w));
                assert(a[k] < a.last());
                let j = choose|j: int| 0 <= j < b.len() && b[j] == w;
                if j == b.len() - 1 {
                    assert(false);
                }
                assert(b2[j] == w);
            }
            if b2.contains(w) {
                let k = choose|k: int| 0 <= k < b2.len() && b2[k] == w;
                assert(b.contains(w));
                assert(b[k] < b.last());
                let j = choose|j: int| 0 <= j < a.len() && a[j] == w;
                if j == a.len() - 1 {
                    assert(false);
                }
                assert(a2[j] == w);
            }
        }
        lemma_increasing_unique(a2, b2);
        assert(a =~= a2.push(a.last()));
        assert(b =~= b2.push(b.last()));
    }
}

/// Prediction is deterministic: two predictions for the same generator start (the same
/// input hash and layer) give the same neurons.
pub proof fn law_prediction_deterministic(s0: u64, r1: Seq<u32>, n1: nat, r2: Seq<u32>, n2: nat)
    requires
        increasing(r1),
        increasing(r2),
        predicted_by(r1, s0, n1),
        predicted_by(r2, s0, n2),
    ensures
        r1 == r2,
{
    lemma_increasing_no_duplicates(r1);
    lemma_increasing_no_duplicates(r2);
    lemma_count_of_values(r1, s0, n1);
    lemma_count_of_values(r2, s0, n2);
    lemma_distinct_drawn_step(s0, (n1 - 1) as nat);
    lemma_distinct_drawn_step(s0, (n2 - 1) as nat);
    if n1 < n2 {
        lemma_distinct_drawn_monotone(s0, n1, (n2 - 1) as nat);
        lemma_distinct_drawn_monotone(s0, n1, n2);
    } else if n2 < n1 {
        lemma_distinct_drawn_monotone(s0, n2, (n1 - 1) as nat);
        lemma_distinct_drawn_monotone(s0, n2, n1);
    }
    assert(n1 == n2);
    lemma_increasing_unique(r1, r2);
}

/// The reply to an activation prediction: whether it succeeded, its message, and the
/// neurons predicted active.
pub struct PredictionReply {
    pub success: bool,
    pub message: String,
    pub active_neurons: Vec<u32>,
}

/// The reply to a request to predict the neurons of layer `layer_id` that the input
/// with hash `input_hash` activates: a success, the message "GFEF prediction for
/// layer N", and the predicted neurons.
pub fn prediction_reply(layer_id: u32, input_hash: &str) -> (r: PredictionReply)
    ensures
        r.success,
        r.message@ == "GFEF prediction for layer "@ + decimal(layer_id as nat),
        r.active_neurons.len() == ACTIVE_NEURONS,
        increasing(r.active_neurons@),
        forall|i: int| 0 <= i < r.active_neurons.len() ==> r.active_neurons[i] < HIDDEN_SIZE,
        exists|n: nat| predicted_by(r.active_neurons@, start_state(input_hash.spec_bytes(), layer_id), n),
{
    let active_neurons = predict_active_neurons(layer_id, input_hash);
    let mut message = String::from_str("GFEF prediction for layer ");
    push_decimal(&mut message, layer_id as u64);
    PredictionReply { success: true, message, active_neurons }
}

/// A calibration tier: its code and the compression ratio it grants.
#[derive(Debug, Clone, Copy, PartialEq, Eq, Structural)]
pub struct TierTerms {
    pub code: u8,
    pub compression_ratio: u64,
}

/// Whether the lower case of `s` is the lower-case ASCII word `w`.
pub open spec fn names(s: Seq<char>, w: Seq<char>) -> bool {
    s.len() == w.len() && key_at(s, 0, s.len() as int, w)
}

/// The terms of the tier that `name` names, letters compared without case: none,
/// basic, standard, professional and enterprise; any other name is professional.
pub open spec fn tier_terms(name: Seq<char>) -> TierTerms {
    if names(name, "none"@) {
        TierTerms { code: 0, compression_ratio: 1 }
    } else if names(name, "basic"@) {
        TierTerms { code: 1, compression_ratio: 10 }
    } else if names(name, "standard"@) {
        TierTerms { code: 2, compression_ratio: 100 }
    } else if names(name, "professional"@) {
        TierTerms { code: 3, compression_ratio: 1250 }
    } else if names(name, "enterprise"@) {
        TierTerms { code: 4, compression_ratio: 10000 }
    } else {
        TierTerms { code: 3, compression_ratio: 1250 }
    }
}

/// The code of the lower case of a character, as `char::to_lowercase` gives it where
/// that is a single ASCII letter: 'A'..'Z' become 'a'..'z', the Kelvin sign becomes
/// 'k'; any other character keeps its code.
pub open spec fn lower_code(c: char) -> u32 {
    if 65 <= (c as u32) <= 90 {
        ((c as u32) + 32) as u32
    } else if (c as u32) == 0x212A {
        107
    } else {
        c as u32
    }
}

/// The character codes of `s`.
pub open spec fn codes(s: Seq<char>) -> Seq<u32> {
    s.map_values(|c: char| c as u32)
}

/// The codes of the lower case of `s`, one character at a time.
pub open spec fn lowered(s: Seq<char>) -> Seq<u32> {
    s.map_values(|c: char| lower_code(c))
}

/// Every character of `w` is a lower-case ASCII letter.
pub open spec fn lower_word(w: Seq<char>) -> bool {
    forall|k: int| 0 <= k < w.len() ==> 97 <= (#[trigger] w[k] as u32) <= 122
}

/// For a lower-case word, `s` names it exactly when the lower case of `s` is the word.
proof fn lemma_names_is_lowered(s: Seq<char>, w: Seq<char>)
    requires
        lower_word(w),
    ensures
        names(s, w) <==> lowered(s) == codes(w),
{
    if names(s, w) {
        assert forall|k: int| 0 <= k < s.len() implies lowered(s)[k] == codes(w)[k] by {
            assert(lower_eq(s[0 + k], w[k]));
            assert(97 <= (w[k] as u32) <= 122);
        }
        assert(lowered(s) =~= codes(w));
    }
    if lowered(s) == codes(w) {
        assert(s.len() == lowered(s).len() && w.len() == codes(w).len());
        assert forall|k: int| 0 <= k < w.len() implies lower_eq(#[trigger] s[0 + k], w[k]) by {
            assert(lowered(s)[k] == codes(w)[k]);
            assert(97 <= (w[k] as u32) <= 122);
            let c = s[k];
            vstd::utf8::char_u32_cast(c, c as u32);
            vstd::utf8::char_u32_cast(w[k], w[k] as u32);
            if 65 <= (c as u32) <= 90 {
            } else if (c as u32) == 0x212A {
                assert(('k' as u32) == 107);
                vstd::utf8::char_u32_cast('k', 107);
                assert(w[k] == 'k');
            } else {
                assert(c == w[k]);
            }
        }
    }
}

proof fn lemma_tier_words()
    ensures
        lower_word("none"@),
        lower_word("basic"@),
        lower_word("standard"@),
        lower_word("professional"@),
        lower_word("enterprise"@),
{
    reveal_strlit("none");
    reveal_strlit("basic");
    reveal_strlit("standard");
    reveal_strlit("professional");
    reveal_strlit("enterprise");
}

/// Tier names are compared by their lower case: two names whose lower cases are equal
/// get the same terms, and a name whose lower case is "none" gets code 0 and ratio 1
/// ("basic": 1 and 10, "standard": 2 and 100, "professional": 3 and 1250,
/// "enterprise": 4 and 10000).
pub proof fn law_tier_by_lower_case(n1: Seq<char>, n2: Seq<char>)
    ensures
        lowered(n1) == lowered(n2) ==> tier_terms(n1) == tier_terms(n2),
        lowered(n1) == codes("none"@) ==> tier_terms(n1) == (TierTerms { code: 0, compression_ratio: 1 }),
        lowered(n1) == codes("basic"@) ==> tier_terms(n1) == (TierTerms { code: 1, compression_ratio: 10 }),
        lowered(n1) == codes("standard"@) ==> tier_terms(n1) == (TierTerms { code: 2, compression_ratio: 100 }),
        lowered(n1) == codes("professional"@) ==> tier_terms(n1) == (TierTerms {
            code: 3,
            compression_ratio: 1250,
        }),
        lowered(n1) == codes("enterprise"@) ==> tier_terms(n1) == (TierTerms {
            code: 4,
            compression_ratio: 10000,
        }),
{
    lemma_tier_words();
    lemma_names_is_lowered(n1, "none"@);
    lemma_names_is_lowered(n1, "basic"@);
    lemma_names_is_lowered(n1, "standard"@);
    lemma_names_is_lowered(n1, "professional"@);
    lemma_names_is_lowered(n1, "enterprise"@);
    lemma_names_is_lowered(n2, "none"@);
    lemma_names_is_lowered(n2, "basic"@);
    lemma_names_is_lowered(n2, "standard"@);
    lemma_names_is_lowered(n2, "professional"@);
    lemma_names_is_lowered(n2, "enterprise"@);
    reveal_strlit("none");
    reveal_strlit("basic");
    reveal_strlit("standard");
    reveal_strlit("professional");
    reveal_strlit("enterprise");
}

fn names_exec(s: &Vec<char>, w: &str) -> (b: bool)
    ensures
        b == names(s@, w@),
{
    let wc = crate::http_request::chars_of(w);
    if s.len() != wc.len() {
        return false;
    }
    let mut k: usize = 0;
    while k < wc.len()
        invariant
            s.len() == wc.len(),
            wc@ == w@,
            0 <= k <= wc.len(),
            forall|q: int| 0 <= q < k ==> lower_eq(#[trigger] s@[0 + q], wc@[q]),
        decreases wc.len() - k,
    {
        if !crate::http_request::lower_eq_exec(s[k], wc[k]) {
            assert(!lower_eq(s@[0 + k as int], wc@[k as int]));
            return false;
        }
        k = k + 1;
    }
    true
}

/// The name of the tier that a calibration request asks for ("professional" where it
/// names none) and its terms.
pub fn calibration_tier(tier: Option<String>) -> (r: (String, TierTerms))
    ensures
        r.0@ == match tier {
            Some(t) => t@,
            None => "professional"@,
        },
        r.1 == tier_terms(r.0@),
{
    let name = match tier {
        Some(t) => t,
        None => String::from_str("professional"),
    };
    let cs = crate::http_request::chars_of(name.as_str());
    let terms = if names_exec(&cs, "none") {
        TierTerms { code: 0, compression_ratio: 1 }
    } else if names_exec(&cs, "basic") {
        TierTerms { code: 1, compression_ratio: 10 }
    } else if names_exec(&cs, "standard") {
        TierTerms { code: 2, compression_ratio: 100 }
    } else if names_exec(&cs, "professional") {
        TierTerms { code: 3, compression_ratio: 1250 }
    } else if names_exec(&cs, "enterprise") {
        TierTerms { code: 4, compression_ratio: 10000 }
    } else {
        TierTerms { code: 3, compression_ratio: 1250 }
    };
    (name, terms)
}

} // verus!
