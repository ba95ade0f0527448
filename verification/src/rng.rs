//! A small seedable pseudo-random number generator: SplitMix64.
//!
//! It is not cryptographically secure. Its whole behaviour is a function of
//! its 64-bit state, which the specifications below spell out: the state
//! advances by a fixed odd constant on every draw, and each draw is the
//! SplitMix64 finaliser applied to the new state.
use vstd::prelude::*;

verus! {

/// The odd constant that the state advances by on every draw.
pub const GAMMA: u64 = 0x9E37_79B9_7F4A_7C15;

/// The inverse of `GAMMA` modulo 2^64.
pub const GAMMA_INVERSE: u64 = 0xF1DE_83E1_9937_733D;

/// First multiplier of the finaliser.
pub const MIX_FIRST: u64 = 0xBF58_476D_1CE4_E5B9;

/// Second multiplier of the finaliser.
pub const MIX_SECOND: u64 = 0x94D0_49BB_1331_11EB;

/// The one state on which the finaliser returns 1.
pub const MIX_TO_ONE: u64 = 0x966D_BFC1_6913_C5D2;

/// Multiplication modulo 2^64.
pub open spec fn wmul(x: u64, y: u64) -> u64 {
    vstd::wrapping::u64_specs::wrapping_mul(x, y)
}

/// Addition modulo 2^64.
pub open spec fn wadd(x: u64, y: u64) -> u64 {
    vstd::wrapping::u64_specs::wrapping_add(x, y)
}

/// Subtraction modulo 2^64.
pub open spec fn wsub(x: u64, y: u64) -> u64 {
    vstd::wrapping::u64_specs::wrapping_sub(x, y)
}

/// The SplitMix64 finaliser.
pub open spec fn mix(z: u64) -> u64 {
    let z1 = wmul(z ^ (z >> 30u64), MIX_FIRST);
    let z2 = wmul(z1 ^ (z1 >> 27u64), MIX_SECOND);
    z2 ^ (z2 >> 31u64)
}

/// The state after one draw from state `s`.
pub open spec fn advance(s: u64) -> u64 {
    wadd(s, GAMMA)
}

/// The value of one draw from state `s`.
pub open spec fn draw(s: u64) -> u64 {
    mix(advance(s))
}

/// The first `n` draws from state `s`.
pub open spec fn stream(s: u64, n: nat) -> Seq<u64>
    decreases n,
{
    if n == 0 {
        Seq::empty()
    } else {
        seq![draw(s)] + stream(advance(s), (n - 1) as nat)
    }
}

/// The low 64 bits of `x * bound`.
pub open spec fn low_word(x: u64, bound: u64) -> u64 {
    wmul(x, bound)
}

/// The high 64 bits of `x * bound`: `x` scaled into `0..bound`.
pub open spec fn high_word(x: u64, bound: u64) -> u64 {
    ((x as int * bound as int) / 0x1_0000_0000_0000_0000int) as u64
}

/// Draws whose low word falls below this are rejected: `2^64 mod bound`.
pub open spec fn rejection_threshold(bound: u64) -> u64 {
    wsub(0, bound) % bound
}

/// How many draws from state `s` until the state is `MIX_TO_ONE`.
pub open spec fn distance_to_one(s: u64) -> u64 {
    wmul(wsub(MIX_TO_ONE, s), GAMMA_INVERSE)
}

/// The finaliser sends `MIX_TO_ONE` to 1.
pub proof fn lemma_mix_to_one()
    ensures
        mix(MIX_TO_ONE) == 1,
{
    assert(mix(0x966D_BFC1_6913_C5D2u64) == 1) by (bit_vector);
}

/// Away from `MIX_TO_ONE`, one draw brings the state one step closer to it.
pub proof fn lemma_distance_advance(s: u64)
    requires
        s != MIX_TO_ONE,
    ensures
        distance_to_one(s) != 0,
        distance_to_one(advance(s)) == distance_to_one(s) - 1,
{
    assert(s != 0x966D_BFC1_6913_C5D2u64 ==> wmul(wsub(0x966D_BFC1_6913_C5D2u64, s), 0xF1DE_83E1_9937_733Du64) != 0)
        by (bit_vector);
    assert(wmul(wsub(0x966D_BFC1_6913_C5D2u64, wadd(s, 0x9E37_79B9_7F4A_7C15u64)), 0xF1DE_83E1_9937_733Du64)
        == wsub(wmul(wsub(0x966D_BFC1_6913_C5D2u64, s), 0xF1DE_83E1_9937_733Du64), 1)) by (bit_vector);
}

/// The rejection threshold is below the bound.
pub proof fn lemma_threshold_below_bound(bound: u64)
    requires
        bound > 0,
    ensures
        rejection_threshold(bound) < bound,
{
}

/// A rejected draw never comes from `MIX_TO_ONE`, whose draw is 1.
pub proof fn lemma_rejected_not_target(s: u64, bound: u64)
    requires
        bound > 0,
        low_word(mix(s), bound) < rejection_threshold(bound),
    ensures
        s != MIX_TO_ONE,
{
    lemma_mix_to_one();
    lemma_threshold_below_bound(bound);
    assert(wmul(1u64, bound) == bound);
}

/// The rejection loop: the current draw is `mix(s)`; it is kept if its low
/// word reaches the threshold, else the next draw is taken.
pub open spec fn resample(s: u64, bound: u64) -> (u64, u64)
    decreases distance_to_one(s),
    when bound > 0
{
    if low_word(mix(s), bound) < rejection_threshold(bound) {
        proof {
            lemma_rejected_not_target(s, bound);
            lemma_distance_advance(s);
        }
        resample(advance(s), bound)
    } else {
        (s, high_word(mix(s), bound))
    }
}

/// What `below(bound)` does from state `s`: the state afterwards and the
/// value returned (Lemire's method).
pub open spec fn below_outcome(s: u64, bound: u64) -> (u64, u64) {
    let s1 = advance(s);
    let x = mix(s1);
    if low_word(x, bound) < bound {
        resample(s1, bound)
    } else {
        (s1, high_word(x, bound))
    }
}

proof fn lemma_high_word_below(x: u64, bound: u64)
    requires
        bound > 0,
    ensures
        high_word(x, bound) < bound,
{
    assert(x as int * bound as int <= (0x1_0000_0000_0000_0000int - 1) * bound as int) by (nonlinear_arith)
        requires
            x < 0x1_0000_0000_0000_0000int,
            bound > 0,
    ;
    assert((x as int * bound as int) / 0x1_0000_0000_0000_0000int < bound as int) by (nonlinear_arith)
        requires
            x as int * bound as int <= (0x1_0000_0000_0000_0000int - 1) * bound as int,
            x as int * bound as int >= 0,
            bound > 0,
    ;
}

proof fn lemma_resample_below(s: u64, bound: u64)
    requires
        bound > 0,
    ensures
        resample(s, bound).1 < bound,
    decreases distance_to_one(s),
{
    if low_word(mix(s), bound) < rejection_threshold(bound) {
        lemma_rejected_not_target(s, bound);
        lemma_distance_advance(s);
        lemma_resample_below(advance(s), bound);
    } else {
        lemma_high_word_below(mix(s), bound);
    }
}

/// Every value that `below(bound)` can return lies in `0..bound`.
pub proof fn lemma_below_in_range(s: u64, bound: u64)
    requires
        bound > 0,
    ensures
        below_outcome(s, bound).1 < bound,
{
    let s1 = advance(s);
    if low_word(mix(s1), bound) < bound {
        lemma_resample_below(s1, bound);
    } else {
        lemma_high_word_below(mix(s1), bound);
    }
}

/// The state after `k` draws from state `s`.
pub open spec fn advance_by(s: u64, k: nat) -> u64
    decreases k,
{
    if k == 0 {
        s
    } else {
        advance_by(advance(s), (k - 1) as nat)
    }
}

proof fn lemma_advance_by(s: u64, k: nat)
    ensures
        advance_by(s, k) == ((s + k * GAMMA) % 0x1_0000_0000_0000_0000int) as u64,
    decreases k,
{
    if k > 0 {
        let s1 = advance(s);
        lemma_advance_by(s1, (k - 1) as nat);
        assert(s1 == (s + GAMMA) % 0x1_0000_0000_0000_0000int);
        vstd::arithmetic::div_mod::lemma_add_mod_noop_right(
            (k - 1) * GAMMA,
            s + GAMMA,
            0x1_0000_0000_0000_0000int,
        );
        assert((k - 1) * GAMMA + (s + GAMMA) == s + k * GAMMA) by (nonlinear_arith);
    } else {
        assert((s as int) % 0x1_0000_0000_0000_0000int == s);
    }
}

proof fn lemma_stream_index(s: u64, n: nat, k: int)
    requires
        0 <= k < n,
    ensures
        stream(s, n)[k] == draw(advance_by(s, k as nat)),
    decreases n,
{
    lemma_stream_len(s, n);
    lemma_stream_len(advance(s), (n - 1) as nat);
    if k > 0 {
        lemma_stream_index(advance(s), (n - 1) as nat, k - 1);
        assert(advance_by(s, k as nat) == advance_by(advance(s), (k - 1) as nat));
    }
}

proof fn lemma_stream_len(s: u64, n: nat)
    ensures
        stream(s, n).len() == n,
    decreases n,
{
    if n > 0 {
        lemma_stream_len(advance(s), (n - 1) as nat);
    }
}

/// The values a generator yields depend on its seed alone: the `k`-th
/// draw (counting from 0) from seed `s` is the finaliser applied to
/// `s + (k + 1) * GAMMA` modulo 2^64.
pub proof fn lemma_stream_closed_form(s: u64, n: nat, k: int)
    requires
        0 <= k < n,
    ensures
        stream(s, n)[k] == mix(((s + (k + 1) * GAMMA) % 0x1_0000_0000_0000_0000int) as u64),
{
    lemma_stream_index(s, n, k);
    lemma_advance_by(s, (k + 1) as nat);
    assert(draw(advance_by(s, k as nat)) == mix(advance_by(s, (k + 1) as nat))) by {
        lemma_advance_by_last(s, k as nat);
    }
}

proof fn lemma_advance_by_last(s: u64, k: nat)
    ensures
        advance_by(s, k + 1) == advance(advance_by(s, k)),
    decreases k,
{
    assert(advance_by(s, k + 1) == advance_by(advance(s), k));
    if k > 0 {
        lemma_advance_by_last(advance(s), (k - 1) as nat);
        assert(advance_by(s, k) == advance_by(advance(s), (k - 1) as nat));
    } else {
        assert(advance_by(advance(s), 0) == advance(s));
    }
}

/// A draw that `below(bound)` keeps: its low word reaches the rejection
/// threshold.
pub open spec fn accepted(x: u64, bound: u64) -> bool {
    low_word(x, bound) >= rejection_threshold(bound)
}

/// The `k`-th draw from `s` (counting from 1) is the first one kept, and
/// the outcome is the state after it with its high word.
pub open spec fn first_accepted(s: u64, bound: u64, k: nat, outcome: (u64, u64)) -> bool {
    &&& k >= 1
    &&& forall|j: nat| 1 <= j < k ==> !accepted(mix(#[trigger] advance_by(s, j)), bound)
    &&& accepted(mix(advance_by(s, k)), bound)
    &&& outcome == (advance_by(s, k), high_word(mix(advance_by(s, k)), bound))
}

proof fn lemma_resample_first(s: u64, j: nat, bound: u64)
    requires
        bound > 0,
        j >= 1,
        forall|i: nat| 1 <= i < j ==> !accepted(mix(#[trigger] advance_by(s, i)), bound),
    ensures
        exists|k: nat| k >= j && first_accepted(s, bound, k, resample(advance_by(s, j), bound)),
    decreases distance_to_one(advance_by(s, j)),
{
    let sj = advance_by(s, j);
    if low_word(mix(sj), bound) < rejection_threshold(bound) {
        lemma_rejected_not_target(sj, bound);
        lemma_distance_advance(sj);
        lemma_advance_by_last(s, j);
        assert forall|i: nat| 1 <= i < j + 1 implies !accepted(mix(#[trigger] advance_by(s, i)), bound) by {
            if i == j {
            }
        }
        lemma_resample_first(s, j + 1, bound);
        assert(resample(sj, bound) == resample(advance_by(s, j + 1), bound));
    } else {
        assert(first_accepted(s, bound, j, resample(sj, bound)));
    }
}

/// `below(bound)` keeps the first draw whose low word reaches
/// `2^64 mod bound` (Lemire's rule): it returns that draw's high word and
/// leaves the generator just after it.
pub proof fn lemma_below_first_accepted(s: u64, bound: u64)
    requires
        bound > 0,
    ensures
        exists|k: nat| first_accepted(s, bound, k, below_outcome(s, bound)),
{
    let s1 = advance(s);
    assert(advance_by(s, 1) == advance_by(advance(s), 0));
    assert(advance_by(s, 1) == s1);
    if low_word(mix(s1), bound) < bound {
        lemma_resample_first(s, 1, bound);
        assert(below_outcome(s, bound) == resample(advance_by(s, 1), bound));
    } else {
        lemma_threshold_below_bound(bound);
        assert(first_accepted(s, bound, 1, below_outcome(s, bound)));
    }
}

/// The 64-bit draws `x` that `below(bound)` keeps and turns into `v`.
pub open spec fn draws_giving(bound: u64, v: int) -> Set<int> {
    Set::new(
        |x: int|
            0 <= x < 0x1_0000_0000_0000_0000int && accepted(x as u64, bound) && high_word(
                x as u64,
                bound,
            ) == v,
    )
}

/// The smallest draw that `below(bound)` keeps and turns into `v`.
pub open spec fn first_draw_giving(bound: u64, v: int) -> int {
    (v * 0x1_0000_0000_0000_0000int + 0x1_0000_0000_0000_0000int % (bound as int) + bound - 1)
        / (bound as int)
}

proof fn lemma_threshold_value(bound: u64)
    requires
        bound > 0,
    ensures
        rejection_threshold(bound) == 0x1_0000_0000_0000_0000int % (bound as int),
{
    assert(wsub(0, bound) == 0x1_0000_0000_0000_0000int - bound);
    vstd::arithmetic::div_mod::lemma_mod_sub_multiples_vanish(
        0x1_0000_0000_0000_0000int,
        bound as int,
    );
}

proof fn lemma_draw_giving_interval(bound: u64, v: int, x: int)
    requires
        bound > 0,
        0 <= v < bound,
        0 <= x < 0x1_0000_0000_0000_0000int,
    ensures
        draws_giving(bound, v).contains(x) <==> (first_draw_giving(bound, v) <= x
            < first_draw_giving(bound, v) + 0x1_0000_0000_0000_0000int / (bound as int)),
{
    let m = 0x1_0000_0000_0000_0000int;
    let b = bound as int;
    let t = m % b;
    let n = m / b;
    let l = v * m + t;
    let c = first_draw_giving(bound, v);
    let p = x * b;
    lemma_threshold_value(bound);
    lemma_product_fits(x as u64, bound);
    vstd::arithmetic::div_mod::lemma_fundamental_div_mod(m, b);
    vstd::arithmetic::div_mod::lemma_fundamental_div_mod(p, m);
    vstd::arithmetic::div_mod::lemma_fundamental_div_mod(l + b - 1, b);
    assert(0 <= t < b) by {
        vstd::arithmetic::div_mod::lemma_mod_bound(m, b);
    }
    assert(0 <= (l + b - 1) % b < b) by {
        vstd::arithmetic::div_mod::lemma_mod_bound(l + b - 1, b);
    }
    assert(0 <= p % m < m) by {
        vstd::arithmetic::div_mod::lemma_mod_bound(p, m);
    }
    assert(low_word(x as u64, bound) == p % m);
    assert(high_word(x as u64, bound) == p / m);
    // c is the least integer with c * b >= l.
    assert(c * b >= l && (c - 1) * b < l) by (nonlinear_arith)
        requires
            l + b - 1 == b * c + (l + b - 1) % b,
            0 <= (l + b - 1) % b < b,
            b > 0,
    ;
    // The draws kept with value v are those whose product lies in [l, (v + 1) * m).
    assert((draws_giving(bound, v).contains(x)) <==> (l <= p < l + n * b)) by {
        assert(l + n * b == (v + 1) * m) by (nonlinear_arith)
            requires
                m == b * n + t,
                l == v * m + t,
        ;
    }
    assert((l <= p) <==> (c <= x)) by (nonlinear_arith)
        requires
            p == x * b,
            c * b >= l,
            (c - 1) * b < l,
            b > 0,
    ;
    assert((p < l + n * b) <==> (x < c + n)) by (nonlinear_arith)
        requires
            p == x * b,
            c * b >= l,
            (c - 1) * b < l,
            b > 0,
    ;
}

/// `below(bound)` is unbiased: every value in `0..bound` comes from exactly
/// `2^64 / bound` of the 2^64 possible draws, namely those in one interval
/// starting at `first_draw_giving(bound, v)`.
pub proof fn lemma_below_unbiased(bound: u64, v: int)
    requires
        bound > 0,
        0 <= v < bound,
    ensures
        draws_giving(bound, v) == vstd::set_lib::set_int_range(
            first_draw_giving(bound, v),
            first_draw_giving(bound, v) + 0x1_0000_0000_0000_0000int / (bound as int),
        ),
        draws_giving(bound, v).finite(),
        draws_giving(bound, v).len() == 0x1_0000_0000_0000_0000int / (bound as int),
{
    let m = 0x1_0000_0000_0000_0000int;
    let b = bound as int;
    let c = first_draw_giving(bound, v);
    let n = m / b;
    let range = vstd::set_lib::set_int_range(c, c + n);
    assert forall|x: int| draws_giving(bound, v).contains(x) <==> range.contains(x) by {
        if 0 <= x < m {
            lemma_draw_giving_interval(bound, v, x);
        } else {
            lemma_range_within_draws(bound, v);
        }
    }
    assert(draws_giving(bound, v) =~= range);
    assert(n >= 0) by {
        vstd::arithmetic::div_mod::lemma_div_pos_is_pos(m, b);
    }
    vstd::set_lib::lemma_int_range(c, c + n);
}

proof fn lemma_range_within_draws(bound: u64, v: int)
    requires
        bound > 0,
        0 <= v < bound,
    ensures
        0 <= first_draw_giving(bound, v),
        first_draw_giving(bound, v) + 0x1_0000_0000_0000_0000int / (bound as int)
            <= 0x1_0000_0000_0000_0000int,
{
    let m = 0x1_0000_0000_0000_0000int;
    let b = bound as int;
    let t = m % b;
    let n = m / b;
    let l = v * m + t;
    let c = first_draw_giving(bound, v);
    vstd::arithmetic::div_mod::lemma_fundamental_div_mod(m, b);
    vstd::arithmetic::div_mod::lemma_fundamental_div_mod(l + b - 1, b);
    assert(0 <= t < b) by {
        vstd::arithmetic::div_mod::lemma_mod_bound(m, b);
    }
    assert(0 <= (l + b - 1) % b < b) by {
        vstd::arithmetic::div_mod::lemma_mod_bound(l + b - 1, b);
    }
    assert(v * m >= 0) by (nonlinear_arith)
        requires
            v >= 0,
            m > 0,
    ;
    assert(c * b >= l && (c - 1) * b < l) by (nonlinear_arith)
        requires
            l + b - 1 == b * c + (l + b - 1) % b,
            0 <= (l + b - 1) % b < b,
            b > 0,
    ;
    assert(c >= 0) by (nonlinear_arith)
        requires
            c * b >= l,
            (c - 1) * b < l,
            l >= 0,
            b > 0,
    ;
    assert((c + n - 1) * b == (c - 1) * b + n * b) by (nonlinear_arith);
    assert((c + n - 1) * b < (v + 1) * m) by (nonlinear_arith)
        requires
            (c + n - 1) * b == (c - 1) * b + n * b,
            (c - 1) * b < l,
            l == v * m + t,
            m == b * n + t,
    ;
    assert((v + 1) * m <= b * m) by (nonlinear_arith)
        requires
            v + 1 <= b,
            m > 0,
    ;
    assert(c + n <= m) by (nonlinear_arith)
        requires
            (c + n - 1) * b < b * m,
            b > 0,
    ;
}

/// The inverse of `MIX_FIRST` modulo 2^64.
pub const MIX_FIRST_INVERSE: u64 = 0x96DE_1B17_3F11_9089;

/// The inverse of `MIX_SECOND` modulo 2^64.
pub const MIX_SECOND_INVERSE: u64 = 0x3196_42B2_D24D_8EC3;

/// The inverse of the finaliser.
pub open spec fn unmix(z: u64) -> u64 {
    let z2 = z ^ (z >> 31u64) ^ (z >> 62u64);
    let z1x = wmul(z2, MIX_SECOND_INVERSE);
    let z1 = z1x ^ (z1x >> 27u64) ^ (z1x >> 54u64);
    let z0x = wmul(z1, MIX_FIRST_INVERSE);
    z0x ^ (z0x >> 30u64) ^ (z0x >> 60u64)
}

proof fn lemma_unshift_30(z: u64)
    by (bit_vector)
    ensures
        (z ^ (z >> 30u64)) ^ ((z ^ (z >> 30u64)) >> 30u64) ^ ((z ^ (z >> 30u64)) >> 60u64) == z,
{
}

proof fn lemma_unshift_27(z: u64)
    by (bit_vector)
    ensures
        (z ^ (z >> 27u64)) ^ ((z ^ (z >> 27u64)) >> 27u64) ^ ((z ^ (z >> 27u64)) >> 54u64) == z,
{
}

proof fn lemma_unshift_31(z: u64)
    by (bit_vector)
    ensures
        (z ^ (z >> 31u64)) ^ ((z ^ (z >> 31u64)) >> 31u64) ^ ((z ^ (z >> 31u64)) >> 62u64) == z,
{
}

proof fn lemma_unmultiply(z: u64)
    ensures
        wmul(wmul(z, MIX_FIRST), MIX_FIRST_INVERSE) == z,
        wmul(wmul(z, MIX_SECOND), MIX_SECOND_INVERSE) == z,
        wmul(wmul(z, GAMMA), GAMMA_INVERSE) == z,
        wsub(wadd(z, GAMMA), GAMMA) == z,
{
    assert(wmul(wmul(z, 0xBF58_476D_1CE4_E5B9u64), 0x96DE_1B17_3F11_9089u64) == z) by (bit_vector);
    assert(wmul(wmul(z, 0x94D0_49BB_1331_11EBu64), 0x3196_42B2_D24D_8EC3u64) == z) by (bit_vector);
    assert(wmul(wmul(z, 0x9E37_79B9_7F4A_7C15u64), 0xF1DE_83E1_9937_733Du64) == z) by (bit_vector);
    assert(wsub(wadd(z, 0x9E37_79B9_7F4A_7C15u64), 0x9E37_79B9_7F4A_7C15u64) == z) by (bit_vector);
}

/// The finaliser loses nothing: `unmix` undoes it.
pub proof fn lemma_unmix_mix(z: u64)
    ensures
        unmix(mix(z)) == z,
{
    let z1 = wmul(z ^ (z >> 30u64), MIX_FIRST);
    let z2 = wmul(z1 ^ (z1 >> 27u64), MIX_SECOND);
    lemma_unshift_31(z2);
    lemma_unmultiply(z1 ^ (z1 >> 27u64));
    lemma_unshift_27(z1);
    lemma_unmultiply(z ^ (z >> 30u64));
    lemma_unshift_30(z);
}

/// Different states give different draws.
pub proof fn lemma_draw_injective(s1: u64, s2: u64)
    requires
        s1 != s2,
    ensures
        draw(s1) != draw(s2),
{
    lemma_unmultiply(s1);
    lemma_unmultiply(s2);
    lemma_unmix_mix(advance(s1));
    lemma_unmix_mix(advance(s2));
}

/// Two generators seeded from the same clock reading with different counter
/// values diverge: their first draws differ.
pub proof fn lemma_entropy_seeds_diverge(nanos: u64, count1: u64, count2: u64)
    requires
        count1 != count2,
    ensures
        draw(nanos ^ wmul(count1, GAMMA)) != draw(nanos ^ wmul(count2, GAMMA)),
{
    lemma_unmultiply(count1);
    lemma_unmultiply(count2);
    let m1 = wmul(count1, GAMMA);
    let m2 = wmul(count2, GAMMA);
    assert(m1 != m2 ==> nanos ^ m1 != nanos ^ m2) by (bit_vector);
    lemma_draw_injective(nanos ^ m1, nanos ^ m2);
}

/// A seedable SplitMix64 generator.
#[derive(Debug)]
pub struct Rng {
    state: u64,
}

impl View for Rng {
    type V = u64;

    closed spec fn view(&self) -> u64 {
        self.state
    }
}

impl Rng {
    /// Creates a generator with a fixed, reproducible seed. Two `Rng`s built
    /// from the same seed produce the same sequence of values.
    pub fn from_seed(seed: u64) -> (rng: Rng)
        ensures
            rng@ == seed,
    {
        Rng { state: seed }
    }

    /// Creates a generator from a clock reading in nanoseconds and a
    /// process-local counter, mixed so that two generators created in the
    /// same nanosecond still diverge. The seed is guessable and this must not
    /// be used for anything security-sensitive.
    pub fn from_entropy(nanos: u64, count: u64) -> (rng: Rng)
        ensures
            rng@ == nanos ^ wmul(count, GAMMA),
    {
        Rng::from_seed(nanos ^ count.wrapping_mul(GAMMA))
    }

    /// Advances the state and returns the next 64 bits of output.
    pub fn next_u64(&mut self) -> (r: u64)
        ensures
            final(self)@ == advance(old(self)@),
            r == draw(old(self)@),
    {
        self.state = self.state.wrapping_add(GAMMA);
        let mut z = self.state;
        z = (z ^ (z >> 30)).wrapping_mul(MIX_FIRST);
        z = (z ^ (z >> 27)).wrapping_mul(MIX_SECOND);
        z ^ (z >> 31)
    }

    /// Returns a value in `0..bound`, unbiased, using Lemire's rejection
    /// method. `bound` must not be zero.
    pub fn below(&mut self, bound: usize) -> (r: usize)
        requires
            bound > 0,
        ensures
            (final(self)@, r as u64) == below_outcome(old(self)@, bound as u64),
            r < bound,
    {
        let bound64 = bound as u64;
        let x = self.next_u64();
        let (mut low, mut high) = scale(x, bound64);
        if low < bound64 {
            let threshold = 0u64.wrapping_sub(bound64) % bound64;
            while low < threshold
                invariant
                    bound64 > 0,
                    bound64 == bound,
                    threshold == rejection_threshold(bound64),
                    low == low_word(mix(self@), bound64),
                    high == high_word(mix(self@), bound64),
                    below_outcome(old(self)@, bound64) == resample(self@, bound64),
                decreases distance_to_one(self@),
            {
                proof {
                    lemma_rejected_not_target(self@, bound64);
                    lemma_distance_advance(self@);
                }
                let x = self.next_u64();
                let (l, h) = scale(x, bound64);
                low = l;
                high = h;
            }
        }
        proof {
            lemma_high_word_below(mix(self@), bound64);
        }
        high as usize
    }
}

/// The low and high 64-bit words of the 128-bit product `x * bound`.
fn scale(x: u64, bound: u64) -> (words: (u64, u64))
    ensures
        words.0 == low_word(x, bound),
        words.1 == high_word(x, bound),
{
    proof {
        lemma_product_fits(x, bound);
    }
    let wide: u128 = (x as u128) * (bound as u128);
    proof {
        lemma_wide_words(wide, x, bound);
    }
    (wide as u64, (wide >> 64) as u64)
}

proof fn lemma_product_fits(x: u64, bound: u64)
    ensures
        0 <= x as int * bound as int <= 0xFFFF_FFFF_FFFF_FFFE_0000_0000_0000_0001int,
{
    assert(0 <= x as int * bound as int <= 0xFFFF_FFFF_FFFF_FFFF * 0xFFFF_FFFF_FFFF_FFFF) by (nonlinear_arith)
        requires
            0 <= x <= 0xFFFF_FFFF_FFFF_FFFF,
            0 <= bound <= 0xFFFF_FFFF_FFFF_FFFF,
    ;
}

proof fn lemma_wide_words(wide: u128, x: u64, bound: u64)
    requires
        wide == x as int * bound as int,
    ensures
        wide as u64 == low_word(x, bound),
        (wide >> 64u128) as u64 == high_word(x, bound),
{
    assert(wide == x as int * bound as int ==> wide as u64 == wmul(x, bound)) by (bit_vector);
    assert((wide >> 64u128) == wide / 0x1_0000_0000_0000_0000u128) by (bit_vector);
    lemma_product_fits(x, bound);
}

} // verus!
