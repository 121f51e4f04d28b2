use vstd::prelude::*;

verus! {

/// `b` raised to the natural power `e`.
pub open spec fn power(b: int, e: nat) -> int
    decreases e,
{
    if e == 0 {
        1
    } else {
        b * power(b, (e - 1) as nat)
    }
}

/// Exponentiation by squaring: equal to `power` (`lemma_power_fast`), and
/// cheap for the solver to unfold on literal arguments.
spec fn power_fast(b: int, e: nat) -> int
    decreases e,
{
    if e == 0 {
        1
    } else if e % 2 == 1 {
        b * power_fast(b * b, e / 2)
    } else {
        power_fast(b * b, e / 2)
    }
}

proof fn lemma_power_square(b: int, n: nat)
    ensures
        power(b * b, n) == power(b, 2 * n),
    decreases n,
{
    if n > 0 {
        lemma_power_square(b, (n - 1) as nat);
        assert(power(b, 2 * n) == b * power(b, (2 * n - 1) as nat));
        assert(power(b, (2 * n - 1) as nat) == b * power(b, (2 * n - 2) as nat));
        assert(b * (b * power(b, (2 * n - 2) as nat)) == (b * b) * power(b, (2 * n - 2) as nat))
            by (nonlinear_arith);
    }
}

proof fn lemma_power_fast(b: int, e: nat)
    ensures
        power_fast(b, e) == power(b, e),
    decreases e,
{
    if e > 0 {
        lemma_power_fast(b * b, e / 2);
        lemma_power_square(b, e / 2);
        if e % 2 == 1 {
            assert(power(b, e) == b * power(b, (e - 1) as nat));
            assert((e - 1) as nat == 2 * (e / 2));
        } else {
            assert(e == 2 * (e / 2));
        }
    }
}

proof fn lemma_power_positive(b: int, e: nat)
    requires
        b > 0,
    ensures
        power(b, e) > 0,
    decreases e,
{
    if e > 0 {
        lemma_power_positive(b, (e - 1) as nat);
        let p = power(b, (e - 1) as nat);
        assert(b * p > 0) by (nonlinear_arith)
            requires
                b > 0,
                p > 0,
        ;
    }
}

proof fn lemma_power_adds(b: int, e1: nat, e2: nat)
    ensures
        power(b, e1 + e2) == power(b, e1) * power(b, e2),
    decreases e1,
{
    if e1 > 0 {
        lemma_power_adds(b, (e1 - 1) as nat, e2);
        assert((e1 + e2 - 1) as nat == ((e1 - 1) as nat + e2) as nat);
        let p = power(b, (e1 - 1) as nat);
        let q = power(b, e2);
        assert(b * (p * q) == (b * p) * q) by (nonlinear_arith);
    }
}

proof fn lemma_power_multiplies(b: int, m: nat, n: nat)
    ensures
        power(power(b, m), n) == power(b, m * n),
    decreases n,
{
    if n > 0 {
        let n1 = (n - 1) as nat;
        lemma_power_multiplies(b, m, n1);
        let e1: nat = m * n1;
        let e: nat = m + e1;
        assert(e == m * n) by (nonlinear_arith)
            requires
                n > 0,
                n1 == n - 1,
                e1 == m * n1,
                e == m + e1,
        ;
        lemma_power_adds(b, m, e1);
        assert(power(power(b, m), n) == power(b, m) * power(power(b, m), n1));
    } else {
        assert(m * n == 0) by (nonlinear_arith)
            requires
                n == 0,
        ;
    }
}

proof fn lemma_power_distributes(x: int, y: int, n: nat)
    ensures
        power(x * y, n) == power(x, n) * power(y, n),
    decreases n,
{
    if n > 0 {
        lemma_power_distributes(x, y, (n - 1) as nat);
        let p = power(x, (n - 1) as nat);
        let q = power(y, (n - 1) as nat);
        assert((x * y) * (p * q) == (x * p) * (y * q)) by (nonlinear_arith);
    }
}

proof fn lemma_power_strictly_increasing(x: int, y: int, n: nat)
    requires
        0 < x < y,
        n > 0,
    ensures
        power(x, n) < power(y, n),
    decreases n,
{
    lemma_power_positive(x, (n - 1) as nat);
    let p = power(x, (n - 1) as nat);
    let q = power(y, (n - 1) as nat);
    if n > 1 {
        lemma_power_strictly_increasing(x, y, (n - 1) as nat);
    }
    assert(p <= q);
    assert(x * p < y * q) by (nonlinear_arith)
        requires
            0 < x < y,
            0 < p <= q,
    ;
}

/// `x^400 * 10^u < y^400 * 10^v`, derived from bounds on numbers of moderate
/// size: `x^25 / y^25 < m * 10^(jm - jq)` and `(m * 10^(jm - jq))^16 <= 10^(v - u)`.
proof fn lemma_scaled_400th_powers(
    x: int,
    y: int,
    u: nat,
    v: nat,
    m: int,
    jm: nat,
    jq: nat,
    rm: nat,
    rq: nat,
)
    requires
        x > 0,
        y > 0,
        m > 0,
        power_fast(x, 25) * power_fast(10, jq) < power_fast(y, 25) * m * power_fast(10, jm),
        power_fast(m, 16) * power_fast(10, rm) <= power_fast(10, rq),
        16 * jm + u + rq == 16 * jq + v + rm,
    ensures
        power(x, 400) * power(10, u) < power(y, 400) * power(10, v),
{
    lemma_power_fast(x, 25);
    lemma_power_fast(y, 25);
    lemma_power_fast(10, jq);
    lemma_power_fast(10, jm);
    lemma_power_fast(m, 16);
    lemma_power_fast(10, rm);
    lemma_power_fast(10, rq);
    let xx = power(x, 25);
    let yy = power(y, 25);
    let tq = power(10, jq);
    let tm = power(10, jm);
    lemma_power_positive(x, 25);
    lemma_power_positive(10, jq);
    let a = xx * tq;
    let b = yy * m * tm;
    assert(a > 0) by (nonlinear_arith)
        requires
            xx > 0,
            tq > 0,
            a == xx * tq,
    ;
    lemma_power_strictly_increasing(a, b, 16);
    // a^16 == x^400 * 10^(16 jq)
    lemma_power_distributes(xx, tq, 16);
    lemma_power_multiplies(x, 25, 16);
    lemma_power_multiplies(10, jq, 16);
    // b^16 == y^400 * m^16 * 10^(16 jm)
    lemma_power_distributes(yy * m, tm, 16);
    lemma_power_distributes(yy, m, 16);
    lemma_power_multiplies(y, 25, 16);
    lemma_power_multiplies(10, jm, 16);
    let x4 = power(x, 400);
    let y4 = power(y, 400);
    let m16 = power(m, 16);
    let p_q = power(10, 16 * jq);
    let p_m = power(10, 16 * jm);
    assert(x4 * p_q < y4 * m16 * p_m);
    // multiply through by 10^(u + rm)
    let s = power(10, u + rm);
    lemma_power_positive(10, u + rm);
    lemma_power_positive(y, 400);
    lemma_power_positive(10, 16 * jm + u);
    assert(x4 * p_q * s < y4 * m16 * p_m * s) by (nonlinear_arith)
        requires
            x4 * p_q < y4 * m16 * p_m,
            s > 0,
    ;
    lemma_power_adds(10, 16 * jm, u + rm);
    lemma_power_adds(10, 16 * jm + u, rm);
    lemma_power_adds(10, 16 * jm + u, rq);
    let w = power(10, 16 * jm + u);
    let t_rm = power(10, rm);
    let t_rq = power(10, rq);
    assert(p_m * s == w * t_rm);
    assert(y4 * m16 * p_m * s <= y4 * power(10, 16 * jm + u + rq)) by (nonlinear_arith)
        requires
            p_m * s == w * t_rm,
            m16 * t_rm <= t_rq,
            power(10, 16 * jm + u + rq) == w * t_rq,
            y4 > 0,
            w > 0,
    ;
    // both sides now carry the factor 10^(16 jq + rm)
    lemma_power_adds(10, 16 * jq, u + rm);
    lemma_power_adds(10, u, 16 * jq + rm);
    lemma_power_adds(10, v, 16 * jq + rm);
    let c = power(10, 16 * jq + rm);
    lemma_power_positive(10, 16 * jq + rm);
    assert(16 * jm + u + rq == v + (16 * jq + rm));
    let pu = power(10, u);
    let pv = power(10, v);
    assert(p_q * s == pu * c);
    assert(x4 * pu * c < y4 * pv * c) by (nonlinear_arith)
        requires
            x4 * p_q * s < y4 * power(10, 16 * jm + u + rq),
            p_q * s == pu * c,
            power(10, 16 * jm + u + rq) == pv * c,
    ;
    assert(x4 * pu < y4 * pv) by (nonlinear_arith)
        requires
            x4 * pu * c < y4 * pv * c,
            c > 0,
    ;
}

/// Whether the rating gap `d = r_winner - r_loser` carries the winner past the
/// `k`-th rounding step (1 <= k <= 20) of the Elo gain `20 * t / (1 + t)`,
/// where `t = 10^(d / 400)`.
///
/// The gain rounds to at least `k` exactly when `20 * t / (1 + t) > k - 1/2`,
/// that is when `t > (2k - 1) / (41 - 2k)`; raising both sides to the 400th
/// power gives this integer comparison (the power of ten moves to the side
/// where its exponent is not negative).
pub open spec fn reaches_step(d: int, k: int) -> bool {
    power(41 - 2 * k, 400) * power(10, if d >= 0 { d as nat } else { 0 })
        > power(2 * k - 1, 400) * power(10, if d < 0 { (-d) as nat } else { 0 })
}

/// How many of the first `n` rounding steps the rating gap `d` reaches.
pub open spec fn steps_reached(d: int, n: nat) -> nat
    decreases n,
{
    if n == 0 {
        0
    } else {
        steps_reached(d, (n - 1) as nat) + if reaches_step(d, n as int) {
            1nat
        } else {
            0nat
        }
    }
}

/// The rating points that change hands when a player beats an opponent
/// rated `d` points below them: `20 * (1 - expected)` rounded to the nearest
/// integer, with `expected = 1 / (10^(d / 400) + 1)`.
pub open spec fn elo_gain(d: int) -> nat {
    steps_reached(d, 20)
}

/// `x` clamped into the range of `i64`.
pub open spec fn saturate(x: int) -> i64 {
    if x > i64::MAX {
        i64::MAX
    } else if x < i64::MIN {
        i64::MIN
    } else {
        x as i64
    }
}

/// The least rating gap `d = r_winner - r_loser` (1 <= k <= 20) at which
/// the loser's loss rounds to at least `k`.
///
/// The loser's expected score is taken against the winner's rating after its
/// gain, which is `r_winner + 20 * t / (1 + t)` before rounding, with
/// `t = 10^(d / 400)`. The loss `20 * s / (1 + s)`, with `s` the power of ten
/// of the new gap over 400, rounds to at least `k` exactly when
/// `d + 20 * t / (1 + t) > 400 * log10((2k - 1) / (41 - 2k))`. The left side
/// grows with `d`, so each step is reached from a least integer gap on; these
/// are those gaps.
pub open spec fn loss_threshold(k: int) -> int {
    if k == 1 {
        -636
    } else if k == 2 {
        -437
    } else if k == 3 {
        -340
    } else if k == 4 {
        -272
    } else if k == 5 {
        -219
    } else if k == 6 {
        -173
    } else if k == 7 {
        -133
    } else if k == 8 {
        -96
    } else if k == 9 {
        -60
    } else if k == 10 {
        -26
    } else if k == 11 {
        8
    } else if k == 12 {
        42
    } else if k == 13 {
        77
    } else if k == 14 {
        114
    } else if k == 15 {
        155
    } else if k == 16 {
        200
    } else if k == 17 {
        254
    } else if k == 18 {
        321
    } else if k == 19 {
        419
    } else {
        617
    }
}

/// How many of the first `n` rounding steps of the loser's loss the gap `d`
/// reaches.
pub open spec fn loss_steps(d: int, n: nat) -> nat
    decreases n,
{
    if n == 0 {
        0
    } else {
        loss_steps(d, (n - 1) as nat) + if d >= loss_threshold(n as int) {
            1nat
        } else {
            0nat
        }
    }
}

/// The rating points the loser of a match loses when the winner was rated
/// `d` points above it: `20 * expected` rounded to the nearest integer, its
/// expected score taken against the winner's updated rating.
pub open spec fn elo_loss(d: int) -> nat {
    loss_steps(d, 20)
}

/// The new ratings of the winner and of the loser of one match.
pub open spec fn elo_update(r_winner: i64, r_loser: i64) -> (i64, i64) {
    let d = r_winner - r_loser;
    (saturate(r_winner + elo_gain(d)), saturate(r_loser - elo_loss(d)))
}

/// The least rating gap that reaches rounding step `k`.
spec fn step_threshold(k: int) -> int {
    if k == 1 {
        -636
    } else if k == 2 {
        -436
    } else if k == 3 {
        -338
    } else if k == 4 {
        -269
    } else if k == 5 {
        -214
    } else if k == 6 {
        -168
    } else if k == 7 {
        -126
    } else if k == 8 {
        -88
    } else if k == 9 {
        -52
    } else if k == 10 {
        -17
    } else if k == 11 {
        18
    } else if k == 12 {
        53
    } else if k == 13 {
        89
    } else if k == 14 {
        127
    } else if k == 15 {
        169
    } else if k == 16 {
        215
    } else if k == 17 {
        270
    } else if k == 18 {
        339
    } else if k == 19 {
        437
    } else {
        637
    }
}

/// Crossing points: the gap `step_threshold(k)` reaches step `k`, one point
/// less does not.
proof fn lemma_step_crossing(k: int)
    requires
        1 <= k <= 20,
    ensures
        reaches_step(step_threshold(k), k),
        !reaches_step(step_threshold(k) - 1, k),
{
    if k == 1 {
        assert(power_fast(1, 25) * power_fast(10, 43) < power_fast(39, 25) * 1673 * power_fast(10, 0)) by (nonlinear_arith) {
            reveal_with_fuel(power_fast, 8);
        }
        assert(power_fast(1673, 16) * power_fast(10, 0) <= power_fast(10, 52)) by (nonlinear_arith) {
            reveal_with_fuel(power_fast, 8);
        }
        lemma_scaled_400th_powers(1, 39, 636, 0, 1673, 0, 43, 0, 52);
        assert(power_fast(39, 25) * power_fast(10, 0) < power_fast(1, 25) * 5979 * power_fast(10, 36)) by (nonlinear_arith) {
            reveal_with_fuel(power_fast, 8);
        }
        assert(power_fast(5979, 16) * power_fast(10, 0) <= power_fast(10, 61)) by (nonlinear_arith) {
            reveal_with_fuel(power_fast, 8);
        }
        lemma_scaled_400th_powers(39, 1, 0, 637, 5979, 36, 0, 0, 61);
    } else if k == 2 {
        assert(power_fast(3, 25) * power_fast(10, 31) < power_fast(37, 25) * 5285 * power_fast(10, 0)) by (nonlinear_arith) {
            reveal_with_fuel(power_fast, 8);
        }
        assert(power_fast(5285, 16) * power_fast(10, 0) <= power_fast(10, 60)) by (nonlinear_arith) {
            reveal_with_fuel(power_fast, 8);
        }
        lemma_scaled_400th_powers(3, 37, 436, 0, 5285, 0, 31, 0, 60);
        assert(power_fast(37, 25) * power_fast(10, 0) < power_fast(3, 25) * 1893 * power_fast(10, 24)) by (nonlinear_arith) {
            reveal_with_fuel(power_fast, 8);
        }
        assert(power_fast(1893, 16) * power_fast(10, 0) <= power_fast(10, 53)) by (nonlinear_arith) {
            reveal_with_fuel(power_fast, 8);
        }
        lemma_scaled_400th_powers(37, 3, 0, 437, 1893, 24, 0, 0, 53);
    } else if k == 3 {
        assert(power_fast(5, 25) * power_fast(10, 25) < power_fast(35, 25) * 7457 * power_fast(10, 0)) by (nonlinear_arith) {
            reveal_with_fuel(power_fast, 8);
        }
        assert(power_fast(7457, 16) * power_fast(10, 0) <= power_fast(10, 62)) by (nonlinear_arith) {
            reveal_with_fuel(power_fast, 8);
        }
        lemma_scaled_400th_powers(5, 35, 338, 0, 7457, 0, 25, 0, 62);
        assert(power_fast(35, 25) * power_fast(10, 0) < power_fast(5, 25) * 1342 * power_fast(10, 18)) by (nonlinear_arith) {
            reveal_with_fuel(power_fast, 8);
        }
        assert(power_fast(1342, 16) * power_fast(10, 0) <= power_fast(10, 51)) by (nonlinear_arith) {
            reveal_with_fuel(power_fast, 8);
        }
        lemma_scaled_400th_powers(35, 5, 0, 339, 1342, 18, 0, 0, 51);
    } else if k == 4 {
        assert(power_fast(7, 25) * power_fast(10, 20) < power_fast(33, 25) * 1461 * power_fast(10, 0)) by (nonlinear_arith) {
            reveal_with_fuel(power_fast, 8);
        }
        assert(power_fast(1461, 16) * power_fast(10, 0) <= power_fast(10, 51)) by (nonlinear_arith) {
            reveal_with_fuel(power_fast, 8);
        }
        lemma_scaled_400th_powers(7, 33, 269, 0, 1461, 0, 20, 0, 51);
        assert(power_fast(33, 25) * power_fast(10, 0) < power_fast(7, 25) * 6846 * power_fast(10, 13)) by (nonlinear_arith) {
            reveal_with_fuel(power_fast, 8);
        }
        assert(power_fast(6846, 16) * power_fast(10, 0) <= power_fast(10, 62)) by (nonlinear_arith) {
            reveal_with_fuel(power_fast, 8);
        }
        lemma_scaled_400th_powers(33, 7, 0, 270, 6846, 13, 0, 0, 62);
    } else if k == 5 {
        assert(power_fast(9, 25) * power_fast(10, 17) < power_fast(31, 25) * 3733 * power_fast(10, 0)) by (nonlinear_arith) {
            reveal_with_fuel(power_fast, 8);
        }
        assert(power_fast(3733, 16) * power_fast(10, 0) <= power_fast(10, 58)) by (nonlinear_arith) {
            reveal_with_fuel(power_fast, 8);
        }
        lemma_scaled_400th_powers(9, 31, 214, 0, 3733, 0, 17, 0, 58);
        assert(power_fast(31, 25) * power_fast(10, 0) < power_fast(9, 25) * 2680 * power_fast(10, 10)) by (nonlinear_arith) {
            reveal_with_fuel(power_fast, 8);
        }
        assert(power_fast(2680, 16) * power_fast(10, 0) <= power_fast(10, 55)) by (nonlinear_arith) {
            reveal_with_fuel(power_fast, 8);
        }
        lemma_scaled_400th_powers(31, 9, 0, 215, 2680, 10, 0, 0, 55);
    } else if k == 6 {
        assert(power_fast(11, 25) * power_fast(10, 14) < power_fast(29, 25) * 2985 * power_fast(10, 0)) by (nonlinear_arith) {
            reveal_with_fuel(power_fast, 8);
        }
        assert(power_fast(2985, 16) * power_fast(10, 0) <= power_fast(10, 56)) by (nonlinear_arith) {
            reveal_with_fuel(power_fast, 8);
        }
        lemma_scaled_400th_powers(11, 29, 168, 0, 2985, 0, 14, 0, 56);
        assert(power_fast(29, 25) * power_fast(10, 0) < power_fast(11, 25) * 3351 * power_fast(10, 7)) by (nonlinear_arith) {
            reveal_with_fuel(power_fast, 8);
        }
        assert(power_fast(3351, 16) * power_fast(10, 0) <= power_fast(10, 57)) by (nonlinear_arith) {
            reveal_with_fuel(power_fast, 8);
        }
        lemma_scaled_400th_powers(29, 11, 0, 169, 3351, 7, 0, 0, 57);
    } else if k == 7 {
        assert(power_fast(13, 25) * power_fast(10, 11) < power_fast(27, 25) * 1161 * power_fast(10, 0)) by (nonlinear_arith) {
            reveal_with_fuel(power_fast, 8);
        }
        assert(power_fast(1161, 16) * power_fast(10, 0) <= power_fast(10, 50)) by (nonlinear_arith) {
            reveal_with_fuel(power_fast, 8);
        }
        lemma_scaled_400th_powers(13, 27, 126, 0, 1161, 0, 11, 0, 50);
        assert(power_fast(27, 25) * power_fast(10, 0) < power_fast(13, 25) * 8621 * power_fast(10, 4)) by (nonlinear_arith) {
            reveal_with_fuel(power_fast, 8);
        }
        assert(power_fast(8621, 16) * power_fast(10, 0) <= power_fast(10, 63)) by (nonlinear_arith) {
            reveal_with_fuel(power_fast, 8);
        }
        lemma_scaled_400th_powers(27, 13, 0, 127, 8621, 4, 0, 0, 63);
    } else if k == 8 {
        assert(power_fast(15, 25) * power_fast(10, 9) < power_fast(25, 25) * 2844 * power_fast(10, 0)) by (nonlinear_arith) {
            reveal_with_fuel(power_fast, 8);
        }
        assert(power_fast(2844, 16) * power_fast(10, 0) <= power_fast(10, 56)) by (nonlinear_arith) {
            reveal_with_fuel(power_fast, 8);
        }
        lemma_scaled_400th_powers(15, 25, 88, 0, 2844, 0, 9, 0, 56);
        assert(power_fast(25, 25) * power_fast(10, 0) < power_fast(15, 25) * 3518 * power_fast(10, 2)) by (nonlinear_arith) {
            reveal_with_fuel(power_fast, 8);
        }
        assert(power_fast(3518, 16) * power_fast(10, 0) <= power_fast(10, 57)) by (nonlinear_arith) {
            reveal_with_fuel(power_fast, 8);
        }
        lemma_scaled_400th_powers(25, 15, 0, 89, 3518, 2, 0, 0, 57);
    } else if k == 9 {
        assert(power_fast(17, 25) * power_fast(10, 7) < power_fast(23, 25) * 5225 * power_fast(10, 0)) by (nonlinear_arith) {
            reveal_with_fuel(power_fast, 8);
        }
        assert(power_fast(5225, 16) * power_fast(10, 0) <= power_fast(10, 60)) by (nonlinear_arith) {
            reveal_with_fuel(power_fast, 8);
        }
        lemma_scaled_400th_powers(17, 23, 52, 0, 5225, 0, 7, 0, 60);
        assert(power_fast(23, 25) * power_fast(10, 0) < power_fast(17, 25) * 1915 * power_fast(10, 0)) by (nonlinear_arith) {
            reveal_with_fuel(power_fast, 8);
        }
        assert(power_fast(1915, 16) * power_fast(10, 0) <= power_fast(10, 53)) by (nonlinear_arith) {
            reveal_with_fuel(power_fast, 8);
        }
        lemma_scaled_400th_powers(23, 17, 0, 53, 1915, 0, 0, 0, 53);
    } else if k == 10 {
        assert(power_fast(19, 25) * power_fast(10, 5) < power_fast(21, 25) * 8192 * power_fast(10, 0)) by (nonlinear_arith) {
            reveal_with_fuel(power_fast, 8);
        }
        assert(power_fast(8192, 16) * power_fast(10, 0) <= power_fast(10, 63)) by (nonlinear_arith) {
            reveal_with_fuel(power_fast, 8);
        }
        lemma_scaled_400th_powers(19, 21, 17, 0, 8192, 0, 5, 0, 63);
        assert(power_fast(21, 25) * power_fast(10, 2) < power_fast(19, 25) * 1221 * power_fast(10, 0)) by (nonlinear_arith) {
            reveal_with_fuel(power_fast, 8);
        }
        assert(power_fast(1221, 16) * power_fast(10, 0) <= power_fast(10, 50)) by (nonlinear_arith) {
            reveal_with_fuel(power_fast, 8);
        }
        lemma_scaled_400th_powers(21, 19, 0, 18, 1221, 0, 2, 0, 50);
    } else if k == 11 {
        assert(power_fast(21, 25) * power_fast(10, 2) < power_fast(19, 25) * 1221 * power_fast(10, 0)) by (nonlinear_arith) {
            reveal_with_fuel(power_fast, 8);
        }
        assert(power_fast(1221, 16) * power_fast(10, 0) <= power_fast(10, 50)) by (nonlinear_arith) {
            reveal_with_fuel(power_fast, 8);
        }
        lemma_scaled_400th_powers(21, 19, 0, 18, 1221, 0, 2, 0, 50);
        assert(power_fast(19, 25) * power_fast(10, 5) < power_fast(21, 25) * 8192 * power_fast(10, 0)) by (nonlinear_arith) {
            reveal_with_fuel(power_fast, 8);
        }
        assert(power_fast(8192, 16) * power_fast(10, 0) <= power_fast(10, 63)) by (nonlinear_arith) {
            reveal_with_fuel(power_fast, 8);
        }
        lemma_scaled_400th_powers(19, 21, 17, 0, 8192, 0, 5, 0, 63);
    } else if k == 12 {
        assert(power_fast(23, 25) * power_fast(10, 0) < power_fast(17, 25) * 1915 * power_fast(10, 0)) by (nonlinear_arith) {
            reveal_with_fuel(power_fast, 8);
        }
        assert(power_fast(1915, 16) * power_fast(10, 0) <= power_fast(10, 53)) by (nonlinear_arith) {
            reveal_with_fuel(power_fast, 8);
        }
        lemma_scaled_400th_powers(23, 17, 0, 53, 1915, 0, 0, 0, 53);
        assert(power_fast(17, 25) * power_fast(10, 7) < power_fast(23, 25) * 5225 * power_fast(10, 0)) by (nonlinear_arith) {
            reveal_with_fuel(power_fast, 8);
        }
        assert(power_fast(5225, 16) * power_fast(10, 0) <= power_fast(10, 60)) by (nonlinear_arith) {
            reveal_with_fuel(power_fast, 8);
        }
        lemma_scaled_400th_powers(17, 23, 52, 0, 5225, 0, 7, 0, 60);
    } else if k == 13 {
        assert(power_fast(25, 25) * power_fast(10, 0) < power_fast(15, 25) * 3518 * power_fast(10, 2)) by (nonlinear_arith) {
            reveal_with_fuel(power_fast, 8);
        }
        assert(power_fast(3518, 16) * power_fast(10, 0) <= power_fast(10, 57)) by (nonlinear_arith) {
            reveal_with_fuel(power_fast, 8);
        }
        lemma_scaled_400th_powers(25, 15, 0, 89, 3518, 2, 0, 0, 57);
        assert(power_fast(15, 25) * power_fast(10, 9) < power_fast(25, 25) * 2844 * power_fast(10, 0)) by (nonlinear_arith) {
            reveal_with_fuel(power_fast, 8);
        }
        assert(power_fast(2844, 16) * power_fast(10, 0) <= power_fast(10, 56)) by (nonlinear_arith) {
            reveal_with_fuel(power_fast, 8);
        }
        lemma_scaled_400th_powers(15, 25, 88, 0, 2844, 0, 9, 0, 56);
    } else if k == 14 {
        assert(power_fast(27, 25) * power_fast(10, 0) < power_fast(13, 25) * 8621 * power_fast(10, 4)) by (nonlinear_arith) {
            reveal_with_fuel(power_fast, 8);
        }
        assert(power_fast(8621, 16) * power_fast(10, 0) <= power_fast(10, 63)) by (nonlinear_arith) {
            reveal_with_fuel(power_fast, 8);
        }
        lemma_scaled_400th_powers(27, 13, 0, 127, 8621, 4, 0, 0, 63);
        assert(power_fast(13, 25) * power_fast(10, 11) < power_fast(27, 25) * 1161 * power_fast(10, 0)) by (nonlinear_arith) {
            reveal_with_fuel(power_fast, 8);
        }
        assert(power_fast(1161, 16) * power_fast(10, 0) <= power_fast(10, 50)) by (nonlinear_arith) {
            reveal_with_fuel(power_fast, 8);
        }
        lemma_scaled_400th_powers(13, 27, 126, 0, 1161, 0, 11, 0, 50);
    } else if k == 15 {
        assert(power_fast(29, 25) * power_fast(10, 0) < power_fast(11, 25) * 3351 * power_fast(10, 7)) by (nonlinear_arith) {
            reveal_with_fuel(power_fast, 8);
        }
        assert(power_fast(3351, 16) * power_fast(10, 0) <= power_fast(10, 57)) by (nonlinear_arith) {
            reveal_with_fuel(power_fast, 8);
        }
        lemma_scaled_400th_powers(29, 11, 0, 169, 3351, 7, 0, 0, 57);
        assert(power_fast(11, 25) * power_fast(10, 14) < power_fast(29, 25) * 2985 * power_fast(10, 0)) by (nonlinear_arith) {
            reveal_with_fuel(power_fast, 8);
        }
        assert(power_fast(2985, 16) * power_fast(10, 0) <= power_fast(10, 56)) by (nonlinear_arith) {
            reveal_with_fuel(power_fast, 8);
        }
        lemma_scaled_400th_powers(11, 29, 168, 0, 2985, 0, 14, 0, 56);
    } else if k == 16 {
        assert(power_fast(31, 25) * power_fast(10, 0) < power_fast(9, 25) * 2680 * power_fast(10, 10)) by (nonlinear_arith) {
            reveal_with_fuel(power_fast, 8);
        }
        assert(power_fast(2680, 16) * power_fast(10, 0) <= power_fast(10, 55)) by (nonlinear_arith) {
            reveal_with_fuel(power_fast, 8);
        }
        lemma_scaled_400th_powers(31, 9, 0, 215, 2680, 10, 0, 0, 55);
        assert(power_fast(9, 25) * power_fast(10, 17) < power_fast(31, 25) * 3733 * power_fast(10, 0)) by (nonlinear_arith) {
            reveal_with_fuel(power_fast, 8);
        }
        assert(power_fast(3733, 16) * power_fast(10, 0) <= power_fast(10, 58)) by (nonlinear_arith) {
            reveal_with_fuel(power_fast, 8);
        }
        lemma_scaled_400th_powers(9, 31, 214, 0, 3733, 0, 17, 0, 58);
    } else if k == 17 {
        assert(power_fast(33, 25) * power_fast(10, 0) < power_fast(7, 25) * 6846 * power_fast(10, 13)) by (nonlinear_arith) {
            reveal_with_fuel(power_fast, 8);
        }
        assert(power_fast(6846, 16) * power_fast(10, 0) <= power_fast(10, 62)) by (nonlinear_arith) {
            reveal_with_fuel(power_fast, 8);
        }
        lemma_scaled_400th_powers(33, 7, 0, 270, 6846, 13, 0, 0, 62);
        assert(power_fast(7, 25) * power_fast(10, 20) < power_fast(33, 25) * 1461 * power_fast(10, 0)) by (nonlinear_arith) {
            reveal_with_fuel(power_fast, 8);
        }
        assert(power_fast(1461, 16) * power_fast(10, 0) <= power_fast(10, 51)) by (nonlinear_arith) {
            reveal_with_fuel(power_fast, 8);
        }
        lemma_scaled_400th_powers(7, 33, 269, 0, 1461, 0, 20, 0, 51);
    } else if k == 18 {
        assert(power_fast(35, 25) * power_fast(10, 0) < power_fast(5, 25) * 1342 * power_fast(10, 18)) by (nonlinear_arith) {
            reveal_with_fuel(power_fast, 8);
        }
        assert(power_fast(1342, 16) * power_fast(10, 0) <= power_fast(10, 51)) by (nonlinear_arith) {
            reveal_with_fuel(power_fast, 8);
        }
        lemma_scaled_400th_powers(35, 5, 0, 339, 1342, 18, 0, 0, 51);
        assert(power_fast(5, 25) * power_fast(10, 25) < power_fast(35, 25) * 7457 * power_fast(10, 0)) by (nonlinear_arith) {
            reveal_with_fuel(power_fast, 8);
        }
        assert(power_fast(7457, 16) * power_fast(10, 0) <= power_fast(10, 62)) by (nonlinear_arith) {
            reveal_with_fuel(power_fast, 8);
        }
        lemma_scaled_400th_powers(5, 35, 338, 0, 7457, 0, 25, 0, 62);
    } else if k == 19 {
        assert(power_fast(37, 25) * power_fast(10, 0) < power_fast(3, 25) * 1893 * power_fast(10, 24)) by (nonlinear_arith) {
            reveal_with_fuel(power_fast, 8);
        }
        assert(power_fast(1893, 16) * power_fast(10, 0) <= power_fast(10, 53)) by (nonlinear_arith) {
            reveal_with_fuel(power_fast, 8);
        }
        lemma_scaled_400th_powers(37, 3, 0, 437, 1893, 24, 0, 0, 53);
        assert(power_fast(3, 25) * power_fast(10, 31) < power_fast(37, 25) * 5285 * power_fast(10, 0)) by (nonlinear_arith) {
            reveal_with_fuel(power_fast, 8);
        }
        assert(power_fast(5285, 16) * power_fast(10, 0) <= power_fast(10, 60)) by (nonlinear_arith) {
            reveal_with_fuel(power_fast, 8);
        }
        lemma_scaled_400th_powers(3, 37, 436, 0, 5285, 0, 31, 0, 60);
    } else {
        assert(power_fast(39, 25) * power_fast(10, 0) < power_fast(1, 25) * 5979 * power_fast(10, 36)) by (nonlinear_arith) {
            reveal_with_fuel(power_fast, 8);
        }
        assert(power_fast(5979, 16) * power_fast(10, 0) <= power_fast(10, 61)) by (nonlinear_arith) {
            reveal_with_fuel(power_fast, 8);
        }
        lemma_scaled_400th_powers(39, 1, 0, 637, 5979, 36, 0, 0, 61);
        assert(power_fast(1, 25) * power_fast(10, 43) < power_fast(39, 25) * 1673 * power_fast(10, 0)) by (nonlinear_arith) {
            reveal_with_fuel(power_fast, 8);
        }
        assert(power_fast(1673, 16) * power_fast(10, 0) <= power_fast(10, 52)) by (nonlinear_arith) {
            reveal_with_fuel(power_fast, 8);
        }
        lemma_scaled_400th_powers(1, 39, 636, 0, 1673, 0, 43, 0, 52);
    }
}

/// A larger gap reaches every step that a smaller one reaches.
proof fn lemma_reaches_step_next(d: int, k: int)
    requires
        1 <= k <= 20,
        reaches_step(d, k),
    ensures
        reaches_step(d + 1, k),
{
    let a = power(2 * k - 1, 400);
    let b = power(41 - 2 * k, 400);
    lemma_power_positive(2 * k - 1, 400);
    lemma_power_positive(41 - 2 * k, 400);
    if d >= 0 {
        let p = power(10, d as nat);
        assert(power(10, (d + 1) as nat) == 10 * p);
        assert(b * (10 * p) > a * 1) by (nonlinear_arith)
            requires
                b * p > a * 1,
                a > 0,
                b > 0,
        ;
    } else {
        let q1 = power(10, (-(d + 1)) as nat);
        lemma_power_positive(10, (-(d + 1)) as nat);
        assert(power(10, (-d) as nat) == 10 * q1);
        assert(b * 1 > a * q1) by (nonlinear_arith)
            requires
                b * 1 > a * (10 * q1),
                a > 0,
                q1 > 0,
        ;
    }
}

proof fn lemma_reaches_step_mono(d1: int, d2: int, k: int)
    requires
        1 <= k <= 20,
        d1 <= d2,
        reaches_step(d1, k),
    ensures
        reaches_step(d2, k),
    decreases d2 - d1,
{
    if d1 < d2 {
        lemma_reaches_step_next(d1, k);
        lemma_reaches_step_mono(d1 + 1, d2, k);
    }
}

/// Step `k` is reached exactly by the gaps from `step_threshold(k)` on.
proof fn lemma_step_threshold(d: int, k: int)
    requires
        1 <= k <= 20,
    ensures
        reaches_step(d, k) <==> d >= step_threshold(k),
{
    lemma_step_crossing(k);
    if d >= step_threshold(k) {
        lemma_reaches_step_mono(step_threshold(k), d, k);
    } else if reaches_step(d, k) {
        lemma_reaches_step_mono(d, step_threshold(k) - 1, k);
    }
}

fn threshold_of_step(k: i64) -> (t: i128)
    requires
        1 <= k <= 20,
    ensures
        t == step_threshold(k as int),
{
    if k == 1 {
        -636
    } else if k == 2 {
        -436
    } else if k == 3 {
        -338
    } else if k == 4 {
        -269
    } else if k == 5 {
        -214
    } else if k == 6 {
        -168
    } else if k == 7 {
        -126
    } else if k == 8 {
        -88
    } else if k == 9 {
        -52
    } else if k == 10 {
        -17
    } else if k == 11 {
        18
    } else if k == 12 {
        53
    } else if k == 13 {
        89
    } else if k == 14 {
        127
    } else if k == 15 {
        169
    } else if k == 16 {
        215
    } else if k == 17 {
        270
    } else if k == 18 {
        339
    } else if k == 19 {
        437
    } else {
        637
    }
}

fn threshold_of_loss(k: i64) -> (t: i128)
    requires
        1 <= k <= 20,
    ensures
        t == loss_threshold(k as int),
{
    if k == 1 {
        -636
    } else if k == 2 {
        -437
    } else if k == 3 {
        -340
    } else if k == 4 {
        -272
    } else if k == 5 {
        -219
    } else if k == 6 {
        -173
    } else if k == 7 {
        -133
    } else if k == 8 {
        -96
    } else if k == 9 {
        -60
    } else if k == 10 {
        -26
    } else if k == 11 {
        8
    } else if k == 12 {
        42
    } else if k == 13 {
        77
    } else if k == 14 {
        114
    } else if k == 15 {
        155
    } else if k == 16 {
        200
    } else if k == 17 {
        254
    } else if k == 18 {
        321
    } else if k == 19 {
        419
    } else {
        617
    }
}

fn saturate_i128(x: i128) -> (r: i64)
    ensures
        r == saturate(x as int),
{
    if x > i64::MAX as i128 {
        i64::MAX
    } else if x < i64::MIN as i128 {
        i64::MIN
    } else {
        x as i64
    }
}

/// Updates the ratings of the winner and the loser of one match with an Elo
/// factor of 20: the winner gains `elo_gain` of the rating gap, then the
/// loser loses `elo_loss` of it, its expected score taken against the
/// winner's updated rating; each result is clamped into the range of `i64`.
pub fn update(r_winner: i64, r_loser: i64) -> (res: (i64, i64))
    ensures
        res == elo_update(r_winner, r_loser),
{
    let d: i128 = r_winner as i128 - r_loser as i128;
    let mut gain: i64 = 0;
    let mut k: i64 = 1;
    while k <= 20
        invariant
            1 <= k <= 21,
            d == r_winner - r_loser,
            gain == steps_reached(d as int, (k - 1) as nat),
            gain <= k - 1,
        decreases 21 - k,
    {
        proof {
            lemma_step_threshold(d as int, k as int);
        }
        if d >= threshold_of_step(k) {
            gain = gain + 1;
        }
        k = k + 1;
    }
    let mut loss: i64 = 0;
    let mut j: i64 = 1;
    while j <= 20
        invariant
            1 <= j <= 21,
            loss == loss_steps(d as int, (j - 1) as nat),
            loss <= j - 1,
        decreases 21 - j,
    {
        if d >= threshold_of_loss(j) {
            loss = loss + 1;
        }
        j = j + 1;
    }
    let w: i128 = r_winner as i128 + gain as i128;
    let l: i128 = r_loser as i128 - loss as i128;
    (saturate_i128(w), saturate_i128(l))
}

proof fn lemma_steps_reached_bounded(d: int, n: nat)
    ensures
        steps_reached(d, n) <= n,
    decreases n,
{
    if n > 0 {
        lemma_steps_reached_bounded(d, (n - 1) as nat);
    }
}

proof fn lemma_steps_reached_mono(d1: int, d2: int, n: nat)
    requires
        d1 <= d2,
        n <= 20,
    ensures
        steps_reached(d1, n) <= steps_reached(d2, n),
    decreases n,
{
    if n > 0 {
        lemma_steps_reached_mono(d1, d2, (n - 1) as nat);
        if reaches_step(d1, n as int) {
            lemma_reaches_step_mono(d1, d2, n as int);
        }
    }
}

proof fn lemma_loss_steps_bounded(d: int, n: nat)
    ensures
        loss_steps(d, n) <= n,
    decreases n,
{
    if n > 0 {
        lemma_loss_steps_bounded(d, (n - 1) as nat);
    }
}

/// The steps of the winner's gain, counted by their least gaps.
spec fn gain_steps(d: int, n: nat) -> nat
    decreases n,
{
    if n == 0 {
        0
    } else {
        gain_steps(d, (n - 1) as nat) + if d >= step_threshold(n as int) {
            1nat
        } else {
            0nat
        }
    }
}

proof fn lemma_gain_steps(d: int, n: nat)
    requires
        n <= 20,
    ensures
        steps_reached(d, n) == gain_steps(d, n),
    decreases n,
{
    if n > 0 {
        lemma_gain_steps(d, (n - 1) as nat);
        lemma_step_threshold(d, n as int);
    }
}

/// The least gaps of the loss interleave those of the gain: step `k` of the
/// loss comes no later than step `k` of the gain, and after step `k - 1`
/// of the gain.
proof fn lemma_loss_near_gain_steps(d: int, n: nat)
    requires
        n <= 20,
    ensures
        gain_steps(d, n) <= loss_steps(d, n) <= gain_steps(d, n) + 1,
        loss_steps(d, n) == gain_steps(d, n) + 1 ==> n >= 1 && d < step_threshold(n as int),
    decreases n,
{
    if n > 0 {
        lemma_loss_near_gain_steps(d, (n - 1) as nat);
        assert(loss_threshold(n as int) <= step_threshold(n as int));
        if n >= 2 {
            assert(step_threshold(n - 1) < loss_threshold(n as int));
            assert(step_threshold(n - 1) < step_threshold(n as int));
        }
    }
}

/// The winner never loses points and the loser never gains any; neither
/// rating moves by more than the Elo factor of 20.
pub proof fn lemma_update_bounded(r_winner: i64, r_loser: i64)
    ensures
        0 <= elo_gain(r_winner - r_loser) <= 20,
        0 <= elo_loss(r_winner - r_loser) <= 20,
        r_winner <= elo_update(r_winner, r_loser).0 <= r_winner + 20,
        r_loser - 20 <= elo_update(r_winner, r_loser).1 <= r_loser,
{
    lemma_steps_reached_bounded(r_winner - r_loser, 20);
    lemma_loss_steps_bounded(r_winner - r_loser, 20);
}

/// The loser loses what the winner gains or one point more: it is scored
/// against the winner's already raised rating.
pub proof fn lemma_loss_near_gain(d: int)
    ensures
        elo_gain(d) <= elo_loss(d) <= elo_gain(d) + 1,
{
    lemma_gain_steps(d, 20);
    lemma_loss_near_gain_steps(d, 20);
}

/// Rating points are almost conserved: a match removes at most one point
/// from the sum of the two ratings, as long as neither new rating leaves the
/// range of `i64`.
pub proof fn lemma_update_nearly_zero_sum(r_winner: i64, r_loser: i64)
    requires
        r_winner + 20 <= i64::MAX,
        r_loser - 20 >= i64::MIN,
    ensures
        r_winner + r_loser - 1 <= elo_update(r_winner, r_loser).0 + elo_update(r_winner, r_loser).1
            <= r_winner + r_loser,
{
    lemma_update_bounded(r_winner, r_loser);
    lemma_loss_near_gain(r_winner - r_loser);
}

proof fn lemma_loss_steps_mono(d1: int, d2: int, n: nat)
    requires
        d1 <= d2,
    ensures
        loss_steps(d1, n) <= loss_steps(d2, n),
    decreases n,
{
    if n > 0 {
        lemma_loss_steps_mono(d1, d2, (n - 1) as nat);
    }
}

/// The larger the winner's lead, the more the loser loses.
pub proof fn lemma_loss_monotone(d1: int, d2: int)
    requires
        d1 <= d2,
    ensures
        elo_loss(d1) <= elo_loss(d2),
{
    lemma_loss_steps_mono(d1, d2, 20);
}

/// The larger the winner's lead in rating over the loser, the more points
/// change hands.
pub proof fn lemma_gain_monotone(d1: int, d2: int)
    requires
        d1 <= d2,
    ensures
        elo_gain(d1) <= elo_gain(d2),
{
    lemma_steps_reached_mono(d1, d2, 20);
}

/// Between equally rated players exactly half of the Elo factor changes hands.
pub proof fn lemma_gain_even_match()
    ensures
        elo_gain(0) == 10,
{
    reveal_with_fuel(steps_reached, 21);
    assert forall|k: int| 1 <= k <= 20 implies (reaches_step(0, k) <==> k <= 10) by {
        lemma_step_threshold(0, k);
    }
    assert(reaches_step(0, 1) && reaches_step(0, 2) && reaches_step(0, 3) && reaches_step(0, 4)
        && reaches_step(0, 5) && reaches_step(0, 6) && reaches_step(0, 7) && reaches_step(0, 8)
        && reaches_step(0, 9) && reaches_step(0, 10));
    assert(!reaches_step(0, 11) && !reaches_step(0, 12) && !reaches_step(0, 13) && !reaches_step(0, 14)
        && !reaches_step(0, 15) && !reaches_step(0, 16) && !reaches_step(0, 17) && !reaches_step(0, 18)
        && !reaches_step(0, 19) && !reaches_step(0, 20));
}

} // verus!
