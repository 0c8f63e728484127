//! Numbers as they are shown after a detour through double precision: rounded
//! to 53 binary digits at each step, then to a few decimal digits.
use vstd::prelude::*;

verus! {

/// Two to the power of `e`.
pub open spec fn two(e: nat) -> nat
    decreases e,
{
    if e == 0 {
        1
    } else {
        2 * two((e - 1) as nat)
    }
}

/// The whole number nearest to `n / d`; of two equally near, the even one.
pub open spec fn half_even(n: nat, d: nat) -> nat {
    let q = n / d;
    let r = n % d;
    if 2 * r < d || (2 * r == d && q % 2 == 0) {
        q
    } else {
        q + 1
    }
}

/// The whole number nearest to `n / d`; of two equally near, the even one.
pub fn half_even_of(n: u128, d: u128) -> (r: u128)
    requires
        0 < d <= 0x4000_0000_0000_0000_0000_0000_0000_0000,
        n < u128::MAX,
    ensures
        r == half_even(n as nat, d as nat),
{
    let q: u128 = n / d;
    let rest: u128 = n % d;
    if 2 * rest < d || (2 * rest == d && q % 2 == 0) {
        q
    } else {
        proof {
            assert(q <= n) by (nonlinear_arith)
                requires
                    q == n / d,
                    d > 0,
            ;
        }
        q + 1
    }
}

/// How often `x` has to be doubled until `x / den` has 53 binary digits before
/// the point.
pub open spec fn lift(x: nat, den: nat) -> nat
    decreases den * 0x20_0000_0000_0000 - x,
{
    if x == 0 || x >= den * 0x10_0000_0000_0000 {
        0
    } else {
        1 + lift(2 * x, den)
    }
}

/// How often `den` has to be doubled until `x / den` has at most 53 binary
/// digits before the point.
pub open spec fn lower(x: nat, den: nat) -> nat
    decreases x + 1 - den,
{
    if den == 0 || x < den * 0x20_0000_0000_0000 {
        0
    } else {
        1 + lower(x, 2 * den)
    }
}

/// A number in double precision: `mantissa * 2^down / 2^up`.
#[verifier::ext_equal]
pub struct DoubleModel {
    pub mantissa: nat,
    pub up: nat,
    pub down: nat,
}

/// The number in double precision nearest to `x / den`.
pub open spec fn nearest(x: nat, den: nat) -> DoubleModel {
    if x < den * 0x10_0000_0000_0000 {
        let up = lift(x, den);
        DoubleModel { mantissa: half_even(x * two(up), den), up, down: 0 }
    } else {
        let down = lower(x, den);
        DoubleModel { mantissa: half_even(x, den * two(down)), up: 0, down }
    }
}

/// The whole number in double precision nearest to `x`.
pub open spec fn round53(x: nat) -> nat {
    let down = lower(x, 1);
    half_even(x, two(down)) * two(down)
}

impl DoubleModel {
    /// The number times `scale`, rounded to a whole number.
    pub open spec fn scaled(self, scale: nat) -> nat {
        half_even(self.mantissa * two(self.down) * scale, two(self.up))
    }
}

/// A number in double precision: `mantissa * down / up`, where `down` and `up`
/// are powers of two.
struct Double {
    mantissa: u128,
    up: u128,
    down: u128,
}

impl Double {
    spec fn is(self, m: DoubleModel) -> bool {
        &&& self.mantissa == m.mantissa
        &&& self.up == two(m.up)
        &&& self.down == two(m.down)
    }
}

proof fn lemma_half_even_bound(n: nat, d: nat, bound: nat)
    requires
        d > 0,
        n <= bound * d,
    ensures
        half_even(n, d) <= bound,
{
    let q = n / d;
    assert(n == d * q + n % d) by {
        vstd::arithmetic::div_mod::lemma_fundamental_div_mod(n as int, d as int);
    }
    assert(q <= bound) by (nonlinear_arith)
        requires
            n == d * q + n % d,
            n <= bound * d,
            d > 0,
            n % d >= 0,
    ;
    if q == bound {
        assert(n % d == 0) by (nonlinear_arith)
            requires
                n == d * q + n % d,
                q == bound,
                n <= bound * d,
                n % d >= 0,
        ;
    }
}

/// The number in double precision nearest to `x / den`.
fn nearest_of(x: u128, den: u128) -> (r: Double)
    requires
        x <= 0x1_0000_0000_0000_0000,
        0 < den <= 0x1_0000_0000_0000_0000,
    ensures
        r.is(nearest(x as nat, den as nat)),
        r.mantissa <= 0x20_0000_0000_0000,
        0 < r.up <= 0x20_0000_0000_0000 * 0x1_0000_0000_0000_0000,
        0 < r.down <= 0x1000,
        r.down > 1 ==> den * r.down <= 0x1000,
{
    let limit: u128 = den * 0x10_0000_0000_0000;
    if x < limit {
        let mut y: u128 = x;
        let mut up: u128 = 1;
        let ghost mut e: nat = 0;
        assert(x * 1 == x);
        while y != 0 && y < limit
            invariant
                limit == den * 0x10_0000_0000_0000,
                den <= 0x1_0000_0000_0000_0000,
                x < limit,
                x > 0 || (y == 0 && up == 1),
                y == x * up,
                up == two(e),
                y < 2 * limit,
                up > 0,
                x > 0 ==> y > 0 && up <= y,
                lift(x as nat, den as nat) == e + lift(y as nat, den as nat),
            decreases 2 * limit - y,
        {
            proof {
                assert(2 * y == x * (2 * up)) by (nonlinear_arith)
                    requires
                        y == x * up,
                ;
                e = e + 1;
            }
            y = 2 * y;
            up = 2 * up;
            assert(up <= y) by (nonlinear_arith)
                requires
                    y == x * up,
                    x > 0,
            ;
        }
        proof {
            lemma_half_even_bound(y as nat, den as nat, 0x20_0000_0000_0000);
        }
        Double { mantissa: half_even_of(y, den), up, down: 1 }
    } else {
        let mut scale: u128 = den;
        let mut down: u128 = 1;
        let ghost mut e: nat = 0;
        while x >= scale * 0x20_0000_0000_0000
            invariant
                x <= 0x1_0000_0000_0000_0000,
                0 < scale <= 0x1_0000_0000_0000_0000,
                scale == den * down,
                den > 0,
                down == two(e),
                0 < down <= scale,
                down > 1 ==> scale * 0x10_0000_0000_0000 <= x,
                lower(x as nat, den as nat) == e + lower(x as nat, scale as nat),
            decreases x + 1 - scale,
        {
            proof {
                assert(2 * scale == den * (2 * down)) by (nonlinear_arith)
                    requires
                        scale == den * down,
                ;
                e = e + 1;
            }
            scale = 2 * scale;
            down = 2 * down;
        }
        proof {
            lemma_half_even_bound(x as nat, scale as nat, 0x20_0000_0000_0000);
        }
        Double { mantissa: half_even_of(x, scale), up: 1, down }
    }
}

/// The whole number in double precision nearest to `x`.
pub fn round53_of(x: u128) -> (r: u128)
    requires
        x <= 0x8000_0000_0000_0000_0000_0000_0000_0000,
    ensures
        r == round53(x as nat),
        r <= 0x8000_0000_0000_0000_0000_0000_0000_0000,
        x <= 0x1_0000_0000_0000_0000 ==> r <= 0x1_0000_0000_0000_0000,
        x > 0 ==> r > 0,
{
    let mut down: u128 = 1;
    let ghost mut e: nat = 0;
    while down <= x / 0x20_0000_0000_0000
        invariant
            x <= 0x8000_0000_0000_0000_0000_0000_0000_0000,
            down > 0,
            down == two(e),
            down > 1 ==> down <= x / 0x10_0000_0000_0000,
            lower(x as nat, 1) == e + lower(x as nat, down as nat),
        decreases x + 1 - down,
    {
        assert(x >= down * 0x20_0000_0000_0000);
        proof {
            e = e + 1;
        }
        down = 2 * down;
    }
    assert(x < down * 0x20_0000_0000_0000);
    let q: u128 = half_even_of(x, down);
    proof {
        lemma_two_127();
        lemma_two_64();
        lemma_round53_bound(x as nat, e, 127);
        if x <= 0x1_0000_0000_0000_0000 {
            lemma_round53_bound(x as nat, e, 64);
        }
    }
    q * down
}

proof fn lemma_round53_bound(x: nat, e: nat, k: nat)
    requires
        x <= two(k),
        two(e) > 1 ==> two(e) <= x / 0x10_0000_0000_0000,
    ensures
        half_even(x, two(e)) * two(e) <= two(k),
        x > 0 ==> half_even(x, two(e)) * two(e) > 0,
{
    let down = two(e);
    lemma_two_pos(e);
    assert(e <= k) by {
        if e > k {
            lemma_two_grows(k + 1, e);
            lemma_two_pos(k);
        }
    }
    let bound = two((k - e) as nat);
    lemma_two_adds((k - e) as nat, e);
    lemma_half_even_bound(x, down, bound);
    assert(half_even(x, down) * down <= bound * down) by (nonlinear_arith)
        requires
            half_even(x, down) <= bound,
    ;
    if x > 0 {
        if down == 1 {
            assert(half_even(x, 1) == x);
        } else {
            assert(x / down >= 1) by (nonlinear_arith)
                requires
                    x >= down,
                    down > 0,
            ;
            assert(half_even(x, down) * down > 0) by (nonlinear_arith)
                requires
                    half_even(x, down) >= 1,
                    down > 0,
            ;
        }
    }
}

proof fn lemma_two_pos(e: nat)
    ensures
        two(e) > 0,
    decreases e,
{
    if e > 0 {
        lemma_two_pos((e - 1) as nat);
    }
}

proof fn lemma_two_adds(a: nat, b: nat)
    ensures
        two(a + b) == two(a) * two(b),
    decreases b,
{
    if b > 0 {
        lemma_two_adds(a, (b - 1) as nat);
        assert(2 * (two(a) * two((b - 1) as nat)) == two(a) * (2 * two((b - 1) as nat)))
            by (nonlinear_arith);
    } else {
        assert(two(a) * 1 == two(a));
    }
}

proof fn lemma_two_64()
    ensures
        two(64) == 0x1_0000_0000_0000_0000,
{
    assert(two(16) == 0x1_0000) by {
        reveal_with_fuel(two, 17);
    }
    lemma_two_adds(16, 16);
    assert(two(32) == 0x1_0000_0000) by (nonlinear_arith)
        requires
            two(32) == two(16) * two(16),
            two(16) == 0x1_0000,
    ;
    lemma_two_adds(32, 32);
    assert(two(64) == 0x1_0000_0000_0000_0000) by (nonlinear_arith)
        requires
            two(64) == two(32) * two(32),
            two(32) == 0x1_0000_0000,
    ;
}

proof fn lemma_two_127()
    ensures
        two(127) == 0x8000_0000_0000_0000_0000_0000_0000_0000,
{
    lemma_two_64();
    lemma_two_adds(63, 64);
    assert(two(127) == 0x8000_0000_0000_0000_0000_0000_0000_0000) by (nonlinear_arith)
        requires
            two(127) == two(63) * two(64),
            two(64) == 2 * two(63),
            two(64) == 0x1_0000_0000_0000_0000,
    ;
}

/// Powers of two with exponents below 64 fit in 64 bits.
pub proof fn lemma_two_below(e: nat)
    requires
        e < 63,
    ensures
        2 * two(e) <= 0x8000_0000_0000_0000,
{
    lemma_two_64();
    lemma_two_grows(e + 1, 63);
}

proof fn lemma_two_grows(a: nat, b: nat)
    requires
        a <= b,
    ensures
        two(a) <= two(b),
    decreases b,
{
    if a < b {
        lemma_two_grows(a, (b - 1) as nat);
    }
}

/// Milliseconds as seconds in double precision, times `scale`, rounded.
pub open spec fn seconds(ms: u64, scale: nat) -> nat {
    nearest(round53(ms as nat), 1000).scaled(scale)
}

/// Milliseconds as seconds in double precision, times `scale`, rounded.
pub fn seconds_of(ms: u64, scale: u128) -> (r: u128)
    requires
        scale <= 1000,
    ensures
        r == seconds(ms, scale as nat),
{
    let d = nearest_of(round53_of(ms as u128), 1000);
    scaled_of(&d, scale, Ghost(nearest(round53(ms as nat), 1000)))
}

fn scaled_of(d: &Double, scale: u128, Ghost(m): Ghost<DoubleModel>) -> (r: u128)
    requires
        d.is(m),
        scale <= 1000,
        d.mantissa <= 0x20_0000_0000_0000 * 128,
        0 < d.up <= 0x20_0000_0000_0000 * 0x1_0000_0000_0000_0000,
        d.down <= 0x1000,
    ensures
        r == m.scaled(scale as nat),
{
    proof {
        assert(d.mantissa * d.down <= 0x20_0000_0000_0000 * 128 * 0x1000) by (nonlinear_arith)
            requires
                d.mantissa <= 0x20_0000_0000_0000 * 128,
                d.down <= 0x1000,
        ;
    }
    let v: u128 = d.mantissa * d.down;
    proof {
        assert(v * scale <= 0x20_0000_0000_0000 * 128 * 0x1000 * 1000) by (nonlinear_arith)
            requires
                v <= 0x20_0000_0000_0000 * 128 * 0x1000,
                scale <= 1000,
        ;
    }
    half_even_of(v * scale, d.up)
}

/// The share of `part` in `whole` in percent, as double precision gives it,
/// in tenths.
pub open spec fn percent_tenths(part: u64, whole: u64) -> nat {
    let q = nearest(round53(part as nat), round53(whole as nat));
    DoubleModel { mantissa: round53(q.mantissa * 100), ..q }.scaled(10)
}

/// The share of `part` in `whole` in percent, in tenths.
pub fn percent_tenths_of(part: u64, whole: u64) -> (r: u128)
    requires
        whole > 0,
    ensures
        r == percent_tenths(part, whole),
{
    let a: u128 = round53_of(part as u128);
    let b: u128 = round53_of(whole as u128);
    let q = nearest_of(a, b);
    let m: u128 = round53_of(q.mantissa * 100);
    proof {
        assert(two(60) == 0x1000_0000_0000_0000) by {
            lemma_two_64();
            reveal_with_fuel(two, 5);
        }
        lemma_round53_at_most(q.mantissa as nat * 100, 60);
    }
    let p = Double { mantissa: m, up: q.up, down: q.down };
    scaled_of(
        &p,
        10,
        Ghost(
            DoubleModel {
                mantissa: m as nat,
                ..nearest(round53(part as nat), round53(whole as nat))
            },
        ),
    )
}

proof fn lemma_lower_bound(x: nat, den: nat)
    requires
        den > 0,
    ensures
        lower(x, den) > 0 ==> den * two(lower(x, den)) <= x / 0x10_0000_0000_0000,
    decreases x + 1 - den,
{
    if x >= den * 0x20_0000_0000_0000 {
        lemma_lower_bound(x, 2 * den);
        let k = lower(x, 2 * den);
        assert(den * (2 * two(k)) == 2 * den * two(k)) by (nonlinear_arith);
        if k == 0 {
            assert(den * two(1) == 2 * den) by {
                assert(two(1) == 2 * two(0));
                assert(den * 2 == 2 * den) by (nonlinear_arith);
            }
        }
    }
}

proof fn lemma_round53_at_most(x: nat, k: nat)
    requires
        x <= two(k),
    ensures
        round53(x) <= two(k),
{
    let e = lower(x, 1);
    lemma_lower_bound(x, 1);
    lemma_two_pos(e);
    assert(1 * two(e) == two(e));
    lemma_round53_bound(x, e, k);
}

/// Milliseconds as seconds in double precision, in units of `2^-62` seconds.
pub open spec fn second_units(ms: u64) -> nat {
    let d = nearest(round53(ms as nat), 1000);
    (d.mantissa * two(d.down) * two(62)) / two(d.up)
}

/// The sum of durations in seconds, added up one after the other in double
/// precision, in units of `2^-62` seconds.
pub open spec fn sum_units(durations: Seq<u64>) -> nat
    decreases durations.len(),
{
    if durations.len() == 0 {
        0
    } else {
        round53(sum_units(durations.drop_last()) + second_units(durations.last()))
    }
}

/// The sum of durations in thousandths of a second.
pub open spec fn sum_thousandths(durations: Seq<u64>) -> nat {
    half_even(sum_units(durations) * 1000, two(62))
}

fn second_units_of(ms: u64) -> (r: u128)
    ensures
        r == second_units(ms),
        r <= 0x20_0000_0000_0000_0000_0000_0000_0000,
{
    let d = nearest_of(round53_of(ms as u128), 1000);
    proof {
        assert(d.mantissa * d.down <= 0x20_0000_0000_0000 * 4) by (nonlinear_arith)
            requires
                d.mantissa <= 0x20_0000_0000_0000,
                d.down <= 4,
        ;
        lemma_two_62();
    }
    let v: u128 = d.mantissa * d.down;
    let w: u128 = v * 0x4000_0000_0000_0000;
    assert(w / d.up <= w) by (nonlinear_arith)
        requires
            d.up > 0,
    ;
    w / d.up
}

// ---------------------------------------------------------------------------
// Sums that are wider than 128 bits

proof fn lemma_two_62()
    ensures
        two(62) == 0x4000_0000_0000_0000,
{
    lemma_two_64();
    reveal_with_fuel(two, 3);
}

/// Digits behind the 53 leading ones do not change how often the denominator
/// has to be doubled.
proof fn lemma_lower_scaled(hi: nat, lo: nat, base: nat, den: nat)
    requires
        lo < base,
        den > 0,
    ensures
        lower(hi * base + lo, den * base) == lower(hi, den),
    decreases hi + 1 - den,
{
    let x = hi * base + lo;
    assert(den * base > 0) by (nonlinear_arith)
        requires
            den > 0,
            base > 0,
    ;
    assert(x < den * base * 0x20_0000_0000_0000 <==> hi < den * 0x20_0000_0000_0000)
        by (nonlinear_arith)
        requires
            x == hi * base + lo,
            lo < base,
    ;
    if hi >= den * 0x20_0000_0000_0000 {
        lemma_lower_scaled(hi, lo, base, 2 * den);
        assert(2 * den * base == 2 * (den * base)) by (nonlinear_arith);
    }
}

/// The first doublings of the denominator.
proof fn lemma_lower_steps(x: nat, b: nat)
    requires
        b > 0 ==> x >= two((b - 1) as nat) * 0x20_0000_0000_0000,
    ensures
        lower(x, 1) == b + lower(x, two(b)),
    decreases b,
{
    if b > 0 {
        let c = (b - 1) as nat;
        if c > 0 {
            lemma_two_grows((c - 1) as nat, c);
        }
        lemma_lower_steps(x, c);
        lemma_two_pos(c);
    }
}

/// Of the digits behind a whole number only matters whether there are any.
proof fn lemma_half_even_sticky(hi: nat, lo: nat, base: nat, c: nat)
    requires
        lo < base,
        c > 0,
    ensures
        half_even(hi * base + lo, 2 * c * base) == half_even(
            2 * hi + if lo > 0 {
                1nat
            } else {
                0
            },
            2 * (2 * c),
        ),
{
    let d = 2 * c;
    let s: nat = if lo > 0 {
        1
    } else {
        0
    };
    let q = hi / d;
    let r = hi % d;
    vstd::arithmetic::div_mod::lemma_fundamental_div_mod(hi as int, d as int);
    let x = hi * base + lo;
    let y = 2 * hi + s;
    assert(x == q * (d * base) + (r * base + lo)) by (nonlinear_arith)
        requires
            x == hi * base + lo,
            hi == d * q + r,
    ;
    assert(0 <= r * base + lo < d * base) by (nonlinear_arith)
        requires
            0 <= r < d,
            0 <= lo < base,
    ;
    vstd::arithmetic::div_mod::lemma_fundamental_div_mod_converse(
        x as int,
        (d * base) as int,
        q as int,
        (r * base + lo) as int,
    );
    assert(y == q * (2 * d) + (2 * r + s)) by (nonlinear_arith)
        requires
            y == 2 * hi + s,
            hi == d * q + r,
    ;
    vstd::arithmetic::div_mod::lemma_fundamental_div_mod_converse(
        y as int,
        (2 * d) as int,
        q as int,
        (2 * r + s) as int,
    );
    assert(d * base == 2 * (c * base)) by (nonlinear_arith)
        requires
            d == 2 * c,
    ;
    assert(r < c ==> r * base + lo < c * base) by (nonlinear_arith)
        requires
            lo < base,
    ;
    assert(r >= c ==> r * base + lo >= c * base + lo) by (nonlinear_arith);
    assert(r > c ==> r * base + lo > c * base) by (nonlinear_arith)
        requires
            base > 0,
    ;
    assert(r == c ==> r * base + lo == c * base + lo);
    assert(2 * c * base == d * base);
}

/// A sum that is wider than 128 bits is rounded by its upper digits and
/// whether there are others.
proof fn lemma_round_wide(hi: nat, lo: nat)
    requires
        hi >= 0x20_0000_0000_0000,
        lo < two(64),
    ensures
        ({
            let y = 2 * hi + if lo > 0 {
                1nat
            } else {
                0
            };
            let d = two(lower(hi, 1));
            let h = half_even(y, 2 * d);
            &&& round53(hi * two(64) + lo) == h * d * two(64)
            &&& round53(y) == 2 * (h * d)
            &&& lower(y, 1) == 1 + lower(hi, 1)
            &&& d >= 2
        }),
{
    let s: nat = if lo > 0 {
        1
    } else {
        0
    };
    let base = two(64);
    lemma_two_64();
    let x = hi * base + lo;
    let y = 2 * hi + s;
    let j = lower(hi, 1);
    let d = two(j);
    assert(j >= 1);
    let c = two((j - 1) as nat);
    lemma_two_pos((j - 1) as nat);
    assert(d == 2 * c);
    assert(x >= two(63) * 0x20_0000_0000_0000) by {
        assert(two(64) == 2 * two(63));
        assert(hi * base >= 0x20_0000_0000_0000 * base) by (nonlinear_arith)
            requires
                hi >= 0x20_0000_0000_0000,
        ;
    }
    lemma_lower_steps(x, 64);
    lemma_lower_scaled(hi, lo, base, 1);
    assert(1 * base == base);
    assert(lower(x, 1) == 64 + j);
    assert(two(1) == 2) by {
        reveal_with_fuel(two, 2);
    }
    assert(two(0) == 1);
    lemma_lower_steps(y, 1);
    lemma_lower_scaled(hi, s, 2, 1);
    assert(hi * 2 + s == y);
    assert(lower(y, 1) == 1 + j);
    lemma_two_adds(j, 64);
    assert(two(64 + j) == d * base);
    assert(two(1 + j) == 2 * d);
    lemma_half_even_sticky(hi, lo, base, c);
    let h = half_even(y, 2 * d);
    assert(2 * c * base == d * base);
    assert(half_even(x, d * base) == h);
    assert(h * (d * base) == h * d * base) by (nonlinear_arith);
    assert(h * (2 * d) == 2 * (h * d)) by (nonlinear_arith);
}

/// A sum in units of `2^-62` seconds, as `hi * 2^64 + lo`.
struct Wide {
    hi: u128,
    lo: u64,
}

impl Wide {
    spec fn value(self) -> nat {
        self.hi as nat * 0x1_0000_0000_0000_0000nat + self.lo as nat
    }

    /// The sum is at most `2^172`; it has no lower digits if the upper ones are
    /// more than 53, and above `2^171` it is a multiple of `2^118`.
    spec fn ok(self) -> bool {
        &&& self.hi <= 0x1000_0000_0000_0000_0000_0000_0000
        &&& self.hi >= 0x20_0000_0000_0000 ==> self.lo == 0
        &&& self.hi >= 0x800_0000_0000_0000_0000_0000_0000 ==> self.hi as nat
            % 0x40_0000_0000_0000nat == 0
    }
}

/// The upper digits of a sum after rounding, given those before and whether
/// there are others.
fn round_upper(hi: u128, more: bool) -> (r: u128)
    requires
        0x20_0000_0000_0000 <= hi <= 0x1000_0000_0000_0000_0000_0000_0000 + 0x20_0000_0000_0001,
        hi > 0x1000_0000_0000_0000_0000_0000_0000 - 0x10_0000_0000_0000 ==> hi
            >= 0x1000_0000_0000_0000_0000_0000_0000,
    ensures
        forall|lo: nat|
            lo < 0x1_0000_0000_0000_0000 && more == (lo > 0) ==> #[trigger] round53(
                hi as nat * 0x1_0000_0000_0000_0000nat + lo,
            ) == r as nat * 0x1_0000_0000_0000_0000nat,
        r <= 0x1000_0000_0000_0000_0000_0000_0000,
        r >= 0x800_0000_0000_0000_0000_0000_0000 ==> r as nat % 0x40_0000_0000_0000nat == 0,
{
    let y: u128 = if more {
        2 * hi + 1
    } else {
        2 * hi
    };
    let z: u128 = round53_of(y);
    let r: u128 = z / 2;
    proof {
        lemma_two_64();
        let some: nat = if more {
            1
        } else {
            0
        };
        lemma_round_wide(hi as nat, some);
        let j = lower(hi as nat, 1);
        let d = two(j);
        let h = half_even(y as nat, 2 * d);
        assert(z == 2 * (h * d));
        assert(r == h * d);
        assert forall|lo: nat|
            lo < 0x1_0000_0000_0000_0000 && more == (lo > 0) implies #[trigger] round53(
            hi as nat * 0x1_0000_0000_0000_0000nat + lo,
        ) == r as nat * 0x1_0000_0000_0000_0000nat by {
            lemma_round_wide(hi as nat, lo);
        }
        lemma_round_upper_bounds(hi as nat, y as nat, h, j);
    }
    r
}

proof fn lemma_round_upper_bounds(hi: nat, y: nat, h: nat, j: nat)
    requires
        0x20_0000_0000_0000 <= hi <= 0x1000_0000_0000_0000_0000_0000_0000 + 0x20_0000_0000_0001,
        hi > 0x1000_0000_0000_0000_0000_0000_0000 - 0x10_0000_0000_0000 ==> hi
            >= 0x1000_0000_0000_0000_0000_0000_0000,
        2 * hi <= y <= 2 * hi + 1,
        j == lower(hi, 1),
        lower(y, 1) == 1 + j,
        h == half_even(y, 2 * two(j)),
        round53(y) == 2 * (h * two(j)),
    ensures
        h * two(j) <= 0x1000_0000_0000_0000_0000_0000_0000,
        h * two(j) >= 0x800_0000_0000_0000_0000_0000_0000 ==> (h * two(j))
            % 0x40_0000_0000_0000 == 0,
{
    let d = two(j);
    lemma_two_pos(j);
    lemma_two_108();
    let top: nat = 0x1000_0000_0000_0000_0000_0000_0000;
    if hi >= top {
        // Twice the upper digits lie just above 2^109.
        lemma_two_pos(56);
        assert(two(57) == 2 * two(56));
        lemma_lower_steps(y, 57);
        assert(lower(y, two(57)) == 0);
        assert(j == 56);
        assert(0x10_0000_0000_0000int * 0x200_0000_0000_0000int == 2 * top) by (nonlinear_arith)
            requires
                top == 0x1000_0000_0000_0000_0000_0000_0000,
        ;
        vstd::arithmetic::div_mod::lemma_fundamental_div_mod_converse(
            y as int,
            0x200_0000_0000_0000,
            0x10_0000_0000_0000,
            y - 2 * top,
        );
        assert(h == 0x10_0000_0000_0000);
        assert(h * d == top) by (nonlinear_arith)
            requires
                h == 0x10_0000_0000_0000,
                d == 0x100_0000_0000_0000,
                top == 0x1000_0000_0000_0000_0000_0000_0000,
        ;
    } else {
        assert(two(109) == 2 * top);
        lemma_round53_at_most(y, 109);
        if h * d >= 0x800_0000_0000_0000_0000_0000_0000 {
            // The digits of `h` are at most 53.
            lemma_lower_end(y, 1);
            lemma_two_adds(0, 1 + j);
            assert(y < two(1 + j) * 0x20_0000_0000_0000);
            lemma_half_even_bound(y, 2 * d, 0x20_0000_0000_0000);
            assert(j >= 54) by {
                if j < 54 {
                    lemma_two_grows(j, 53);
                    assert(h * d <= 0x20_0000_0000_0000 * two(53)) by (nonlinear_arith)
                        requires
                            h <= 0x20_0000_0000_0000,
                            d <= two(53),
                    ;
                }
            }
            lemma_two_adds((j - 54) as nat, 54);
            let k = two((j - 54) as nat);
            assert(h * d == (h * k) * 0x40_0000_0000_0000) by (nonlinear_arith)
                requires
                    d == k * 0x40_0000_0000_0000,
            ;
            vstd::arithmetic::div_mod::lemma_mod_multiples_basic(
                (h * k) as int,
                0x40_0000_0000_0000,
            );
        }
    }
}

proof fn lemma_lower_end(x: nat, den: nat)
    requires
        den > 0,
    ensures
        x < den * two(lower(x, den)) * 0x20_0000_0000_0000,
    decreases x + 1 - den,
{
    if x >= den * 0x20_0000_0000_0000 {
        lemma_lower_end(x, 2 * den);
        let k = lower(x, 2 * den);
        assert(2 * den * two(k) == den * (2 * two(k))) by (nonlinear_arith);
    } else {
        assert(den * 1 == den);
    }
}

proof fn lemma_two_108()
    ensures
        two(53) == 0x20_0000_0000_0000,
        two(54) == 0x40_0000_0000_0000,
        two(56) == 0x100_0000_0000_0000,
        two(57) == 0x200_0000_0000_0000,
        two(108) == 0x1000_0000_0000_0000_0000_0000_0000,
        two(109) == 0x2000_0000_0000_0000_0000_0000_0000,
        two(117) == 0x20_0000_0000_0000_0000_0000_0000_0000,
{
    lemma_two_64();
    assert(two(53) == 0x20_0000_0000_0000 && two(54) == 0x40_0000_0000_0000 && two(56)
        == 0x100_0000_0000_0000 && two(57) == 0x200_0000_0000_0000) by {
        reveal_with_fuel(two, 13);
    }
    lemma_two_adds(54, 54);
    assert(two(108) == 0x1000_0000_0000_0000_0000_0000_0000) by (nonlinear_arith)
        requires
            two(108) == two(54) * two(54),
            two(54) == 0x40_0000_0000_0000,
    ;
    assert(two(109) == 2 * two(108));
    lemma_two_adds(53, 64);
    assert(two(117) == 0x20_0000_0000_0000_0000_0000_0000_0000) by (nonlinear_arith)
        requires
            two(117) == two(53) * two(64),
            two(53) == 0x20_0000_0000_0000,
            two(64) == 0x1_0000_0000_0000_0000,
    ;
}

/// A sum and one more duration, rounded.
#[verifier::spinoff_prover]
fn add_units(sum: Wide, x: u128) -> (r: Wide)
    requires
        sum.ok(),
        x <= 0x20_0000_0000_0000_0000_0000_0000_0000,
    ensures
        r.ok(),
        r.value() == round53(sum.value() + x as nat),
{
    let base: u128 = 0x1_0000_0000_0000_0000;
    let low: u128 = sum.lo as u128 + x % base;
    let carry: u128 = low / base;
    let lo: u128 = low % base;
    let hi: u128 = sum.hi + x / base + carry;
    assert(x == (x / base) * base + x % base);
    assert(low == carry * base + lo);
    assert(sum.value() + x as nat == hi as nat * 0x1_0000_0000_0000_0000nat + lo as nat);
    if hi < 0x20_0000_0000_0000 {
        let all: u128 = hi * base + lo;
        let r: u128 = round53_of(all);
        proof {
            lemma_two_108();
            lemma_round53_at_most(all as nat, 117);
        }
        assert(r == (r / base) * base + r % base);
        Wide { hi: r / base, lo: (r % base) as u64 }
    } else {
        proof {
            let top: nat = 0x1000_0000_0000_0000_0000_0000_0000;
            if sum.hi < top && sum.hi >= 0x800_0000_0000_0000_0000_0000_0000 {
                assert(sum.hi <= top - 0x40_0000_0000_0000) by {
                    assert(sum.hi as nat % 0x40_0000_0000_0000nat == 0);
                    assert(top % 0x40_0000_0000_0000nat == 0);
                }
            }
        }
        Wide { hi: round_upper(hi, lo > 0), lo: 0 }
    }
}

/// The sum of durations in thousandths of a second.
pub fn sum_thousandths_of(durations: &Vec<u64>) -> (r: u128)
    ensures
        r == sum_thousandths(durations@),
{
    let mut sum = Wide { hi: 0, lo: 0 };
    let mut i: usize = 0;
    assert(durations@.take(0) =~= Seq::<u64>::empty());
    while i < durations.len()
        invariant
            i <= durations@.len(),
            sum.ok(),
            sum.value() == sum_units(durations@.take(i as int)),
        decreases durations@.len() - i,
    {
        assert(durations@.take(i + 1).drop_last() =~= durations@.take(i as int));
        sum = add_units(sum, second_units_of(durations[i]));
        i = i + 1;
    }
    assert(durations@.take(durations@.len() as int) =~= durations@);
    proof {
        lemma_two_62();
    }
    if sum.hi < 0x20_0000_0000_0000 {
        let all: u128 = sum.hi * 0x1_0000_0000_0000_0000 + sum.lo as u128;
        half_even_of(all * 1000, 0x4000_0000_0000_0000)
    } else {
        let r: u128 = sum.hi * 4000;
        assert(sum.value() * 1000 == r as nat * 0x4000_0000_0000_0000nat);
        assert(half_even(r as nat * 0x4000_0000_0000_0000nat, 0x4000_0000_0000_0000) == r);
        r
    }
}

// ---------------------------------------------------------------------------
// Laws

/// Rounding a fraction gives the nearest whole number, and of two that are
/// equally near the even one.
pub proof fn lemma_half_even_is_nearest(n: nat, d: nat)
    requires
        d > 0,
    ensures
        2 * (half_even(n, d) * d) <= 2 * n + d,
        2 * n <= 2 * (half_even(n, d) * d) + d,
        2 * (half_even(n, d) * d) == 2 * n + d || 2 * n == 2 * (half_even(n, d) * d) + d ==> half_even(
            n,
            d,
        ) % 2 == 0,
{
    let q = n / d;
    let r = n % d;
    assert(n == q * d + r && 0 <= r < d) by (nonlinear_arith)
        requires
            d > 0,
            q == n / d,
            r == n % d,
    ;
    assert((q + 1) * d == q * d + d) by (nonlinear_arith);
}

/// A whole number of halves is rounded up or down to the even one, and a whole
/// number stays.
pub proof fn lemma_half_even_exact(q: nat, d: nat)
    requires
        d > 0,
    ensures
        half_even(q * d, d) == q,
{
    assert((q * d) / d == q && (q * d) % d == 0) by (nonlinear_arith)
        requires
            d > 0,
    ;
}

/// Numbers that a double holds exactly are not changed by rounding to one.
pub proof fn lemma_round53_exact(x: nat)
    requires
        x < 0x20_0000_0000_0000,
    ensures
        round53(x) == x,
{
    assert(lower(x, 1) == 0);
    assert(two(0) == 1);
    lemma_half_even_exact(x, 1);
    assert(x * 1 == x);
}

/// A power of two is twice the one before it.
pub proof fn lemma_two_doubles(e: nat)
    ensures
        two(0) == 1,
        two(e + 1) == 2 * two(e),
        two(e) >= 1,
    decreases e,
{
    if e > 0 {
        lemma_two_doubles((e - 1) as nat);
    }
}

/// Small fractions are doubled often.
proof fn lemma_lift_often(x: nat, den: nat, k: nat)
    requires
        x > 0,
        x * two(k) < den * 0x10_0000_0000_0000,
    ensures
        lift(x, den) >= k + 1,
    decreases k,
{
    if k > 0 {
        let j = (k - 1) as nat;
        assert(2 * x * two(j) == x * (2 * two(j))) by (nonlinear_arith);
        lemma_two_pos(j);
        assert(x <= x * two(k)) by (nonlinear_arith)
            requires
                two(k) >= 1,
                x >= 0,
        ;
        lemma_lift_often(2 * x, den, j);
    } else {
        assert(x * 1 == x);
    }
}

/// Fractions are not doubled beyond twice the limit.
proof fn lemma_lift_ends(x: nat, den: nat)
    requires
        x > 0,
        x < den * 0x10_0000_0000_0000,
    ensures
        den * 0x10_0000_0000_0000 <= x * two(lift(x, den)) < 2 * (den * 0x10_0000_0000_0000),
    decreases den * 0x10_0000_0000_0000 - x,
{
    let limit = den * 0x10_0000_0000_0000;
    if 2 * x < limit {
        lemma_lift_ends(2 * x, den);
        let k = lift(2 * x, den);
        assert(2 * x * two(k) == x * (2 * two(k))) by (nonlinear_arith);
    } else {
        assert(lift(2 * x, den) == 0);
        assert(two(1) == 2 * two(0));
        assert(x * 2 == 2 * x);
    }
}

/// How near the nearest double to a fraction is.
proof fn lemma_nearest_error(x: nat, den: nat)
    requires
        0 < x < den * 0x400_0000_0000,
        den > 0,
    ensures
        ({
            let d = nearest(x, den);
            let t = two(d.up);
            &&& d.down == 0
            &&& t >= 1024
            &&& d.up == lift(x, den)
            &&& 2 * (d.mantissa * den) <= 2 * (x * t) + den
            &&& 2 * (x * t) <= 2 * (d.mantissa * den) + den
            &&& den * 0x10_0000_0000_0000 <= x * t < 2 * (den * 0x10_0000_0000_0000)
        }),
{
    let up = lift(x, den);
    assert(two(9) == 512) by {
        reveal_with_fuel(two, 10);
    }
    assert(two(10) == 1024);
    lemma_lift_often(x, den, 9);
    lemma_two_grows(10, up);
    lemma_lift_ends(x, den);
    lemma_half_even_is_nearest(x * two(up), den);
}

/// Milliseconds are shown as seconds with three digits behind the point
/// without an error, and with two digits to the nearest hundredth.
pub proof fn lemma_seconds_are_exact(ms: u64)
    requires
        ms < 4_000_000_000_000_000,
    ensures
        seconds(ms, 1000) == ms,
        10 * seconds(ms, 100) <= ms + 5,
        ms <= 10 * seconds(ms, 100) + 5,
{
    let x = ms as nat;
    lemma_round53_exact(x);
    if x > 0 {
        lemma_nearest_error(x, 1000);
        let d = nearest(x, 1000);
        let t = two(d.up);
        let m = d.mantissa;
        assert(two(d.down) == 1);
        let n = m * two(d.down) * 1000;
        assert(n == m * 1000) by (nonlinear_arith)
            requires
                n == m * two(d.down) * 1000,
                two(d.down) == 1,
        ;
        lemma_half_even_is_nearest(m * 1000, t);
        let s = seconds(ms, 1000);
        assert(s == x) by (nonlinear_arith)
            requires
                2 * (s * t) <= 2 * (m * 1000) + t,
                2 * (m * 1000) <= 2 * (s * t) + t,
                2 * (m * 1000) <= 2 * (x * t) + 1000,
                2 * (x * t) <= 2 * (m * 1000) + 1000,
                t >= 1024,
        ;
        let k = m * two(d.down) * 100;
        assert(k == m * 100) by (nonlinear_arith)
            requires
                k == m * two(d.down) * 100,
                two(d.down) == 1,
        ;
        lemma_half_even_is_nearest(m * 100, t);
        let h = seconds(ms, 100);
        assert(10 * h <= x + 5 && x <= 10 * h + 5) by (nonlinear_arith)
            requires
                2 * (h * t) <= 2 * (m * 100) + t,
                2 * (m * 100) <= 2 * (h * t) + t,
                2 * (m * 1000) <= 2 * (x * t) + 1000,
                2 * (x * t) <= 2 * (m * 1000) + 1000,
                t >= 1024,
        ;
    } else {
        assert(lift(0, 1000) == 0);
        assert(half_even(0 * two(0), 1000) == 0);
        assert(0 * two(0) * 1000 == 0) by (nonlinear_arith);
        assert(0 * two(0) * 100 == 0) by (nonlinear_arith);
        assert(half_even(0, 1) == 0);
    }
}

proof fn lemma_round53_error(y: nat)
    ensures
        2 * round53(y) <= 2 * y + y / 0x10_0000_0000_0000,
        2 * y <= 2 * round53(y) + y / 0x10_0000_0000_0000,
{
    let e = lower(y, 1);
    let t = two(e);
    lemma_two_pos(e);
    lemma_lower_bound(y, 1);
    lemma_half_even_is_nearest(y, t);
    assert(1 * t == t);
    if e == 0 {
        assert(t == 1);
        lemma_half_even_exact(y, 1);
        assert(y * 1 == y);
        assert(half_even(y, 1) * 1 == half_even(y, 1));
    }
}

/// A share in tenths of a percent is off by less than one tenth; the whole is
/// exactly a hundred percent, and nothing is none.
pub proof fn lemma_percent_tenths(part: u64, whole: u64)
    requires
        0 < whole < 0x20_0000_0000_0000,
        part <= whole,
    ensures
        percent_tenths(part, whole) * whole < 1000 * part + whole,
        1000 * part < percent_tenths(part, whole) * whole + whole,
        percent_tenths(whole, whole) == 1000,
        percent_tenths(0, whole) == 0,
{
    lemma_share(part as nat, whole as nat);
    lemma_share(whole as nat, whole as nat);
    lemma_share(0, whole as nat);
    let a = percent_tenths(whole, whole);
    let b = percent_tenths(0, whole);
    assert(a == 1000) by (nonlinear_arith)
        requires
            a * whole < 1000 * whole + whole,
            1000 * whole < a * whole + whole,
            whole > 0,
    ;
    assert(b == 0) by (nonlinear_arith)
        requires
            b * whole < 1000 * 0 + whole,
            whole > 0,
    ;
}

proof fn lemma_share(x: nat, den: nat)
    requires
        0 < den < 0x20_0000_0000_0000,
        x <= den,
    ensures
        percent_tenths(x as u64, den as u64) * den < 1000 * x + den,
        1000 * x < percent_tenths(x as u64, den as u64) * den + den,
{
    lemma_round53_exact(x);
    lemma_round53_exact(den);
    let q = nearest(x, den);
    let t = two(q.up);
    let m = q.mantissa;
    let r = round53(m * 100);
    let p = percent_tenths(x as u64, den as u64);
    if x == 0 {
        assert(lift(0, den) == 0);
        assert(0 * two(0) == 0) by (nonlinear_arith);
        assert(m == 0) by {
            assert(0nat / den == 0 && 0nat % den == 0) by (nonlinear_arith)
                requires
                    den > 0,
            ;
        }
        lemma_round53_exact(0);
        assert(q.down == 0 && q.up == 0);
        let n = r * two(q.down) * 10;
        assert(n == 0) by (nonlinear_arith)
            requires
                n == r * two(q.down) * 10,
                r == 0,
        ;
        assert(half_even(0, 1) == 0);
        assert(p == 0);
        assert(0 * den == 0) by (nonlinear_arith);
    } else {
        assert(two(12) == 4096) by {
            reveal_with_fuel(two, 13);
        }
        assert(two(11) == 2048) by {
            reveal_with_fuel(two, 12);
        }
        lemma_lift_often(x, den, 11);
        lemma_two_grows(12, q.up);
        lemma_lift_ends(x, den);
        lemma_half_even_is_nearest(x * t, den);
        assert(q.down == 0);
        assert(two(q.down) == 1);
        // The digits of a double.
        assert(m <= 0x20_0000_0000_0000) by (nonlinear_arith)
            requires
                2 * (m * den) <= 2 * (x * t) + den,
                x * t < 2 * (den * 0x10_0000_0000_0000),
                den > 0,
        ;
        lemma_round53_error(m * 100);
        assert((m * 100) / 0x10_0000_0000_0000 <= 200);
        let n = r * two(q.down) * 10;
        assert(n == r * 10) by (nonlinear_arith)
            requires
                n == r * two(q.down) * 10,
                two(q.down) == 1,
        ;
        lemma_half_even_is_nearest(r * 10, t);
        lemma_share_bound(p, r, m, x, den, t);
    }
}

proof fn lemma_share_bound(p: nat, r: nat, m: nat, x: nat, den: nat, t: nat)
    requires
        den > 0,
        t >= 4096,
        2 * (p * t) <= 2 * (r * 10) + t,
        2 * (r * 10) <= 2 * (p * t) + t,
        2 * r <= 2 * (m * 100) + 200,
        2 * (m * 100) <= 2 * r + 200,
        2 * (m * den) <= 2 * (x * t) + den,
        2 * (x * t) <= 2 * (m * den) + den,
    ensures
        p * den < 1000 * x + den,
        1000 * x < p * den + den,
{
    // In units of `den * t`: the errors are at most a half, `1000 / t` and
    // `500 / t`.
    let a = p * t;
    assert(2 * a <= 2000 * m + 2000 + t);
    assert(2000 * m <= 2 * a + 2000 + t);
    assert(2 * (a * den) <= 2000 * (m * den) + 2000 * den + t * den) by (nonlinear_arith)
        requires
            2 * a <= 2000 * m + 2000 + t,
            den > 0,
    ;
    assert(2000 * (m * den) <= 2 * (a * den) + 2000 * den + t * den) by (nonlinear_arith)
        requires
            2000 * m <= 2 * a + 2000 + t,
            den > 0,
    ;
    let xt = x * t;
    let dt = den * t;
    assert(t * den == dt) by (nonlinear_arith)
        requires
            dt == den * t,
    ;
    assert(3000 * den < dt) by (nonlinear_arith)
        requires
            dt == den * t,
            t >= 4096,
            den > 0,
    ;
    assert(2 * (a * den) < 2000 * xt + 2 * dt);
    assert(2000 * xt < 2 * (a * den) + 2 * dt);
    assert(a * den == (p * den) * t) by (nonlinear_arith)
        requires
            a == p * t,
    ;
    let pd = p * den;
    assert(pd < 1000 * x + den) by (nonlinear_arith)
        requires
            2 * (pd * t) < 2000 * (x * t) + 2 * (den * t),
            t > 0,
    ;
    assert(1000 * x < pd + den) by (nonlinear_arith)
        requires
            2000 * (x * t) < 2 * (pd * t) + 2 * (den * t),
            t > 0,
    ;
}

/// The durations, added up.
pub open spec fn whole_sum(durations: Seq<u64>) -> nat {
    durations.fold_left(0nat, |s: nat, d: u64| s + d as nat)
}

/// A duration in units of `2^-62` seconds is off by little.
proof fn lemma_second_units_error(ms: u64)
    requires
        ms < 4_000_000_000_000_000,
    ensures
        1000 * second_units(ms) <= ms * 0x4000_0000_0000_0000 + 512 * ms,
        ms * 0x4000_0000_0000_0000 <= 1000 * second_units(ms) + 512 * ms,
{
    let x = ms as nat;
    let top: nat = 0x4000_0000_0000_0000;
    lemma_round53_exact(x);
    lemma_two_62();
    if x > 0 {
        lemma_nearest_error(x, 1000);
        let d = nearest(x, 1000);
        let t = two(d.up);
        let m = d.mantissa;
        assert(d.up <= 62) by {
            if d.up > 62 {
                lemma_two_grows(63, d.up);
                assert(two(63) == 2 * two(62));
                assert(x * t >= t) by (nonlinear_arith)
                    requires
                        x >= 1,
                ;
            }
        }
        let c = two((62 - d.up) as nat);
        lemma_two_adds(d.up, (62 - d.up) as nat);
        assert(t * c == top);
        let w = m * two(d.down) * two(62);
        assert(w == m * (t * c)) by (nonlinear_arith)
            requires
                w == m * two(d.down) * two(62),
                two(d.down) == 1,
                two(62) == t * c,
        ;
        let u = second_units(ms);
        assert(m * (t * c) == (m * c) * t) by (nonlinear_arith);
        assert(u == m * c) by (nonlinear_arith)
            requires
                u == ((m * c) * t) / t,
                t > 0,
        ;
        lemma_units_bound(u, m, c, x, t, top);
    } else {
        assert(lift(0, 1000) == 0);
        assert(0 * two(0) == 0);
        let d = nearest(0, 1000);
        assert(d.mantissa == 0);
        let w = d.mantissa * two(d.down) * two(62);
        assert(w == 0) by (nonlinear_arith)
            requires
                w == d.mantissa * two(d.down) * two(62),
                d.mantissa == 0,
        ;
    }
}

proof fn lemma_units_bound(u: nat, m: nat, c: nat, x: nat, t: nat, top: nat)
    requires
        u == m * c,
        t * c == top,
        t > 0,
        top == 0x4000_0000_0000_0000,
        2 * (m * 1000) <= 2 * (x * t) + 1000,
        2 * (x * t) <= 2 * (m * 1000) + 1000,
        1000 * 0x10_0000_0000_0000 <= x * t,
    ensures
        1000 * u <= x * top + 512 * x,
        x * top <= 1000 * u + 512 * x,
{
    // `c` is at most `x * 1024 / 1000`.
    assert(1000 * c <= 1024 * x) by (nonlinear_arith)
        requires
            t * c == top,
            top == 0x4000_0000_0000_0000,
            1000 * 0x10_0000_0000_0000 <= x * t,
            t > 0,
    ;
    assert(2000 * (m * c) <= 2 * (x * (t * c)) + 1000 * c) by (nonlinear_arith)
        requires
            2 * (m * 1000) <= 2 * (x * t) + 1000,
    ;
    assert(2 * (x * (t * c)) <= 2000 * (m * c) + 1000 * c) by (nonlinear_arith)
        requires
            2 * (x * t) <= 2 * (m * 1000) + 1000,
    ;
}

proof fn lemma_sum_units_error(durations: Seq<u64>)
    requires
        durations.len() * whole_sum(durations) < 0x2_0000_0000_0000,
    ensures
        1000 * sum_units(durations) <= whole_sum(durations) * 0x4000_0000_0000_0000 + 2048 * (
        durations.len() * whole_sum(durations)),
        whole_sum(durations) * 0x4000_0000_0000_0000 <= 1000 * sum_units(durations) + 2048 * (
        durations.len() * whole_sum(durations)),
    decreases durations.len(),
{
    reveal_with_fuel(Seq::fold_left, 2);
    let n = durations.len();
    let s = whole_sum(durations);
    if n > 0 {
        let rest = durations.drop_last();
        let d = durations.last() as nat;
        let r = whole_sum(rest);
        let k = rest.len();
        assert(s == r + d);
        assert(n == k + 1);
        assert(n * s >= k * r && n * s >= d && n * s == k * s + s && k * r <= k * s) by (nonlinear_arith)
            requires
                s == r + d,
                n == k + 1,
        ;
        lemma_sum_units_error(rest);
        lemma_second_units_error(durations.last());
        let a = sum_units(rest);
        let u = second_units(durations.last());
        let y = a + u;
        lemma_round53_error(y);
        let top: nat = 0x4000_0000_0000_0000;
        assert(r * top + d * top == s * top) by (nonlinear_arith)
            requires
                s == r + d,
        ;
        // Before rounding.
        assert(1000 * y <= s * top + 2048 * (k * r) + 512 * d);
        assert(s * top <= 1000 * y + 2048 * (k * r) + 512 * d);
        let v = sum_units(durations);
        assert(v == round53(y));
        let e = y / 0x10_0000_0000_0000;
        assert(e * 0x10_0000_0000_0000 <= y);
        assert(1000 * e <= 2048 * s) by (nonlinear_arith)
            requires
                e * 0x10_0000_0000_0000 <= y,
                1000 * y <= s * top + 2048 * (k * r) + 512 * d,
                top == 0x4000_0000_0000_0000,
                k * r <= k * s,
                k * s + s < 0x2_0000_0000_0000,
                d <= s,
        ;
        assert(2 * v <= 2 * y + e);
        assert(2 * y <= 2 * v + e);
        assert(2000 * v <= 2000 * y + 2048 * s);
        assert(2000 * y <= 2000 * v + 2048 * s);
    } else {
        assert(n * s == 0) by (nonlinear_arith)
            requires
                n == 0,
        ;
    }
}

/// The sum of durations in thousandths of a second is what the durations add up
/// to, as long as there are not too many of them.
pub proof fn lemma_sum_is_exact(durations: Seq<u64>)
    requires
        durations.len() * whole_sum(durations) < 0x2_0000_0000_0000,
    ensures
        sum_thousandths(durations) == whole_sum(durations),
{
    lemma_sum_units_error(durations);
    lemma_two_62();
    let top: nat = 0x4000_0000_0000_0000;
    let u = sum_units(durations) * 1000;
    let s = whole_sum(durations);
    let r = sum_thousandths(durations);
    lemma_half_even_is_nearest(u, top);
    assert(r == s) by (nonlinear_arith)
        requires
            2 * (r * top) <= 2 * u + top,
            2 * u <= 2 * (r * top) + top,
            u <= s * top + 2048 * 0x2_0000_0000_0000,
            s * top <= u + 2048 * 0x2_0000_0000_0000,
            top == 0x4000_0000_0000_0000,
    ;
}

} // verus!
