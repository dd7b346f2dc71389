//! Primitive simulation types: Q32.32 fixed-point numbers, 2D vectors and ids.
//!
//! The simulation never uses floating point. `Fixed` is a signed Q32.32
//! number held as its raw 64-bit pattern; its arithmetic is the one of a
//! 64-bit two's-complement Q32.32 type in a release build: products are
//! rounded down, quotients toward zero, and every result wraps modulo 2^64.
use vstd::prelude::*;

verus! {

/// The 64-bit two's-complement value that `x` wraps to.
pub open spec fn wrap64(x: int) -> int {
    (x + 0x8000_0000_0000_0000) % 0x1_0000_0000_0000_0000 - 0x8000_0000_0000_0000
}

/// Integer division rounding toward zero.
pub open spec fn trunc_div(x: int, y: int) -> int {
    if x >= 0 {
        if y > 0 { x / y } else { -(x / (-y)) }
    } else {
        if y > 0 { -((-x) / y) } else { (-x) / (-y) }
    }
}

/// Fixed-point number with 32 integer and 32 fractional bits.
#[derive(Clone, Copy, Debug, PartialEq, Eq, Structural, Hash, PartialOrd, Ord)]
pub struct Fixed {
    /// Raw bit pattern: the value is `bits / 2^32`.
    pub bits: i64,
}

pub open spec fn fx(bits: int) -> Fixed {
    Fixed { bits: wrap64(bits) as i64 }
}

pub open spec fn fx_add(a: Fixed, b: Fixed) -> Fixed {
    fx(a.bits + b.bits)
}

pub open spec fn fx_sub(a: Fixed, b: Fixed) -> Fixed {
    fx(a.bits - b.bits)
}

/// Product, rounded down to the nearest representable value.
pub open spec fn fx_mul(a: Fixed, b: Fixed) -> Fixed {
    fx((a.bits * b.bits) / 0x1_0000_0000)
}

/// Quotient, rounded toward zero.
pub open spec fn fx_div(a: Fixed, b: Fixed) -> Fixed {
    fx(trunc_div(a.bits * 0x1_0000_0000, b.bits as int))
}

/// Integer part of a fixed-point value (rounded down).
pub open spec fn fx_floor(a: Fixed) -> int {
    a.bits / 0x1_0000_0000
}

/// Wraps a 128-bit integer to 64 bits, as a truncating cast does.
fn wrap_i128(v: i128) -> (r: i64)
    ensures
        r == wrap64(v as int),
{
    let m: i128 = v % 0x1_0000_0000_0000_0000i128;
    let m2: i128 = if m < 0 { m + 0x1_0000_0000_0000_0000i128 } else { m };
    let r: i128 = if m2 >= 0x8000_0000_0000_0000i128 {
        m2 - 0x1_0000_0000_0000_0000i128
    } else {
        m2
    };
    r as i64
}

/// Floor division by 2^32.
fn floor_div_frac(p: i128) -> (q: i128)
    ensures
        q == p / 0x1_0000_0000,
{
    let t: i128 = p / 0x1_0000_0000i128;
    let r: i128 = p % 0x1_0000_0000i128;
    if r < 0 { t - 1 } else { t }
}

impl Fixed {
    pub fn zero() -> (r: Fixed)
        ensures
            r.bits == 0,
    {
        Fixed { bits: 0 }
    }

    pub fn from_bits(bits: i64) -> (r: Fixed)
        ensures
            r.bits == bits,
    {
        Fixed { bits }
    }

    pub fn to_bits(self) -> (r: i64)
        ensures
            r == self.bits,
    {
        self.bits
    }

    /// The fixed-point value of an integer.
    pub fn from_num(n: i32) -> (r: Fixed)
        ensures
            r.bits == n * 0x1_0000_0000,
    {
        Fixed { bits: (n as i64) * 0x1_0000_0000i64 }
    }

    /// Integer part, rounded down.
    pub fn to_num(self) -> (r: i32)
        ensures
            r == fx_floor(self),
    {
        let q = floor_div_frac(self.bits as i128);
        q as i32
    }

    pub fn min(self, other: Fixed) -> (r: Fixed)
        ensures
            r == (if other.bits < self.bits { other } else { self }),
    {
        if other.bits < self.bits { other } else { self }
    }
}

impl std::ops::Add for Fixed {
    type Output = Fixed;

    fn add(self, rhs: Fixed) -> (r: Fixed)
        ensures
            r == fx_add(self, rhs),
    {
        Fixed { bits: wrap_i128(self.bits as i128 + rhs.bits as i128) }
    }
}

impl vstd::std_specs::ops::AddSpecImpl for Fixed {
    open spec fn obeys_add_spec() -> bool {
        true
    }

    open spec fn add_req(self, rhs: Fixed) -> bool {
        true
    }

    open spec fn add_spec(self, rhs: Fixed) -> Fixed {
        fx_add(self, rhs)
    }
}

impl std::ops::Sub for Fixed {
    type Output = Fixed;

    fn sub(self, rhs: Fixed) -> (r: Fixed)
        ensures
            r == fx_sub(self, rhs),
    {
        Fixed { bits: wrap_i128(self.bits as i128 - rhs.bits as i128) }
    }
}

impl vstd::std_specs::ops::SubSpecImpl for Fixed {
    open spec fn obeys_sub_spec() -> bool {
        true
    }

    open spec fn sub_req(self, rhs: Fixed) -> bool {
        true
    }

    open spec fn sub_spec(self, rhs: Fixed) -> Fixed {
        fx_sub(self, rhs)
    }
}

impl std::ops::Mul for Fixed {
    type Output = Fixed;

    fn mul(self, rhs: Fixed) -> (r: Fixed)
        ensures
            r == fx_mul(self, rhs),
    {
        proof {
            assert(-0x8000_0000_0000_0000 <= self.bits <= 0x7fff_ffff_ffff_ffff);
            assert(-0x8000_0000_0000_0000 <= rhs.bits <= 0x7fff_ffff_ffff_ffff);
            assert(self.bits * rhs.bits <= 0x4000_0000_0000_0000_0000_0000_0000_0000)
                by (nonlinear_arith)
                requires
                    -0x8000_0000_0000_0000 <= self.bits <= 0x7fff_ffff_ffff_ffff,
                    -0x8000_0000_0000_0000 <= rhs.bits <= 0x7fff_ffff_ffff_ffff,
            ;
            assert(self.bits * rhs.bits >= -0x4000_0000_0000_0000_0000_0000_0000_0000)
                by (nonlinear_arith)
                requires
                    -0x8000_0000_0000_0000 <= self.bits <= 0x7fff_ffff_ffff_ffff,
                    -0x8000_0000_0000_0000 <= rhs.bits <= 0x7fff_ffff_ffff_ffff,
            ;
        }
        let p: i128 = (self.bits as i128) * (rhs.bits as i128);
        Fixed { bits: wrap_i128(floor_div_frac(p)) }
    }
}

impl vstd::std_specs::ops::MulSpecImpl for Fixed {
    open spec fn obeys_mul_spec() -> bool {
        true
    }

    open spec fn mul_req(self, rhs: Fixed) -> bool {
        true
    }

    open spec fn mul_spec(self, rhs: Fixed) -> Fixed {
        fx_mul(self, rhs)
    }
}

impl std::ops::Div for Fixed {
    type Output = Fixed;

    /// Panics on a zero divisor, as the integer division it rests on does.
    fn div(self, rhs: Fixed) -> (r: Fixed)
        ensures
            r == fx_div(self, rhs),
    {
        let num: i128 = (self.bits as i128) * 0x1_0000_0000i128;
        let den: i128 = rhs.bits as i128;
        let an: i128 = if num >= 0 { num } else { -num };
        let ad: i128 = if den >= 0 { den } else { -den };
        let m: i128 = an / ad;
        let q: i128 = if (num >= 0) == (den > 0) { m } else { -m };
        Fixed { bits: wrap_i128(q) }
    }
}

impl vstd::std_specs::ops::DivSpecImpl for Fixed {
    open spec fn obeys_div_spec() -> bool {
        true
    }

    open spec fn div_req(self, rhs: Fixed) -> bool {
        rhs.bits != 0
    }

    open spec fn div_spec(self, rhs: Fixed) -> Fixed {
        fx_div(self, rhs)
    }
}

/// Unique id of an entity in the ECS.
#[derive(Debug, Clone, Copy, PartialEq, Eq, Structural, Hash, PartialOrd, Ord)]
pub struct EntityId(pub u64);

/// Player id (0..9 in a 5v5 match).
#[derive(Debug, Clone, Copy, PartialEq, Eq, Structural, Hash)]
pub struct PlayerId(pub u8);

impl PlayerId {
    /// Players 0..4 form team 0, players 5..9 team 1.
    pub fn team(&self) -> (t: u8)
        ensures
            t == self.0 / 5,
    {
        self.0 / 5
    }
}

/// Simulation tick number.
#[derive(Debug, Clone, Copy, PartialEq, Eq, Structural, PartialOrd, Ord)]
pub struct TickId(pub u64);

/// 2D vector in fixed-point: position, velocity, direction.
#[derive(Debug, Clone, Copy, PartialEq, Eq, Structural)]
pub struct Vec2Fixed {
    pub x: Fixed,
    pub y: Fixed,
}

pub open spec fn v_zero() -> Vec2Fixed {
    Vec2Fixed { x: Fixed { bits: 0 }, y: Fixed { bits: 0 } }
}

pub open spec fn v_add(a: Vec2Fixed, b: Vec2Fixed) -> Vec2Fixed {
    Vec2Fixed { x: fx_add(a.x, b.x), y: fx_add(a.y, b.y) }
}

pub open spec fn v_sub(a: Vec2Fixed, b: Vec2Fixed) -> Vec2Fixed {
    Vec2Fixed { x: fx_sub(a.x, b.x), y: fx_sub(a.y, b.y) }
}

pub open spec fn v_scale(a: Vec2Fixed, k: Fixed) -> Vec2Fixed {
    Vec2Fixed { x: fx_mul(a.x, k), y: fx_mul(a.y, k) }
}

/// Squared length `x*x + y*y` in fixed-point.
pub open spec fn v_length_sq(a: Vec2Fixed) -> Fixed {
    fx_add(fx_mul(a.x, a.x), fx_mul(a.y, a.y))
}

/// Squared distance between two points.
pub open spec fn v_dist_sq(a: Vec2Fixed, b: Vec2Fixed) -> Fixed {
    v_length_sq(v_sub(a, b))
}

/// `s` is the integer square root of `n`.
pub open spec fn is_isqrt(n: int, s: int) -> bool {
    0 <= s && s * s <= n && n < (s + 1) * (s + 1)
}

pub open spec fn isqrt(n: int) -> int {
    choose|s: int| is_isqrt(n, s)
}

/// Square root of a positive fixed-point value: the raw bits of the result
/// are the integer square root of `bits * 2^32`.
pub open spec fn fx_sqrt(a: Fixed) -> Fixed {
    Fixed { bits: isqrt(a.bits * 0x1_0000_0000) as i64 }
}

/// Euclidean length (zero when the squared length is not positive).
pub open spec fn v_length(a: Vec2Fixed) -> Fixed {
    let sq = v_length_sq(a);
    if sq.bits <= 0 { Fixed { bits: 0 } } else { fx_sqrt(sq) }
}

/// Unit vector in the direction of `a`; zero for a vector whose squared
/// length is not positive.
pub open spec fn v_normalize(a: Vec2Fixed) -> Vec2Fixed {
    let sq = v_length_sq(a);
    if sq.bits <= 0 {
        v_zero()
    } else {
        let s = fx_sqrt(sq);
        if s.bits == 0 {
            v_zero()
        } else {
            Vec2Fixed { x: fx_div(a.x, s), y: fx_div(a.y, s) }
        }
    }
}

/// Linear interpolation `a + (b - a) * alpha` per coordinate.
pub open spec fn v_lerp(a: Vec2Fixed, b: Vec2Fixed, alpha: Fixed) -> Vec2Fixed {
    Vec2Fixed {
        x: fx_add(a.x, fx_mul(fx_sub(b.x, a.x), alpha)),
        y: fx_add(a.y, fx_mul(fx_sub(b.y, a.y), alpha)),
    }
}

proof fn lemma_isqrt_unique(n: int, s1: int, s2: int)
    requires
        is_isqrt(n, s1),
        is_isqrt(n, s2),
    ensures
        s1 == s2,
{
    if s1 < s2 {
        assert((s1 + 1) * (s1 + 1) <= s2 * s2) by (nonlinear_arith)
            requires
                0 <= s1 + 1 <= s2,
        ;
    } else if s2 < s1 {
        assert((s2 + 1) * (s2 + 1) <= s1 * s1) by (nonlinear_arith)
            requires
                0 <= s2 + 1 <= s1,
        ;
    }
}

/// A result that meets the definition is the one `isqrt` chooses.
proof fn lemma_isqrt_is(n: int, s: int)
    requires
        is_isqrt(n, s),
    ensures
        isqrt(n) == s,
{
    let t = isqrt(n);
    assert(is_isqrt(n, t));
    lemma_isqrt_unique(n, s, t);
}

/// One Newton step `(x + n/x) / 2` never falls below the integer square root.
proof fn lemma_newton_step_above(n: int, x: int)
    requires
        x > 0,
        n >= 0,
    ensures
        ((x + n / x) / 2 + 1) * ((x + n / x) / 2 + 1) > n,
{
    let q = n / x;
    let r = n % x;
    vstd::arithmetic::div_mod::lemma_fundamental_div_mod(n, x);
    assert(0 <= r < x);
    let a = q + 1;
    let y = (x + q) / 2;
    assert(q >= 0) by (nonlinear_arith)
        requires
            n >= 0,
            x > 0,
            q == n / x,
    ;
    assert(n < x * a) by (nonlinear_arith)
        requires
            n == x * q + r,
            r < x,
            a == q + 1,
    ;
    assert((x + a) * (x + a) >= 4 * (x * a)) by (nonlinear_arith);
    assert(2 * (y + 1) >= x + a);
    assert((2 * (y + 1)) * (2 * (y + 1)) >= (x + a) * (x + a)) by (nonlinear_arith)
        requires
            2 * (y + 1) >= x + a,
            x + a >= 0,
    ;
    assert((y + 1) * (y + 1) > n) by (nonlinear_arith)
        requires
            (2 * (y + 1)) * (2 * (y + 1)) >= (x + a) * (x + a),
            (x + a) * (x + a) >= 4 * (x * a),
            n < x * a,
    ;
}

/// When `x*x > n`, a Newton step strictly decreases `x`.
proof fn lemma_newton_step_below(n: int, x: int)
    requires
        x > 0,
        n >= 0,
        x * x > n,
    ensures
        (x + n / x) / 2 < x,
{
    let q = n / x;
    vstd::arithmetic::div_mod::lemma_fundamental_div_mod(n, x);
    assert(q < x) by (nonlinear_arith)
        requires
            n == x * q + n % x,
            0 <= n % x,
            x * x > n,
            x > 0,
    ;
}

/// Integer square root by Newton-Raphson iteration.
fn isqrt_u128(n: u128) -> (r: u128)
    requires
        n < 0x4000_0000_0000_0000_0000_0000_0000_0000,
    ensures
        is_isqrt(n as int, r as int),
{
    if n == 0 {
        assert(is_isqrt(0, 0)) by (nonlinear_arith);
        return 0;
    }
    let mut x: u128 = n;
    let mut y: u128 = (x + 1) / 2;
    assert((x + 1) * (x + 1) > n) by (nonlinear_arith)
        requires
            x == n,
            n >= 1,
    ;
    while y < x
        invariant
            0 < x <= n,
            n < 0x4000_0000_0000_0000_0000_0000_0000_0000,
            y == (x + n / x) / 2,
            (x + 1) * (x + 1) > n,
        decreases x,
    {
        proof {
            lemma_newton_step_above(n as int, x as int);
        }
        x = y;
        assert(x > 0) by (nonlinear_arith)
            requires
                (x + 1) * (x + 1) > n,
                n >= 1,
        ;
        assert(n / x <= n) by (nonlinear_arith)
            requires
                x > 0,
        ;
        y = (x + n / x) / 2;
    }
    proof {
        if x * x > n {
            lemma_newton_step_below(n as int, x as int);
        }
    }
    x
}

/// A value already in the range of `i64` is left as it is by wrapping.
pub proof fn lemma_wrap64_small(x: int)
    requires
        -0x8000_0000_0000_0000 <= x < 0x8000_0000_0000_0000,
    ensures
        wrap64(x) == x,
{
}

/// Adding the zero vector changes nothing.
pub proof fn lemma_add_zero(p: Vec2Fixed)
    ensures
        v_add(p, v_zero()) == p,
{
    lemma_wrap64_small(p.x.bits as int);
    lemma_wrap64_small(p.y.bits as int);
}

/// Every natural number has an integer square root.
proof fn lemma_isqrt_exists(n: int)
    requires
        n >= 0,
    ensures
        is_isqrt(n, isqrt(n)),
    decreases n,
{
    if n == 0 {
        assert(is_isqrt(0, 0));
    } else {
        lemma_isqrt_exists(n - 1);
        let t = isqrt(n - 1);
        if (t + 1) * (t + 1) <= n {
            assert(n < (t + 2) * (t + 2)) by (nonlinear_arith)
                requires
                    n - 1 < (t + 1) * (t + 1),
                    t >= 0,
            ;
            assert(is_isqrt(n, t + 1));
        } else {
            assert(is_isqrt(n, t));
        }
    }
}

/// A coordinate divided by the length stays below 2^63 in magnitude: the
/// length is at least `2^16` and not much shorter than the coordinate.
proof fn lemma_unit_quotient_fits(m: int, s: int, n: int)
    requires
        m >= 0,
        s >= 0x1_0000,
        n < (s + 1) * (s + 1),
        n >= ((m * m) / 0x1_0000_0000) * 0x1_0000_0000,
    ensures
        (m * 0x1_0000_0000) / s < 0x8000_0000_0000_0000,
{
    let p = (m * m) / 0x1_0000_0000;
    assert(p * 0x1_0000_0000 > m * m - 0x1_0000_0000) by (nonlinear_arith)
        requires
            p == (m * m) / 0x1_0000_0000,
            m * m >= 0,
    ;
    assert(m < 0x8000_0000 * s) by (nonlinear_arith)
        requires
            s >= 0x1_0000,
            m >= 0,
            (s + 1) * (s + 1) > m * m - 0x1_0000_0000,
    {
        if m >= 0x8000_0000 * s {
            assert(m * m >= 0x4000_0000_0000_0000 * (s * s));
            assert((s + 1) * (s + 1) <= 4 * (s * s));
            assert(s * s >= 0x1_0000_0000);
        }
    }
    assert((m * 0x1_0000_0000) / s < 0x8000_0000_0000_0000) by (nonlinear_arith)
        requires
            m < 0x8000_0000 * s,
            s > 0,
            m >= 0,
    ;
}

/// Normalising keeps the sign of each coordinate: a positive coordinate
/// gives a non-negative one, a negative one a non-positive one, and zero
/// stays zero, as long as the squared length does not overflow.
pub proof fn law_normalize_keeps_signs(a: Vec2Fixed)
    requires
        (a.x.bits * a.x.bits) / 0x1_0000_0000 + (a.y.bits * a.y.bits) / 0x1_0000_0000
            <= 0x7fff_ffff_ffff_ffff,
    ensures
        a.x.bits >= 0 ==> v_normalize(a).x.bits >= 0,
        a.x.bits <= 0 ==> v_normalize(a).x.bits <= 0,
        a.y.bits >= 0 ==> v_normalize(a).y.bits >= 0,
        a.y.bits <= 0 ==> v_normalize(a).y.bits <= 0,
{
    let x = a.x.bits as int;
    let y = a.y.bits as int;
    let p = (x * x) / 0x1_0000_0000;
    let q = (y * y) / 0x1_0000_0000;
    assert(p >= 0 && q >= 0) by (nonlinear_arith)
        requires
            p == (x * x) / 0x1_0000_0000,
            q == (y * y) / 0x1_0000_0000,
    ;
    lemma_wrap64_small(p);
    lemma_wrap64_small(q);
    lemma_wrap64_small(p + q);
    let sq = v_length_sq(a);
    assert(sq.bits == p + q);
    if sq.bits > 0 {
        let n = sq.bits * 0x1_0000_0000;
        lemma_isqrt_exists(n);
        let s = isqrt(n);
        assert(s >= 0x1_0000) by (nonlinear_arith)
            requires
                n < (s + 1) * (s + 1),
                n >= 0x1_0000_0000,
                s >= 0,
        {
            if s < 0x1_0000 {
                assert((s + 1) * (s + 1) <= 0x1_0000 * 0x1_0000);
            }
        }
        assert(s < 0x1_0000_0000_0000) by (nonlinear_arith)
            requires
                s * s <= n,
                n < 0x8000_0000_0000_0000_0000_0000,
                s >= 0,
        ;
        let sr = fx_sqrt(sq);
        assert(sr.bits == s);
        assert(n >= p * 0x1_0000_0000 && n >= q * 0x1_0000_0000);
        let mx = if x >= 0 { x } else { -x };
        let my = if y >= 0 { y } else { -y };
        assert(mx * mx == x * x) by (nonlinear_arith)
            requires
                mx == x || mx == -x,
        ;
        assert(my * my == y * y) by (nonlinear_arith)
            requires
                my == y || my == -y,
        ;
        lemma_unit_quotient_fits(mx, s, n);
        lemma_unit_quotient_fits(my, s, n);
        assert(x * 0x1_0000_0000 >= 0 <==> x >= 0);
        assert(y * 0x1_0000_0000 >= 0 <==> y >= 0);
        assert((-x) * 0x1_0000_0000 == -(x * 0x1_0000_0000));
        assert((-y) * 0x1_0000_0000 == -(y * 0x1_0000_0000));
        let tx = trunc_div(x * 0x1_0000_0000, s);
        let ty = trunc_div(y * 0x1_0000_0000, s);
        assert(x >= 0 ==> 0 <= tx < 0x8000_0000_0000_0000) by (nonlinear_arith)
            requires
                x >= 0 ==> (x * 0x1_0000_0000) / s < 0x8000_0000_0000_0000,
                x >= 0 ==> tx == (x * 0x1_0000_0000) / s,
                s > 0,
        ;
        assert(x < 0 ==> -0x8000_0000_0000_0000 < tx <= 0) by (nonlinear_arith)
            requires
                x < 0 ==> ((-x) * 0x1_0000_0000) / s < 0x8000_0000_0000_0000,
                x < 0 ==> tx == -(((-x) * 0x1_0000_0000) / s),
                x < 0 ==> (-x) * 0x1_0000_0000 > 0,
                s > 0,
        ;
        assert(y >= 0 ==> 0 <= ty < 0x8000_0000_0000_0000) by (nonlinear_arith)
            requires
                y >= 0 ==> (y * 0x1_0000_0000) / s < 0x8000_0000_0000_0000,
                y >= 0 ==> ty == (y * 0x1_0000_0000) / s,
                s > 0,
        ;
        assert(y < 0 ==> -0x8000_0000_0000_0000 < ty <= 0) by (nonlinear_arith)
            requires
                y < 0 ==> ((-y) * 0x1_0000_0000) / s < 0x8000_0000_0000_0000,
                y < 0 ==> ty == -(((-y) * 0x1_0000_0000) / s),
                y < 0 ==> (-y) * 0x1_0000_0000 > 0,
                s > 0,
        ;
        lemma_wrap64_small(tx);
        lemma_wrap64_small(ty);
    }
}

/// The integer core of normalising: with `n` the squared length rounded
/// down to whole units of `2^32` and `s` its integer square root, the
/// coordinates divided by `s` have a squared length within `8 * 2^32` of
/// `2^64`.
proof fn lemma_unit_core(mx: int, my: int, n: int, s: int, rx: int, ry: int)
    requires
        mx >= 0,
        my >= 0,
        n <= mx * mx + my * my,
        n + 2 * 0x1_0000_0000 > mx * mx + my * my,
        n >= 0x1_0000_0000 * 0x1_0000_0000,
        s >= 0,
        s * s <= n,
        n < (s + 1) * (s + 1),
        rx >= 0,
        ry >= 0,
        rx * s <= mx * 0x1_0000_0000,
        mx * 0x1_0000_0000 < (rx + 1) * s,
        ry * s <= my * 0x1_0000_0000,
        my * 0x1_0000_0000 < (ry + 1) * s,
    ensures
        rx <= 2 * 0x1_0000_0000,
        ry <= 2 * 0x1_0000_0000,
        0x1_0000_0000 * 0x1_0000_0000 - 8 * 0x1_0000_0000 - 2 < rx * rx + ry * ry,
        rx * rx + ry * ry <= 0x1_0000_0000 * 0x1_0000_0000 + 6 * 0x1_0000_0000,
{
    let k: int = 0x1_0000_0000;
    let l2 = mx * mx + my * my;
    assert(s >= k) by (nonlinear_arith)
        requires
            n < (s + 1) * (s + 1),
            n >= k * k,
            s >= 0,
            k == 0x1_0000_0000,
    {
        if s < k {
            assert((s + 1) * (s + 1) <= k * k);
        }
    }
    assert(s * k <= l2) by (nonlinear_arith)
        requires
            s >= k,
            s * s <= n,
            n <= l2,
            k > 0,
    ;
    // s^2 is close to l2 from below.
    assert((s + 1) * (s + 1) == s * s + 2 * s + 1) by (nonlinear_arith);
    assert(k * (s * s) > (k - 5) * l2) by (nonlinear_arith)
        requires
            s * s + 2 * s + 1 > n,
            n + 2 * k > l2,
            s * k <= l2,
            l2 >= k * k,
            k == 0x1_0000_0000,
    ;
    // Upper bound.
    assert(rx * rx * (s * s) <= mx * mx * (k * k)) by (nonlinear_arith)
        requires
            0 <= rx * s <= mx * k,
    ;
    assert(ry * ry * (s * s) <= my * my * (k * k)) by (nonlinear_arith)
        requires
            0 <= ry * s <= my * k,
    ;
    let t = rx * rx + ry * ry;
    assert(t * (s * s) <= l2 * (k * k)) by (nonlinear_arith)
        requires
            rx * rx * (s * s) <= mx * mx * (k * k),
            ry * ry * (s * s) <= my * my * (k * k),
            t == rx * rx + ry * ry,
            l2 == mx * mx + my * my,
    ;
    assert(t <= k * k + 6 * k) by (nonlinear_arith)
        requires
            t * (s * s) <= l2 * (k * k),
            k * (s * s) > (k - 5) * l2,
            l2 > 0,
            t >= 0,
            k == 0x1_0000_0000,
    {
        if t > k * k + 6 * k {
            assert((k - 5) * l2 * t < k * (s * s) * t);
            assert(k * (s * s) * t <= k * (l2 * (k * k)));
            assert((k - 5) * t < k * (k * k));
        }
    }
    // Each coordinate is at most twice the length.
    assert(mx * mx <= 4 * (s * s) && my * my <= 4 * (s * s)) by (nonlinear_arith)
        requires
            k * (s * s) > (k - 5) * l2,
            l2 == mx * mx + my * my,
            my * my >= 0,
            mx * mx >= 0,
            k == 0x1_0000_0000,
    ;
    assert(rx <= 2 * k) by (nonlinear_arith)
        requires
            rx * s <= mx * k,
            mx * mx <= 4 * (s * s),
            s > 0,
            mx >= 0,
            k > 0,
    {
        if rx > 2 * k {
            assert(mx <= 2 * s);
            assert(rx * s > 2 * k * s);
        }
    }
    assert(ry <= 2 * k) by (nonlinear_arith)
        requires
            ry * s <= my * k,
            my * my <= 4 * (s * s),
            s > 0,
            my >= 0,
            k > 0,
    {
        if ry > 2 * k {
            assert(my <= 2 * s);
            assert(ry * s > 2 * k * s);
        }
    }
    // Lower bound.
    assert((rx + 1) * (rx + 1) * (s * s) > mx * mx * (k * k)) by (nonlinear_arith)
        requires
            0 <= mx * k < (rx + 1) * s,
    ;
    assert((ry + 1) * (ry + 1) * (s * s) >= my * my * (k * k)) by (nonlinear_arith)
        requires
            0 <= my * k < (ry + 1) * s,
    ;
    let u = (rx + 1) * (rx + 1) + (ry + 1) * (ry + 1);
    assert(u > k * k) by (nonlinear_arith)
        requires
            (rx + 1) * (rx + 1) * (s * s) > mx * mx * (k * k),
            (ry + 1) * (ry + 1) * (s * s) >= my * my * (k * k),
            u == (rx + 1) * (rx + 1) + (ry + 1) * (ry + 1),
            s * s <= l2,
            l2 == mx * mx + my * my,
            s > 0,
    {
        if u <= k * k {
            assert(u * (s * s) <= (k * k) * (s * s));
            assert((k * k) * (s * s) <= (k * k) * l2);
        }
    }
    assert(u == t + 2 * rx + 2 * ry + 2) by (nonlinear_arith)
        requires
            u == (rx + 1) * (rx + 1) + (ry + 1) * (ry + 1),
            t == rx * rx + ry * ry,
    ;
}

/// A normalised vector has length one up to rounding: its squared length is
/// within `16 * 2^-32` of one, for a vector of squared length at least one
/// whose squared length does not overflow.
pub proof fn law_normalize_unit_length(a: Vec2Fixed)
    requires
        v_length_sq(a).bits >= 0x1_0000_0000,
        (a.x.bits * a.x.bits) / 0x1_0000_0000 + (a.y.bits * a.y.bits) / 0x1_0000_0000
            <= 0x7fff_ffff_ffff_ffff,
    ensures
        0x1_0000_0000 - 16 <= v_length_sq(v_normalize(a)).bits <= 0x1_0000_0000 + 16,
{
    let k: int = 0x1_0000_0000;
    let x = a.x.bits as int;
    let y = a.y.bits as int;
    let p = (x * x) / k;
    let q = (y * y) / k;
    assert(p >= 0 && q >= 0 && p * k <= x * x && x * x < p * k + k && q * k <= y * y && y * y < q
        * k + k) by (nonlinear_arith)
        requires
            p == (x * x) / k,
            q == (y * y) / k,
            k == 0x1_0000_0000,
    ;
    lemma_wrap64_small(p);
    lemma_wrap64_small(q);
    lemma_wrap64_small(p + q);
    let sq = v_length_sq(a);
    assert(sq.bits == p + q);
    let n = sq.bits * k;
    lemma_isqrt_exists(n);
    let s = isqrt(n);
    assert(n >= k * k);
    assert(s >= 0x1_0000) by (nonlinear_arith)
        requires
            n < (s + 1) * (s + 1),
            n >= 0x1_0000_0000,
            s >= 0,
    {
        if s < 0x1_0000 {
            assert((s + 1) * (s + 1) <= 0x1_0000 * 0x1_0000);
        }
    }
    assert(s < 0x1_0000_0000_0000) by (nonlinear_arith)
        requires
            s * s <= n,
            n < 0x8000_0000_0000_0000_0000_0000,
            s >= 0,
    ;
    assert(fx_sqrt(sq).bits == s);
    let mx = if x >= 0 { x } else { -x };
    let my = if y >= 0 { y } else { -y };
    assert(mx * mx == x * x) by (nonlinear_arith)
        requires
            mx == x || mx == -x,
    ;
    assert(my * my == y * y) by (nonlinear_arith)
        requires
            my == y || my == -y,
    ;
    lemma_unit_quotient_fits(mx, s, n);
    lemma_unit_quotient_fits(my, s, n);
    let rx = (mx * k) / s;
    let ry = (my * k) / s;
    assert(rx >= 0 && rx * s <= mx * k && mx * k < (rx + 1) * s) by (nonlinear_arith)
        requires
            rx == (mx * k) / s,
            mx >= 0,
            s > 0,
            k > 0,
    ;
    assert(ry >= 0 && ry * s <= my * k && my * k < (ry + 1) * s) by (nonlinear_arith)
        requires
            ry == (my * k) / s,
            my >= 0,
            s > 0,
            k > 0,
    ;
    lemma_unit_core(mx, my, n, s, rx, ry);
    // The coordinates of the result are +-rx and +-ry.
    let tx = trunc_div(x * k, s);
    let ty = trunc_div(y * k, s);
    assert((-x) * k == -(x * k));
    assert((-y) * k == -(y * k));
    assert(tx == rx || tx == -rx);
    assert(ty == ry || ty == -ry);
    lemma_wrap64_small(tx);
    lemma_wrap64_small(ty);
    let r = v_normalize(a);
    assert(r.x.bits == tx && r.y.bits == ty);
    assert(tx * tx == rx * rx) by (nonlinear_arith)
        requires
            tx == rx || tx == -rx,
    ;
    assert(ty * ty == ry * ry) by (nonlinear_arith)
        requires
            ty == ry || ty == -ry,
    ;
    let c = (rx * rx) / k;
    let d = (ry * ry) / k;
    assert(c * k <= rx * rx < c * k + k && d * k <= ry * ry < d * k + k && c >= 0 && d >= 0)
        by (nonlinear_arith)
        requires
            c == (rx * rx) / k,
            d == (ry * ry) / k,
            k == 0x1_0000_0000,
    ;
    assert(c <= 4 * k && d <= 4 * k) by (nonlinear_arith)
        requires
            c * k <= rx * rx,
            d * k <= ry * ry,
            0 <= rx <= 2 * k,
            0 <= ry <= 2 * k,
            k == 0x1_0000_0000,
    ;
    lemma_wrap64_small(c);
    lemma_wrap64_small(d);
    lemma_wrap64_small(c + d);
    assert(v_length_sq(r).bits == c + d);
    assert(k - 16 <= c + d <= k + 16) by (nonlinear_arith)
        requires
            c * k <= rx * rx < c * k + k,
            d * k <= ry * ry < d * k + k,
            k * k - 8 * k - 2 < rx * rx + ry * ry,
            rx * rx + ry * ry <= k * k + 6 * k,
            k == 0x1_0000_0000,
    {
        if c + d > k + 16 {
            assert((c + d) * k > (k + 16) * k);
        }
        if c + d < k - 16 {
            assert((c + d + 2) * k < (k - 14) * k);
        }
    }
}

/// Magnitude of the raw bits of a fixed-point value.
pub open spec fn abs_bits(f: Fixed) -> int {
    if f.bits >= 0 {
        f.bits as int
    } else {
        -(f.bits as int)
    }
}

/// A normalised vector points the way the vector does: the cross product of
/// their raw coordinates is at most the sum of the raw magnitudes of the
/// vector's coordinates (so, read as fixed-point values, at most `2^-32`
/// times `|a.x| + |a.y|`), as long as the squared length does not overflow.
pub proof fn law_normalize_keeps_direction(a: Vec2Fixed)
    requires
        (a.x.bits * a.x.bits) / 0x1_0000_0000 + (a.y.bits * a.y.bits) / 0x1_0000_0000
            <= 0x7fff_ffff_ffff_ffff,
    ensures
        -(abs_bits(a.x) + abs_bits(a.y)) <= v_normalize(a).x.bits * a.y.bits - v_normalize(a).y.bits
            * a.x.bits <= abs_bits(a.x) + abs_bits(a.y),
{
    let k: int = 0x1_0000_0000;
    let x = a.x.bits as int;
    let y = a.y.bits as int;
    let p = (x * x) / k;
    let q = (y * y) / k;
    assert(p >= 0 && q >= 0 && p * k <= x * x && q * k <= y * y) by (nonlinear_arith)
        requires
            p == (x * x) / k,
            q == (y * y) / k,
            k == 0x1_0000_0000,
    ;
    lemma_wrap64_small(p);
    lemma_wrap64_small(q);
    lemma_wrap64_small(p + q);
    let sq = v_length_sq(a);
    assert(sq.bits == p + q);
    let r = v_normalize(a);
    let mx = abs_bits(a.x);
    let my = abs_bits(a.y);
    if sq.bits <= 0 {
        assert(r.x.bits == 0 && r.y.bits == 0);
        assert(r.x.bits * a.y.bits == 0 && r.y.bits * a.x.bits == 0) by (nonlinear_arith)
            requires
                r.x.bits == 0 && r.y.bits == 0,
        ;
    } else {
        let n = sq.bits * k;
        lemma_isqrt_exists(n);
        let s = isqrt(n);
        assert(s >= 0x1_0000) by (nonlinear_arith)
            requires
                n < (s + 1) * (s + 1),
                n >= 0x1_0000_0000,
                s >= 0,
        {
            if s < 0x1_0000 {
                assert((s + 1) * (s + 1) <= 0x1_0000 * 0x1_0000);
            }
        }
        assert(s < 0x1_0000_0000_0000) by (nonlinear_arith)
            requires
                s * s <= n,
                n < 0x8000_0000_0000_0000_0000_0000,
                s >= 0,
        ;
        assert(fx_sqrt(sq).bits == s);
        assert(mx * mx == x * x) by (nonlinear_arith)
            requires
                mx == x || mx == -x,
        ;
        assert(my * my == y * y) by (nonlinear_arith)
            requires
                my == y || my == -y,
        ;
        assert(n >= p * k && n >= q * k);
        lemma_unit_quotient_fits(mx, s, n);
        lemma_unit_quotient_fits(my, s, n);
        let rx = (mx * k) / s;
        let ry = (my * k) / s;
        assert(rx >= 0 && rx * s <= mx * k && mx * k < (rx + 1) * s) by (nonlinear_arith)
            requires
                rx == (mx * k) / s,
                mx >= 0,
                s > 0,
                k > 0,
        ;
        assert(ry >= 0 && ry * s <= my * k && my * k < (ry + 1) * s) by (nonlinear_arith)
            requires
                ry == (my * k) / s,
                my >= 0,
                s > 0,
                k > 0,
        ;
        let tx = trunc_div(x * k, s);
        let ty = trunc_div(y * k, s);
        assert((-x) * k == -(x * k));
        assert((-y) * k == -(y * k));
        assert(x >= 0 ==> tx == rx);
        assert(x < 0 ==> tx == -rx);
        assert(y >= 0 ==> ty == ry);
        assert(y < 0 ==> ty == -ry);
        lemma_wrap64_small(tx);
        lemma_wrap64_small(ty);
        assert(r.x.bits == tx && r.y.bits == ty);
        // With ex, ey the remainders, s * (rx * my - ry * mx) == ey * mx - ex * my.
        let ex = mx * k - rx * s;
        let ey = my * k - ry * s;
        assert((rx + 1) * s == rx * s + s && (ry + 1) * s == ry * s + s) by (nonlinear_arith);
        let m = rx * my - ry * mx;
        assert(s * m == ey * mx - ex * my) by (nonlinear_arith)
            requires
                ex == mx * k - rx * s,
                ey == my * k - ry * s,
                m == rx * my - ry * mx,
        ;
        assert(-(mx + my) <= m <= mx + my) by (nonlinear_arith)
            requires
                s * m == ey * mx - ex * my,
                0 <= ex < s,
                0 <= ey < s,
                mx >= 0,
                my >= 0,
                s > 0,
        {
            if m > mx + my {
                assert(s * m > s * (mx + my));
                assert(ey * mx <= s * mx);
                assert(ex * my >= 0);
            }
            if m < -(mx + my) {
                assert(s * m < -s * (mx + my));
                assert(ex * my <= s * my);
                assert(ey * mx >= 0);
            }
        }
        assert(tx * y - ty * x == m || tx * y - ty * x == -m) by (nonlinear_arith)
            requires
                (x >= 0 && tx == rx && mx == x) || (x < 0 && tx == -rx && mx == -x),
                (y >= 0 && ty == ry && my == y) || (y < 0 && ty == -ry && my == -y),
                m == rx * my - ry * mx,
        ;
    }
}

impl Vec2Fixed {
    pub fn zero() -> (r: Vec2Fixed)
        ensures
            r == v_zero(),
    {
        Vec2Fixed { x: Fixed::zero(), y: Fixed::zero() }
    }

    pub fn new(x: Fixed, y: Fixed) -> (r: Vec2Fixed)
        ensures
            r.x == x,
            r.y == y,
    {
        Vec2Fixed { x, y }
    }

    /// Squared length: avoids a square root when only comparing distances.
    pub fn length_sq(&self) -> (r: Fixed)
        ensures
            r == v_length_sq(*self),
    {
        self.x * self.x + self.y * self.y
    }

    /// Squared distance between two points.
    pub fn dist_sq(&self, other: Vec2Fixed) -> (r: Fixed)
        ensures
            r == v_dist_sq(*self, other),
    {
        let dx = self.x - other.x;
        let dy = self.y - other.y;
        dx * dx + dy * dy
    }

    /// Square root of a positive squared length, through a 128-bit integer
    /// square root so no floating point is involved.
    fn sqrt_of(sq: Fixed) -> (r: Fixed)
        requires
            sq.bits > 0,
        ensures
            r == fx_sqrt(sq),
            r.bits > 0,
    {
        let extended: u128 = (sq.bits as u128) * 0x1_0000_0000u128;
        let s = isqrt_u128(extended);
        proof {
            lemma_isqrt_is(extended as int, s as int);
            assert(s < 0x1_0000_0000_0000) by (nonlinear_arith)
                requires
                    s * s <= extended,
                    extended < 0x8000_0000_0000_0000_0000_0000,
            ;
            assert(s > 0) by (nonlinear_arith)
                requires
                    extended < (s + 1) * (s + 1),
                    extended >= 0x1_0000_0000,
            ;
        }
        Fixed { bits: s as i64 }
    }

    /// Euclidean length (zero when the squared length is not positive).
    pub fn length(&self) -> (r: Fixed)
        ensures
            r == v_length(*self),
    {
        let sq = self.length_sq();
        if sq.bits <= 0 {
            return Fixed::zero();
        }
        Self::sqrt_of(sq)
    }

    /// Normalizes the vector; returns zero for the zero vector.
    pub fn normalize(&self) -> (r: Vec2Fixed)
        ensures
            r == v_normalize(*self),
    {
        let sq = self.length_sq();
        if sq.bits == 0 {
            return Vec2Fixed::zero();
        }
        let sq_raw = sq.to_bits();
        if sq_raw <= 0 {
            return Vec2Fixed::zero();
        }
        let sqrt = Self::sqrt_of(sq);
        if sqrt.bits == 0 {
            return Vec2Fixed::zero();
        }
        Vec2Fixed { x: self.x / sqrt, y: self.y / sqrt }
    }

    /// Linear interpolation (alpha in 0..1 as Fixed).
    pub fn lerp(&self, other: Vec2Fixed, alpha: Fixed) -> (r: Vec2Fixed)
        ensures
            r == v_lerp(*self, other, alpha),
    {
        Vec2Fixed {
            x: self.x + (other.x - self.x) * alpha,
            y: self.y + (other.y - self.y) * alpha,
        }
    }
}

impl std::ops::Add for Vec2Fixed {
    type Output = Vec2Fixed;

    fn add(self, rhs: Vec2Fixed) -> (r: Vec2Fixed)
        ensures
            r == v_add(self, rhs),
    {
        Vec2Fixed { x: self.x + rhs.x, y: self.y + rhs.y }
    }
}

impl vstd::std_specs::ops::AddSpecImpl for Vec2Fixed {
    open spec fn obeys_add_spec() -> bool {
        true
    }

    open spec fn add_req(self, rhs: Vec2Fixed) -> bool {
        true
    }

    open spec fn add_spec(self, rhs: Vec2Fixed) -> Vec2Fixed {
        v_add(self, rhs)
    }
}

impl std::ops::Sub for Vec2Fixed {
    type Output = Vec2Fixed;

    fn sub(self, rhs: Vec2Fixed) -> (r: Vec2Fixed)
        ensures
            r == v_sub(self, rhs),
    {
        Vec2Fixed { x: self.x - rhs.x, y: self.y - rhs.y }
    }
}

impl vstd::std_specs::ops::SubSpecImpl for Vec2Fixed {
    open spec fn obeys_sub_spec() -> bool {
        true
    }

    open spec fn sub_req(self, rhs: Vec2Fixed) -> bool {
        true
    }

    open spec fn sub_spec(self, rhs: Vec2Fixed) -> Vec2Fixed {
        v_sub(self, rhs)
    }
}

impl std::ops::Mul<Fixed> for Vec2Fixed {
    type Output = Vec2Fixed;

    fn mul(self, rhs: Fixed) -> (r: Vec2Fixed)
        ensures
            r == v_scale(self, rhs),
    {
        Vec2Fixed { x: self.x * rhs, y: self.y * rhs }
    }
}

impl vstd::std_specs::ops::MulSpecImpl<Fixed> for Vec2Fixed {
    open spec fn obeys_mul_spec() -> bool {
        true
    }

    open spec fn mul_req(self, rhs: Fixed) -> bool {
        true
    }

    open spec fn mul_spec(self, rhs: Fixed) -> Vec2Fixed {
        v_scale(self, rhs)
    }
}

} // verus!
