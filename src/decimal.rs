//! Exact fixed-point decimals: a signed mantissa and a decimal scale.
use rust_decimal::Decimal;
use std::str::FromStr;
use vstd::prelude::*;

verus! {

/// Finest scale the engine keeps: every value is a whole number of 10^-18 units.
pub const UNIT_SCALE: u32 = 18;

/// Exclusive bound on the magnitude of a value counted in 10^-18 units (10^28).
pub const UNIT_BOUND: i128 = 10_000_000_000_000_000_000_000_000_000;

/// Largest magnitude of a mantissa that `rust_decimal` can hold (2^96 - 1).
pub const MAX_DECIMAL_MANTISSA: i128 = 0xFFFF_FFFF_FFFF_FFFF_FFFF_FFFF;

pub open spec fn pow10(n: nat) -> int
    decreases n,
{
    if n == 0 {
        1
    } else {
        10 * pow10((n - 1) as nat)
    }
}

pub proof fn lemma_pow10_pos(n: nat)
    ensures
        pow10(n) >= 1,
    decreases n,
{
    if n > 0 {
        lemma_pow10_pos((n - 1) as nat);
    }
}

pub proof fn lemma_pow10_add(a: nat, b: nat)
    ensures
        pow10(a + b) == pow10(a) * pow10(b),
    decreases a,
{
    if a > 0 {
        lemma_pow10_add((a - 1) as nat, b);
        assert(pow10(a + b) == 10 * pow10((a - 1 + b) as nat));
        assert(10 * (pow10((a - 1) as nat) * pow10(b)) == (10 * pow10((a - 1) as nat)) * pow10(b))
            by (nonlinear_arith);
    }
}

pub proof fn lemma_pow10_28()
    ensures
        pow10(28) == UNIT_BOUND,
        pow10(18) == 1_000_000_000_000_000_000,
{
    reveal_with_fuel(pow10, 29);
}

/// An exact decimal number `mantissa * 10^-scale`.
///
/// The engine works in fixed point: a well-formed value has at most 18
/// fractional digits and a magnitude below 10^10, so that every value is a whole
/// number of 10^-18 units that fits, with room for differences, in an `i128`.
/// Texts beyond that range are turned away as malformed rather than rounded.
#[derive(Clone, Copy, Debug, PartialEq, Eq, Structural)]
pub struct Dec {
    pub mantissa: i128,
    pub scale: u32,
}

/// What a decimal parse hands back, as a decimal of this library when it is in range.
pub open spec fn dec_from_parts(p: Option<(i128, u32)>) -> Option<Dec> {
    match p {
        Some((m, s)) => if (Dec { mantissa: m, scale: s }).wf() {
            Some(Dec { mantissa: m, scale: s })
        } else {
            None
        },
        None => None,
    }
}

impl Dec {
    /// The value counted in 10^-18 units.
    pub open spec fn units(self) -> int {
        self.mantissa * pow10((UNIT_SCALE - self.scale) as nat)
    }

    /// Exact difference, at the larger of the two scales.
    pub open spec fn spec_sub(self, other: Dec) -> Dec {
        let s = if self.scale >= other.scale {
            self.scale
        } else {
            other.scale
        };
        Dec {
            mantissa: (self.mantissa * pow10((s - self.scale) as nat) - other.mantissa * pow10(
                (s - other.scale) as nat,
            )) as i128,
            scale: s,
        }
    }

    /// The scale is at most 18 and the magnitude of the value below 10^10.
    pub open spec fn wf(self) -> bool {
        &&& self.scale <= UNIT_SCALE
        &&& -UNIT_BOUND < self.units() < UNIT_BOUND
    }
}

fn pow10_exec(n: u32) -> (r: i128)
    requires
        n <= 28,
    ensures
        r == pow10(n as nat),
        r >= 1,
{
    let mut r: i128 = 1;
    let mut i: u32 = 0;
    while i < n
        invariant
            i <= n <= 28,
            r == pow10(i as nat),
        decreases n - i,
    {
        proof {
            lemma_pow10_add((i + 1) as nat, (28 - i - 1) as nat);
            lemma_pow10_pos((28 - i - 1) as nat);
            lemma_pow10_pos((i + 1) as nat);
            lemma_pow10_28();
            assert(pow10((i + 1) as nat) <= pow10(28)) by (nonlinear_arith)
                requires
                    pow10(28) == pow10((i + 1) as nat) * pow10((28 - i - 1) as nat),
                    pow10((28 - i - 1) as nat) >= 1,
                    pow10((i + 1) as nat) >= 1,
            {}
            lemma_pow10_pos(i as nat);
        }
        r = r * 10;
        i = i + 1;
    }
    proof {
        lemma_pow10_pos(n as nat);
    }
    r
}

proof fn lemma_mantissa_le_units(d: Dec)
    requires
        d.scale <= UNIT_SCALE,
    ensures
        d.mantissa >= 0 ==> d.mantissa <= d.units(),
        d.mantissa <= 0 ==> d.units() <= d.mantissa,
        d.mantissa > 0 <==> d.units() > 0,
{
    let p = pow10((UNIT_SCALE - d.scale) as nat);
    lemma_pow10_pos((UNIT_SCALE - d.scale) as nat);
    assert(d.mantissa >= 0 ==> d.mantissa <= d.mantissa * p) by (nonlinear_arith)
        requires p >= 1;
    assert(d.mantissa <= 0 ==> d.mantissa * p <= d.mantissa) by (nonlinear_arith)
        requires p >= 1;
    assert(d.mantissa > 0 <==> d.mantissa * p > 0) by (nonlinear_arith)
        requires p >= 1;
}

proof fn lemma_scaled_bound(m: int, q: int, b: int)
    requires
        q >= 1,
        -b < m * q < b,
    ensures
        -b < m < b,
{
    assert(-b < m < b) by (nonlinear_arith)
        requires
            q >= 1,
            -b < m * q < b,
    {}
}

/// The difference of two decimals in range is exact, and in range when its
/// value is.
pub proof fn lemma_sub_exact(a: Dec, b: Dec)
    requires
        a.wf(),
        b.wf(),
        -UNIT_BOUND < a.units() - b.units() < UNIT_BOUND,
    ensures
        ({
            let s = if a.scale >= b.scale { a.scale } else { b.scale };
            &&& -UNIT_BOUND < a.mantissa * pow10((s - a.scale) as nat) < UNIT_BOUND
            &&& -UNIT_BOUND < b.mantissa * pow10((s - b.scale) as nat) < UNIT_BOUND
            &&& -UNIT_BOUND < a.mantissa * pow10((s - a.scale) as nat) - b.mantissa * pow10(
                (s - b.scale) as nat,
            ) < UNIT_BOUND
        }),
        a.spec_sub(b).wf(),
        a.spec_sub(b).units() == a.units() - b.units(),
{
    let s = if a.scale >= b.scale {
        a.scale
    } else {
        b.scale
    };
    let pa = pow10((s - a.scale) as nat);
    let pb = pow10((s - b.scale) as nat);
    let q = pow10((UNIT_SCALE - s) as nat);
    lemma_pow10_add((s - a.scale) as nat, (UNIT_SCALE - s) as nat);
    lemma_pow10_add((s - b.scale) as nat, (UNIT_SCALE - s) as nat);
    lemma_pow10_pos((UNIT_SCALE - s) as nat);
    assert(((s - a.scale) as nat + (UNIT_SCALE - s) as nat) as nat == (UNIT_SCALE - a.scale) as nat);
    assert(((s - b.scale) as nat + (UNIT_SCALE - s) as nat) as nat == (UNIT_SCALE - b.scale) as nat);
    assert(a.units() == (a.mantissa * pa) * q) by (nonlinear_arith)
        requires
            a.units() == a.mantissa * (pa * q),
    {}
    assert(b.units() == (b.mantissa * pb) * q) by (nonlinear_arith)
        requires
            b.units() == b.mantissa * (pb * q),
    {}
    lemma_scaled_bound(a.mantissa * pa, q, UNIT_BOUND as int);
    lemma_scaled_bound(b.mantissa * pb, q, UNIT_BOUND as int);
    let ma = a.mantissa * pa;
    let mb = b.mantissa * pb;
    assert((ma - mb) * q == ma * q - mb * q) by (nonlinear_arith);
    lemma_scaled_bound(ma - mb, q, UNIT_BOUND as int);
}

impl Dec {
    /// The value counted in 10^-18 units.
    pub fn units_of(&self) -> (r: i128)
        requires
            self.wf(),
        ensures
            r == self.units(),
    {
        let p = pow10_exec(UNIT_SCALE - self.scale);
        self.mantissa * p
    }

    /// Whether `self <= other` as numbers (scales aside).
    pub fn le(&self, other: &Dec) -> (r: bool)
        requires
            self.wf(),
            other.wf(),
        ensures
            r == (self.units() <= other.units()),
    {
        self.units_of() <= other.units_of()
    }

    /// Whether `self` is strictly above zero.
    pub fn is_positive(&self) -> (r: bool)
        requires
            self.wf(),
        ensures
            r == (self.units() > 0),
    {
        self.units_of() > 0
    }

    /// The smaller of two decimals; `self` when they are equal in value.
    pub fn min(self, other: Dec) -> (r: Dec)
        requires
            self.wf(),
            other.wf(),
        ensures
            r == (if self.units() <= other.units() { self } else { other }),
    {
        if self.le(&other) {
            self
        } else {
            other
        }
    }

    /// Exact difference `self - other`, at the larger of the two scales.
    pub fn sub(&self, other: &Dec) -> (r: Dec)
        requires
            self.wf(),
            other.wf(),
            -UNIT_BOUND < self.units() - other.units() < UNIT_BOUND,
        ensures
            r.wf(),
            r.units() == self.units() - other.units(),
            r == self.spec_sub(*other),
    {
        let s: u32 = if self.scale >= other.scale {
            self.scale
        } else {
            other.scale
        };
        let pa = pow10_exec(s - self.scale);
        let pb = pow10_exec(s - other.scale);
        proof {
            lemma_sub_exact(*self, *other);
        }
        let ma = self.mantissa * pa;
        let mb = other.mantissa * pb;
        Dec { mantissa: ma - mb, scale: s }
    }
}

/// The mantissa and scale that `rust_decimal` reads from a text, if it reads one.
pub uninterp spec fn decimal_parse(text: Seq<char>) -> Option<(i128, u32)>;

/// The text that `rust_decimal` renders for a mantissa and a scale.
pub uninterp spec fn decimal_text(mantissa: i128, scale: u32) -> Seq<char>;

/// Relies on `rust_decimal::Decimal::from_str`, read back through `mantissa` and
/// `scale`: the outcome depends on the text alone.
#[verifier::external_body]
fn parse_decimal_parts(text: &str) -> (r: Option<(i128, u32)>)
    ensures
        r == decimal_parse(text@),
{
    match Decimal::from_str(text) {
        Ok(d) => Some((d.mantissa(), d.scale())),
        Err(_) => None,
    }
}

/// Relies on `rust_decimal::Decimal::from_i128_with_scale` (which panics beyond
/// scale 28 or beyond a 96-bit mantissa) and on its `Display`.
#[verifier::external_body]
fn render_decimal(mantissa: i128, scale: u32) -> (r: String)
    requires
        scale <= 28,
        -MAX_DECIMAL_MANTISSA <= mantissa <= MAX_DECIMAL_MANTISSA,
    ensures
        r@ == decimal_text(mantissa, scale),
{
    Decimal::from_i128_with_scale(mantissa, scale).to_string()
}

impl Dec {
    /// Reads a decimal from text; `None` when the text is no decimal, or when it
    /// has more than 18 fractional digits or a magnitude of 10^10 or more.
    pub fn parse(text: &str) -> (r: Option<Dec>)
        ensures
            r == dec_from_parts(decimal_parse(text@)),
    {
        match parse_decimal_parts(text) {
            Some((m, s)) => {
                if s > UNIT_SCALE {
                    return None;
                }
                let bound = pow10_exec(10 + s);
                let ghost p = pow10((UNIT_SCALE - s) as nat);
                proof {
                    lemma_pow10_add((10 + s) as nat, (UNIT_SCALE - s) as nat);
                    lemma_pow10_28();
                    lemma_pow10_pos((UNIT_SCALE - s) as nat);
                    assert((-bound < m < bound) <==> (-UNIT_BOUND < m * p < UNIT_BOUND))
                        by (nonlinear_arith)
                        requires
                            p >= 1,
                            bound >= 1,
                            UNIT_BOUND == bound * p,
                    {}
                }
                if -bound < m && m < bound {
                    Some(Dec { mantissa: m, scale: s })
                } else {
                    None
                }
            },
            None => None,
        }
    }

    /// The text of this decimal, with its scale kept (`50000.0`, `0.5`).
    pub fn to_text(&self) -> (r: String)
        requires
            self.wf(),
        ensures
            r@ == decimal_text(self.mantissa, self.scale),
    {
        proof {
            lemma_mantissa_le_units(*self);
        }
        render_decimal(self.mantissa, self.scale)
    }
}

} // verus!
