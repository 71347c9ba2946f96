//! Exact fixed-point decimal amounts: a signed mantissa over a power of ten.

use vstd::prelude::*;

verus! {

/// The largest number of fractional digits an amount may carry.
pub const MAX_SCALE: u32 = 28;

/// The largest magnitude of a mantissa (96 bits, all ones).
pub const MAX_MANTISSA: i128 = 0xFFFF_FFFF_FFFF_FFFF_FFFF_FFFF;

pub open spec fn pow10(n: nat) -> int
    decreases n,
{
    if n == 0 {
        1
    } else {
        10 * pow10((n - 1) as nat)
    }
}

pub proof fn lemma_pow10_positive(n: nat)
    ensures
        pow10(n) >= 1,
    decreases n,
{
    if n > 0 {
        lemma_pow10_positive((n - 1) as nat);
    }
}

pub proof fn lemma_pow10_adds(a: nat, b: nat)
    ensures
        pow10(a + b) == pow10(a) * pow10(b),
    decreases a,
{
    if a == 0 {
        assert(pow10(0) == 1);
    } else {
        lemma_pow10_adds((a - 1) as nat, b);
        let x = pow10((a - 1) as nat);
        let y = pow10(b);
        assert(pow10(a + b) == 10 * pow10((a - 1 + b) as nat));
        assert(pow10(a) == 10 * x);
        assert((10 * x) * y == 10 * (x * y)) by (nonlinear_arith);
    }
}

proof fn lemma_pow10_monotone(a: nat, b: nat)
    requires
        a <= b,
    ensures
        pow10(a) <= pow10(b),
    decreases b,
{
    if a < b {
        lemma_pow10_monotone(a, (b - 1) as nat);
        lemma_pow10_positive((b - 1) as nat);
    }
}

proof fn lemma_pow10_max_scale()
    ensures
        pow10(MAX_SCALE as nat) == 10_000_000_000_000_000_000_000_000_000int,
{
    reveal_with_fuel(pow10, 29);
}

fn pow10_exec(n: u32) -> (r: i128)
    requires
        n <= MAX_SCALE,
    ensures
        r == pow10(n as nat),
        1 <= r,
{
    let mut r: i128 = 1;
    let mut i: u32 = 0;
    proof {
        lemma_pow10_max_scale();
    }
    while i < n
        invariant
            i <= n <= MAX_SCALE,
            r == pow10(i as nat),
            1 <= r,
            pow10(MAX_SCALE as nat) == 10_000_000_000_000_000_000_000_000_000int,
        decreases n - i,
    {
        proof {
            lemma_pow10_monotone((i + 1) as nat, MAX_SCALE as nat);
            assert(pow10((i + 1) as nat) == 10 * pow10(i as nat));
        }
        r = r * 10;
        i = i + 1;
    }
    proof {
        lemma_pow10_positive(n as nat);
    }
    r
}

/// A decimal number `mantissa / 10^scale`, within the range of a 96-bit
/// mantissa and at most 28 fractional digits.
#[derive(Clone, Copy, Debug, PartialEq, Eq, Structural)]
pub struct Amount {
    pub mantissa: i128,
    pub scale: u32,
}

pub open spec fn max_scale_of(a: Amount, b: Amount) -> u32 {
    if a.scale >= b.scale {
        a.scale
    } else {
        b.scale
    }
}

/// The mantissa of `a` written over `10^s`, for `s >= a.scale`.
pub open spec fn aligned(a: Amount, s: u32) -> int {
    a.mantissa * pow10((s - a.scale) as nat)
}

impl Amount {
    pub open spec fn wf(self) -> bool {
        &&& self.scale <= MAX_SCALE
        &&& -MAX_MANTISSA <= self.mantissa <= MAX_MANTISSA
    }

    /// The value, counted in units of `10^-28`.
    pub open spec fn units(self) -> int {
        aligned(self, MAX_SCALE)
    }

    pub open spec fn spec_neg(self) -> Amount {
        Amount { mantissa: (-self.mantissa) as i128, scale: self.scale }
    }

    /// The exact sum, over the larger of the two scales; `None` when its
    /// mantissa does not fit.
    pub open spec fn spec_add(self, o: Amount) -> Option<Amount> {
        let s = max_scale_of(self, o);
        let m = aligned(self, s) + aligned(o, s);
        if -MAX_MANTISSA <= m <= MAX_MANTISSA {
            Some(Amount { mantissa: m as i128, scale: s })
        } else {
            None
        }
    }

    /// The exact difference `self - o`, as `spec_add` gives it.
    pub open spec fn spec_sub(self, o: Amount) -> Option<Amount> {
        self.spec_add(o.spec_neg())
    }

    pub fn zero() -> (r: Amount)
        ensures
            r.wf(),
            r.units() == 0,
            r == (Amount { mantissa: 0, scale: 0 }),
    {
        Amount { mantissa: 0, scale: 0 }
    }

    /// Builds an amount from its parts, or `None` when they are out of range.
    pub fn new(mantissa: i128, scale: u32) -> (r: Option<Amount>)
        ensures
            r matches Some(a) ==> a.mantissa == mantissa && a.scale == scale && a.wf(),
            r is None <==> !(Amount { mantissa, scale }).wf(),
    {
        if scale <= MAX_SCALE && -MAX_MANTISSA <= mantissa && mantissa <= MAX_MANTISSA {
            Some(Amount { mantissa, scale })
        } else {
            None
        }
    }
}

/// Splits the units of `a` at scale `s`: `a.units() == aligned(a, s) * 10^(28 - s)`.
pub proof fn lemma_units_at(a: Amount, s: u32)
    requires
        a.scale <= s <= MAX_SCALE,
    ensures
        a.units() == aligned(a, s) * pow10((MAX_SCALE - s) as nat),
        pow10((MAX_SCALE - s) as nat) >= 1,
{
    let p = pow10((s - a.scale) as nat);
    let q = pow10((MAX_SCALE - s) as nat);
    lemma_pow10_adds((s - a.scale) as nat, (MAX_SCALE - s) as nat);
    assert((s - a.scale) as nat + (MAX_SCALE - s) as nat == (MAX_SCALE - a.scale) as nat);
    lemma_pow10_positive((MAX_SCALE - s) as nat);
    assert(a.mantissa * (p * q) == (a.mantissa * p) * q) by (nonlinear_arith);
}

/// A sum that `spec_add` gives is well formed and exact.
pub proof fn lemma_add_exact(a: Amount, b: Amount)
    requires
        a.wf(),
        b.wf(),
    ensures
        a.spec_add(b) matches Some(r) ==> r.wf() && r.units() == a.units() + b.units(),
        b.spec_neg().wf(),
        b.spec_neg().units() == -b.units(),
{
    let s = max_scale_of(a, b);
    lemma_units_at(a, s);
    lemma_units_at(b, s);
    let q = pow10((MAX_SCALE - s) as nat);
    let x = aligned(a, s);
    let y = aligned(b, s);
    assert((x + y) * q == x * q + y * q) by (nonlinear_arith);
    if let Some(r) = a.spec_add(b) {
        lemma_units_at(r, s);
        assert(aligned(r, s) == r.mantissa * pow10(0));
    }
    assert(b.spec_neg().units() == -b.units()) by (nonlinear_arith)
        requires
            b.spec_neg().units() == -b.mantissa * pow10((MAX_SCALE - b.scale) as nat),
            b.units() == b.mantissa * pow10((MAX_SCALE - b.scale) as nat),
    ;
}

/// A difference that `spec_sub` gives is well formed and exact.
pub proof fn lemma_sub_exact(a: Amount, b: Amount)
    requires
        a.wf(),
        b.wf(),
    ensures
        a.spec_sub(b) matches Some(r) ==> r.wf() && r.units() == a.units() - b.units(),
{
    lemma_add_exact(a, b);
    lemma_add_exact(a, b.spec_neg());
}

/// Facts on aligning two amounts to the larger scale: one side is left as
/// it is, and each aligned mantissa carries the sign of its mantissa.
proof fn lemma_align_pair(a: Amount, b: Amount)
    requires
        a.wf(),
        b.wf(),
    ensures
        ({
            let s = max_scale_of(a, b);
            &&& aligned(a, s) == a.mantissa || aligned(b, s) == b.mantissa
            &&& aligned(a, s) > 0 <==> a.mantissa > 0
            &&& aligned(a, s) < 0 <==> a.mantissa < 0
            &&& aligned(b, s) > 0 <==> b.mantissa > 0
            &&& aligned(b, s) < 0 <==> b.mantissa < 0
        }),
{
    let s = max_scale_of(a, b);
    let pa = pow10((s - a.scale) as nat);
    let pb = pow10((s - b.scale) as nat);
    lemma_pow10_positive((s - a.scale) as nat);
    lemma_pow10_positive((s - b.scale) as nat);
    assert(pow10(0) == 1);
    assert(a.mantissa > 0 ==> a.mantissa * pa > 0) by (nonlinear_arith)
        requires
            pa >= 1,
    ;
    assert(a.mantissa < 0 ==> a.mantissa * pa < 0) by (nonlinear_arith)
        requires
            pa >= 1,
    ;
    assert(a.mantissa == 0 ==> a.mantissa * pa == 0) by (nonlinear_arith);
    assert(b.mantissa > 0 ==> b.mantissa * pb > 0) by (nonlinear_arith)
        requires
            pb >= 1,
    ;
    assert(b.mantissa < 0 ==> b.mantissa * pb < 0) by (nonlinear_arith)
        requires
            pb >= 1,
    ;
    assert(b.mantissa == 0 ==> b.mantissa * pb == 0) by (nonlinear_arith);
}

impl Amount {
    /// Exact addition; `None` when the result would leave the mantissa range.
    pub fn checked_add(self, o: Amount) -> (r: Option<Amount>)
        requires
            self.wf(),
            o.wf(),
        ensures
            r == self.spec_add(o),
            r matches Some(v) ==> v.wf() && v.units() == self.units() + o.units(),
    {
        proof {
            lemma_add_exact(self, o);
            lemma_align_pair(self, o);
        }
        let s: u32 = if self.scale >= o.scale {
            self.scale
        } else {
            o.scale
        };
        let pa = pow10_exec(s - self.scale);
        let pb = pow10_exec(s - o.scale);
        let ma = match self.mantissa.checked_mul(pa) {
            Some(x) => x,
            None => {
                return None;
            },
        };
        let mb = match o.mantissa.checked_mul(pb) {
            Some(x) => x,
            None => {
                return None;
            },
        };
        let m = match ma.checked_add(mb) {
            Some(x) => x,
            None => {
                return None;
            },
        };
        if m > MAX_MANTISSA || m < -MAX_MANTISSA {
            None
        } else {
            Some(Amount { mantissa: m, scale: s })
        }
    }

    /// Exact subtraction `self - o`; `None` when the result would leave the
    /// mantissa range.
    pub fn checked_sub(self, o: Amount) -> (r: Option<Amount>)
        requires
            self.wf(),
            o.wf(),
        ensures
            r == self.spec_sub(o),
            r matches Some(v) ==> v.wf() && v.units() == self.units() - o.units(),
    {
        proof {
            lemma_add_exact(self, o);
            lemma_add_exact(self, o.spec_neg());
        }
        let n = Amount { mantissa: -o.mantissa, scale: o.scale };
        self.checked_add(n)
    }

    /// Whether `self >= o` as numbers, whatever their scales.
    pub fn is_at_least(self, o: Amount) -> (r: bool)
        requires
            self.wf(),
            o.wf(),
        ensures
            r == (self.units() >= o.units()),
    {
        proof {
            lemma_align_pair(self, o);
        }
        let s: u32 = if self.scale >= o.scale {
            self.scale
        } else {
            o.scale
        };
        proof {
            lemma_units_at(self, s);
            lemma_units_at(o, s);
            let q = pow10((MAX_SCALE - s) as nat);
            let x = aligned(self, s);
            let y = aligned(o, s);
            assert(x >= y <==> x * q >= y * q) by (nonlinear_arith)
                requires
                    q >= 1,
            ;
        }
        let pa = pow10_exec(s - self.scale);
        let pb = pow10_exec(s - o.scale);
        match self.mantissa.checked_mul(pa) {
            None => self.mantissa > 0,
            Some(ma) => match o.mantissa.checked_mul(pb) {
                None => o.mantissa < 0,
                Some(mb) => ma >= mb,
            },
        }
    }
}

} // verus!
