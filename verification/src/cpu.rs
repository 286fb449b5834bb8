//! CPU usage readings and the colours they are shown in.
//!
//! A reading is a percentage in IEEE 754 single precision. It is held by its bit
//! pattern: every finite single is an integral multiple of 2^-149, so a reading
//! has an exact integer model, and comparing readings is integer comparison.

use vstd::arithmetic::power2::{lemma2_to64, lemma_pow2_adds, lemma_pow2_pos, lemma_pow2_unfold, pow2};
use vstd::prelude::*;

verus! {

/// A colour of the interface.
#[derive(Clone, Copy, Debug, PartialEq, Eq, Structural)]
pub struct Color {
    pub r: u8,
    pub g: u8,
    pub b: u8,
}

pub open spec fn rgb(r: u8, g: u8, b: u8) -> Color {
    Color { r, g, b }
}

/// A shade of grey.
pub open spec fn gray(level: u8) -> Color {
    rgb(level, level, level)
}

pub open spec fn red() -> Color {
    rgb(255, 85, 85)
}

pub open spec fn yellow() -> Color {
    rgb(255, 255, 85)
}

pub open spec fn green() -> Color {
    rgb(85, 255, 85)
}

/// A CPU usage percentage, by the bits of its single-precision representation.
#[derive(Clone, Copy, Debug, PartialEq, Eq, Structural)]
pub struct CpuUsage {
    pub bits: u32,
}

/// The bits of 10%.
pub const TEN_PERCENT: u32 = 0x4120_0000;

/// The bits of 50%.
pub const FIFTY_PERCENT: u32 = 0x4248_0000;

/// The bits of 85%.
pub const EIGHTY_FIVE_PERCENT: u32 = 0x42aa_0000;

/// The bits of one.
pub const ONE: u32 = 0x3f80_0000;

/// The value, in units of 2^-149, of the non-negative single whose bits are
/// `bits`; for the bits of infinity, a number above that of every finite single.
pub open spec fn magnitude(bits: nat) -> nat {
    let exponent = bits / 0x80_0000;
    let fraction = bits % 0x80_0000;
    if exponent == 0 {
        fraction
    } else {
        (0x80_0000 + fraction) * pow2((exponent - 1) as nat)
    }
}

impl CpuUsage {
    /// The bits without the sign.
    pub open spec fn unsigned_bits(self) -> nat {
        if self.bits < 0x8000_0000 {
            self.bits as nat
        } else {
            (self.bits - 0x8000_0000) as nat
        }
    }

    pub open spec fn is_nan(self) -> bool {
        self.unsigned_bits() > 0x7f80_0000
    }

    /// The reading in units of 2^-149 percent.
    pub open spec fn scaled(self) -> int {
        if self.bits < 0x8000_0000 {
            magnitude(self.unsigned_bits()) as int
        } else {
            -magnitude(self.unsigned_bits())
        }
    }

    /// The reading is a number greater than `percent`.
    pub open spec fn more_than(self, percent: nat) -> bool {
        !self.is_nan() && self.scaled() > percent * pow2(149)
    }

    /// An integer that orders readings as their values do. What is not a number
    /// ranks beyond the infinity of its sign.
    pub open spec fn rank(self) -> int {
        if self.bits < 0x8000_0000 {
            self.unsigned_bits() as int
        } else {
            -self.unsigned_bits()
        }
    }

    /// The reading's rank.
    pub fn order_key(&self) -> (r: i64)
        ensures
            r == self.rank(),
    {
        if self.bits < 0x8000_0000 {
            self.bits as i64
        } else {
            -((self.bits - 0x8000_0000) as i64)
        }
    }

    /// Whether both readings are numbers and this one is the greater.
    pub fn exceeds(&self, limit: CpuUsage) -> (r: bool)
        ensures
            r == (!self.is_nan() && !limit.is_nan() && self.scaled() > limit.scaled()),
    {
        proof {
            if !self.is_nan() && !limit.is_nan() {
                rank_orders_values(*self, limit);
                rank_orders_values(limit, *self);
            }
        }
        !self.not_a_number() && !limit.not_a_number() && self.order_key() > limit.order_key()
    }

    /// Whether the reading is not a number.
    pub fn not_a_number(&self) -> (r: bool)
        ensures
            r == self.is_nan(),
    {
        if self.bits < 0x8000_0000 {
            self.bits > 0x7f80_0000
        } else {
            self.bits - 0x8000_0000 > 0x7f80_0000
        }
    }

    /// Whether the reading is above 10%.
    pub fn above_ten(&self) -> (r: bool)
        ensures
            r == self.more_than(10),
            r == (!self.is_nan() && self.scaled() > 10 * pow2(149)),
    {
        proof {
            lemma2_to64();
            threshold(TEN_PERCENT, 130, 20, 10);
        }
        self.exceeds(CpuUsage { bits: TEN_PERCENT })
    }

    /// Whether the reading is above 50%.
    pub fn above_fifty(&self) -> (r: bool)
        ensures
            r == self.more_than(50),
            r == (!self.is_nan() && self.scaled() > 50 * pow2(149)),
    {
        proof {
            lemma2_to64();
            threshold(FIFTY_PERCENT, 132, 18, 50);
        }
        self.exceeds(CpuUsage { bits: FIFTY_PERCENT })
    }

    /// Whether the reading is above 85%.
    pub fn above_eighty_five(&self) -> (r: bool)
        ensures
            r == self.more_than(85),
            r == (!self.is_nan() && self.scaled() > 85 * pow2(149)),
    {
        proof {
            lemma2_to64();
            threshold(EIGHTY_FIVE_PERCENT, 133, 17, 85);
        }
        self.exceeds(CpuUsage { bits: EIGHTY_FIVE_PERCENT })
    }
}

/// The bits of a whole percentage stand for that percentage.
proof fn threshold(bits: u32, exponent: nat, shift: nat, percent: nat)
    requires
        bits as nat / 0x80_0000 == exponent,
        exponent >= 1,
        exponent - 1 + shift == 149,
        bits < 0x7f80_0000,
        0x80_0000 + bits as nat % 0x80_0000 == percent * pow2(shift),
    ensures
        !(CpuUsage { bits }).is_nan(),
        (CpuUsage { bits }).scaled() == percent * pow2(149),
{
    lemma_pow2_adds(shift, (exponent - 1) as nat);
    let a = pow2(shift);
    let b = pow2((exponent - 1) as nat);
    assert((percent * a) * b == percent * (a * b)) by (nonlinear_arith);
}

/// The successor of a bit pattern stands for a greater value.
proof fn magnitude_step(bits: nat)
    ensures
        magnitude(bits) < magnitude(bits + 1),
{
    let e = bits / 0x80_0000;
    let f = bits % 0x80_0000;
    lemma_pow2_pos(0);
    if f + 1 < 0x80_0000 {
        assert((bits + 1) / 0x80_0000 == e);
        assert((bits + 1) % 0x80_0000 == f + 1);
        if e > 0 {
            let p = pow2((e - 1) as nat);
            lemma_pow2_pos((e - 1) as nat);
            assert((0x80_0000 + f) * p < (0x80_0000 + (f + 1)) * p) by (nonlinear_arith)
                requires
                    p > 0,
            ;
        }
    } else {
        assert((bits + 1) / 0x80_0000 == e + 1);
        assert((bits + 1) % 0x80_0000 == 0);
        assert(magnitude(bits + 1) == 0x80_0000 * pow2(e));
        lemma_pow2_pos(e);
        if e == 0 {
            lemma2_to64();
        } else {
            lemma_pow2_unfold(e);
            let p = pow2((e - 1) as nat);
            lemma_pow2_pos((e - 1) as nat);
            assert((0x80_0000 + f) * p < 0x80_0000 * (2 * p)) by (nonlinear_arith)
                requires
                    p > 0,
                    f < 0x80_0000,
            ;
        }
    }
}

proof fn magnitude_increases(a: nat, b: nat)
    requires
        a < b,
    ensures
        magnitude(a) < magnitude(b),
    decreases b - a,
{
    magnitude_step(a);
    if a + 1 < b {
        magnitude_increases(a + 1, b);
    }
}

/// Ranks order readings as their values do: of two numbers, one ranks above the
/// other exactly when it is the greater. The two zeros rank alike.
pub proof fn rank_orders_values(a: CpuUsage, b: CpuUsage)
    requires
        !a.is_nan(),
        !b.is_nan(),
    ensures
        a.rank() < b.rank() <==> a.scaled() < b.scaled(),
        a.rank() == b.rank() <==> a.scaled() == b.scaled(),
{
    let x = a.unsigned_bits();
    let y = b.unsigned_bits();
    if x < y {
        magnitude_increases(x, y);
    } else if y < x {
        magnitude_increases(y, x);
    }
    if x > 0 {
        magnitude_increases(0, x);
    }
    if y > 0 {
        magnitude_increases(0, y);
    }
    assert(magnitude(0) == 0);
}

/// The bits of a single, brought into the range from zero to one; what is not a
/// number stays as it is.
pub open spec fn clamped_bits(bits: u32) -> u32 {
    let value = CpuUsage { bits };
    if value.is_nan() {
        bits
    } else if value.scaled() < 0 {
        0
    } else if value.scaled() > pow2(149) {
        ONE
    } else {
        bits
    }
}

/// The bits of a single, brought into the range from zero to one. A number comes
/// out as a number in that range.
pub fn clamp_fraction(bits: u32) -> (r: u32)
    ensures
        r == clamped_bits(bits),
        (CpuUsage { bits: r }).is_nan() == (CpuUsage { bits }).is_nan(),
        !(CpuUsage { bits }).is_nan() ==> 0 <= (CpuUsage { bits: r }).scaled() <= pow2(149),
        (CpuUsage { bits }).is_nan() ==> r == bits,
        0 <= (CpuUsage { bits }).scaled() <= pow2(149) ==> r == bits,
{
    let value = CpuUsage { bits };
    let zero = CpuUsage { bits: 0 };
    let one = CpuUsage { bits: ONE };
    proof {
        lemma2_to64();
        threshold(ONE, 127, 23, 1);
        lemma_pow2_pos(149);
        assert(magnitude(0) == 0);
        assert(zero.scaled() == 0);
    }
    if zero.exceeds(value) {
        0
    } else if value.exceeds(one) {
        ONE
    } else {
        bits
    }
}

/// The colour of a CPU reading in the process table and in the details panel.
pub fn cpu_color(cpu: CpuUsage) -> (r: Color)
    ensures
        (r.r, r.g, r.b) == if !cpu.is_nan() && cpu.scaled() > 85 * pow2(149) {
            (255u8, 85u8, 85u8)
        } else if !cpu.is_nan() && cpu.scaled() > 50 * pow2(149) {
            (255u8, 255u8, 85u8)
        } else {
            (85u8, 255u8, 85u8)
        },
        r == if cpu.more_than(85) {
            red()
        } else if cpu.more_than(50) {
            yellow()
        } else {
            green()
        },
{
    if cpu.above_eighty_five() {
        Color { r: 255, g: 85, b: 85 }
    } else if cpu.above_fifty() {
        Color { r: 255, g: 255, b: 85 }
    } else {
        Color { r: 85, g: 255, b: 85 }
    }
}

/// The colours by their components.
pub proof fn colours_by_component(level: u8)
    ensures
        (red().r, red().g, red().b) == (255u8, 85u8, 85u8),
        (yellow().r, yellow().g, yellow().b) == (255u8, 255u8, 85u8),
        (green().r, green().g, green().b) == (85u8, 255u8, 85u8),
        (gray(level).r, gray(level).g, gray(level).b) == (level, level, level),
{
}

/// The value of a single by its fields: the fraction counts in units of 2^-149,
/// with a leading bit and doubled for each exponent above one. The largest exponent
/// with a fraction stands for no number.
pub proof fn singles_by_field(negative: bool, exponent: u32, fraction: u32)
    requires
        exponent < 256,
        fraction < 0x80_0000,
    ensures
        ({
            let sign: int = if negative {
                0x8000_0000
            } else {
                0
            };
            let x = CpuUsage { bits: (sign + exponent * 0x80_0000 + fraction) as u32 };
            let size: int = if exponent == 0 {
                fraction as int
            } else {
                (0x80_0000 + fraction) * pow2((exponent - 1) as nat)
            };
            &&& x.is_nan() <==> exponent == 255 && fraction > 0
            &&& x.scaled() == if negative {
                -size
            } else {
                size
            }
        }),
{
    let low = (exponent * 0x80_0000 + fraction) as nat;
    assert(low / 0x80_0000 == exponent);
    assert(low % 0x80_0000 == fraction);
}

/// A reading is above a percentage when it is a number and its value is greater.
pub proof fn above_by_value(cpu: CpuUsage, percent: nat)
    ensures
        cpu.more_than(percent) <==> !cpu.is_nan() && cpu.scaled() > percent * pow2(149),
{
}

/// Clamping: what is not a number stays, what is below zero becomes zero, what is
/// above one becomes one, and the rest stays.
pub proof fn clamping_by_value(bits: u32)
    ensures
        ({
            let x = CpuUsage { bits };
            &&& x.is_nan() ==> clamped_bits(bits) == bits
            &&& !x.is_nan() && x.scaled() < 0 ==> clamped_bits(bits) == 0
            &&& !x.is_nan() && x.scaled() > pow2(149) ==> clamped_bits(bits) == 0x3f80_0000
            &&& !x.is_nan() && 0 <= x.scaled() <= pow2(149) ==> clamped_bits(bits) == bits
        }),
{
}

} // verus!
