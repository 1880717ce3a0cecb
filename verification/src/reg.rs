//! Safe, strongly-typed access to the fields of hardware registers.
//!
//! A register's storage type implements [`RegisterBits`]; a marker type
//! implementing [`RegisterSpec`] names one register and its storage; and
//! [`RegisterReader`] / [`RegisterWriter`] extract and compose bit fields.
//! Every value is specified through `bits_spec`, its value as up to 64
//! mathematical bits.

use vstd::prelude::*;

verus! {

use core::ops::RangeInclusive;

/// The lowest `n` bits set, as a 64-bit value.
pub open spec fn low_mask(n: u64) -> u64 {
    if n == 0 {
        0u64
    } else if n >= 64 {
        u64::MAX
    } else {
        u64::MAX >> ((64 - n) as u64)
    }
}

/// `bits` with the single bit at `off` set to `b`, within a register
/// `width` bits wide.
pub open spec fn bit_set(bits: u64, off: u64, width: u64, b: bool) -> u64 {
    field_set(bits, off, 1, width, if b {
        1u64
    } else {
        0u64
    })
}

/// `bits` with the `size`-bit field at `off` replaced by the low bits of
/// `f`, within a register `width` bits wide.
pub open spec fn field_set(bits: u64, off: u64, size: u64, width: u64, f: u64) -> u64 {
    (bits & (!((low_mask(size) << off) & low_mask(width)) & low_mask(width))) | (((f & low_mask(
        size,
    )) << off) & low_mask(width))
}

/// Values of `low_mask` at the widths the registers use.
pub proof fn lemma_low_mask_values()
    by (bit_vector)
    ensures
        low_mask(1) == 1u64,
        low_mask(3) == 0x7u64,
        low_mask(8) == 0xffu64,
        low_mask(10) == 0x3ffu64,
        low_mask(32) == 0xffff_ffffu64,
        low_mask(64) == u64::MAX,
{
}

/// Values which can be used as the underlying storage for a register.
pub trait RegisterBits: Sized + Copy {
    /// The stored value, as mathematical bits.
    spec fn bits_spec(self) -> u64;

    /// Width of the storage type, in bits.
    spec fn width_spec() -> u64;

    /// The width is sane and every value fits it.
    proof fn lemma_width_facts()
        ensures
            1 <= Self::width_spec() <= 64,
            forall|x: Self| #[trigger] x.bits_spec() <= low_mask(Self::width_spec()),
    ;

    /// Returns `0`.
    fn zero() -> (r: Self)
        ensures
            r.bits_spec() == 0,
    ;

    /// Returns a contiguous sequence of `width` bits with value `1`,
    /// beginning at the LSB.
    fn mask(width: usize) -> (r: Self)
        requires
            1 <= width <= Self::width_spec(),
        ensures
            r.bits_spec() == low_mask(width as u64),
    ;

    fn bitand(self, other: Self) -> (r: Self)
        ensures
            r.bits_spec() == self.bits_spec() & other.bits_spec(),
    ;

    fn bitor(self, other: Self) -> (r: Self)
        ensures
            r.bits_spec() == self.bits_spec() | other.bits_spec(),
    ;

    fn complement(self) -> (r: Self)
        ensures
            r.bits_spec() == !self.bits_spec() & low_mask(Self::width_spec()),
    ;

    fn shl(self, n: usize) -> (r: Self)
        requires
            n < Self::width_spec(),
        ensures
            r.bits_spec() == (self.bits_spec() << (n as u64)) & low_mask(Self::width_spec()),
    ;

    fn shr(self, n: usize) -> (r: Self)
        requires
            n < Self::width_spec(),
        ensures
            r.bits_spec() == self.bits_spec() >> (n as u64),
    ;

    fn from_bool(b: bool) -> (r: Self)
        ensures
            r.bits_spec() == (if b {
                1u64
            } else {
                0u64
            }),
    ;

    fn is_zero(self) -> (r: bool)
        ensures
            r == (self.bits_spec() == 0),
    ;
}

proof fn lemma_u64_bits()
    by (bit_vector)
    ensures
        forall|x: u64| #[trigger] (x & low_mask(64)) == x,
        forall|x: u64| #[trigger] (!x & low_mask(64)) == !x,
        forall|x: u64, n: u64| n < 64 ==> #[trigger] ((x << n) & low_mask(64)) == (x << n),
        forall|w: u64| 1 <= w <= 64 ==> #[trigger] low_mask(w) >= 0,
{
}

impl RegisterBits for u64 {
    open spec fn bits_spec(self) -> u64 {
        self
    }

    open spec fn width_spec() -> u64 {
        64
    }

    proof fn lemma_width_facts() {
        lemma_u64_bits();
        assert forall|x: u64| #[trigger] x.bits_spec() <= low_mask(64) by {
            assert(x & low_mask(64) == x);
        }
    }

    fn zero() -> (r: Self) {
        0
    }

    fn mask(width: usize) -> (r: Self) {
        proof {
            let w = width as u64;
            assert(1 <= w <= 64 ==> u64::MAX >> ((64 - w) as u64) == low_mask(w)) by (bit_vector);
        }
        u64::MAX >> (64 - width)
    }

    fn bitand(self, other: Self) -> (r: Self) {
        self & other
    }

    fn bitor(self, other: Self) -> (r: Self) {
        self | other
    }

    fn complement(self) -> (r: Self) {
        proof {
            lemma_u64_bits();
        }
        !self
    }

    fn shl(self, n: usize) -> (r: Self) {
        proof {
            lemma_u64_bits();
        }
        self << n
    }

    fn shr(self, n: usize) -> (r: Self) {
        self >> n
    }

    fn from_bool(b: bool) -> (r: Self) {
        if b {
            1
        } else {
            0
        }
    }

    fn is_zero(self) -> (r: bool) {
        self == 0
    }
}

proof fn lemma_u32_bits()
    by (bit_vector)
    ensures
        forall|x: u32, y: u32| #[trigger] ((x & y) as u64) == (x as u64) & (y as u64),
        forall|x: u32, y: u32| #[trigger] ((x | y) as u64) == (x as u64) | (y as u64),
        forall|x: u32| #[trigger] ((!x) as u64) == !(x as u64) & low_mask(32),
        forall|x: u32, n: u64|
            n < 32 ==> #[trigger] ((x << n) as u64) == ((x as u64) << n) & low_mask(32),
        forall|x: u32, n: u64| n < 32 ==> #[trigger] ((x >> n) as u64) == (x as u64) >> n,
        forall|w: u64|
            1 <= w <= 32 ==> #[trigger] ((u32::MAX >> ((32 - w) as u64)) as u64) == low_mask(w),
        forall|x: u32| #[trigger] (x as u64) <= low_mask(32),
{
}

impl RegisterBits for u32 {
    open spec fn bits_spec(self) -> u64 {
        self as u64
    }

    open spec fn width_spec() -> u64 {
        32
    }

    proof fn lemma_width_facts() {
        lemma_u32_bits();
    }

    fn zero() -> (r: Self) {
        0
    }

    fn mask(width: usize) -> (r: Self) {
        proof {
            let w = width as u64;
            assert(1 <= w <= 32 ==> ((u32::MAX >> ((32 - w) as u64)) as u64) == low_mask(w))
                by (bit_vector);
        }
        u32::MAX >> (32 - width)
    }

    fn bitand(self, other: Self) -> (r: Self) {
        proof {
            lemma_u32_bits();
        }
        self & other
    }

    fn bitor(self, other: Self) -> (r: Self) {
        proof {
            lemma_u32_bits();
        }
        self | other
    }

    fn complement(self) -> (r: Self) {
        proof {
            lemma_u32_bits();
        }
        !self
    }

    fn shl(self, n: usize) -> (r: Self) {
        proof {
            lemma_u32_bits();
        }
        self << n
    }

    fn shr(self, n: usize) -> (r: Self) {
        proof {
            lemma_u32_bits();
        }
        self >> n
    }

    fn from_bool(b: bool) -> (r: Self) {
        if b {
            1
        } else {
            0
        }
    }

    fn is_zero(self) -> (r: bool) {
        self == 0
    }
}

pub trait RegisterSpec {
    /// The type of the raw value of the register.
    type Bits: RegisterBits;
}

/// Marker for register specs indicating that the underlying register can be
/// read from.
pub trait RegisterReadable: RegisterSpec {

}

/// Marker for register specs indicating that the underlying register can be
/// written to.
pub trait RegisterWritable: RegisterSpec {

}

/// Marker for writable register specs which provides a safe, potentially
/// non-zero initial value for the register during write operations.
pub trait RegisterInitial: RegisterWritable {
    /// The initial value, as mathematical bits.
    spec fn initial_spec() -> u64;

    /// The initial value.
    fn initial_value() -> (r: <Self as RegisterSpec>::Bits)
        ensures
            r.bits_spec() == Self::initial_spec(),
    ;
}

/// Relies on `RangeInclusive::start`: it returns the range's lower bound.
pub assume_specification<Idx>[ RangeInclusive::<Idx>::start ](r: &RangeInclusive<Idx>) -> (s: &Idx)
    ensures
        *s == r@.start,
;

/// Relies on `RangeInclusive::end`: it returns the range's upper bound.
pub assume_specification<Idx>[ RangeInclusive::<Idx>::end ](r: &RangeInclusive<Idx>) -> (e: &Idx)
    ensures
        *e == r@.end,
;

/// Provides read access to the fields of a register.
pub struct RegisterReader<S: RegisterSpec> {
    bits: S::Bits,
}

/// Provides write access to the fields of a register.
pub struct RegisterWriter<S: RegisterSpec> {
    bits: S::Bits,
}

impl<S: RegisterSpec> RegisterReader<S> {
    /// The held value, as mathematical bits.
    pub closed spec fn bits_spec(&self) -> u64 {
        self.bits.bits_spec()
    }

    /// Wraps a raw value read from the register.
    pub fn new(bits: S::Bits) -> (r: Self)
        ensures
            r.bits_spec() == bits.bits_spec(),
    {
        Self { bits }
    }

    /// Returns the raw value.
    pub fn bits(&self) -> (r: S::Bits)
        ensures
            r.bits_spec() == self.bits_spec(),
    {
        self.bits
    }

    /// Returns the value of the bit at offset `offset`.
    pub fn bit(&self, offset: usize) -> (r: bool)
        requires
            offset < S::Bits::width_spec(),
        ensures
            r == ((self.bits_spec() >> (offset as u64)) & 1 == 1),
    {
        proof {
            S::Bits::lemma_width_facts();
            lemma_low_mask_values();
            assert(forall|x: u64| #[trigger] (x & 1) == 0 || (x & 1) == 1) by (bit_vector);
        }
        !self.field(offset..=offset).is_zero()
    }

    /// Returns the value of a contiguous bit field with its LSB at the
    /// offset `range.start()` and MSB at the offset `range.end()`.
    ///
    /// ```text
    ///   bits: | ... | |x|x|x| ... |x|x| | ... | | | | |
    ///                  ^             ^               ^
    /// offset:          range.end()   range.start()   0
    /// ```
    pub fn field(&self, range: RangeInclusive<usize>) -> (r: S::Bits)
        requires
            range@.start <= range@.end,
            range@.end < S::Bits::width_spec(),
        ensures
            r.bits_spec() == (self.bits_spec() >> (range@.start as u64)) & low_mask(
                (range@.end - range@.start + 1) as u64,
            ),
    {
        proof {
            S::Bits::lemma_width_facts();
        }
        let offset = *range.start();
        let size = *range.end() + 1 - offset;
        self.bits.shr(offset).bitand(S::Bits::mask(size))
    }
}

impl<S: RegisterSpec> RegisterWriter<S> {
    /// The composed value, as mathematical bits.
    pub closed spec fn bits_spec(&self) -> u64 {
        self.bits.bits_spec()
    }

    /// A writer whose starting value is all-zero.
    pub fn zero() -> (r: Self)
        ensures
            r.bits_spec() == 0,
    {
        Self { bits: S::Bits::zero() }
    }

    /// The composed raw value, ready to be written to the register.
    pub fn value(&self) -> (r: S::Bits)
        ensures
            r.bits_spec() == self.bits_spec(),
    {
        self.bits
    }

    /// Sets the raw value.
    pub fn bits(&mut self, bits: S::Bits)
        ensures
            final(self).bits_spec() == bits.bits_spec(),
    {
        self.bits = bits;
    }

    /// Sets the value of the bit at offset `offset`.
    pub fn bit(&mut self, offset: usize, bit: bool)
        requires
            offset < S::Bits::width_spec(),
        ensures
            final(self).bits_spec() == bit_set(
                old(self).bits_spec(),
                offset as u64,
                S::Bits::width_spec(),
                bit,
            ),
    {
        proof {
            S::Bits::lemma_width_facts();
        }
        self.field(offset..=offset, S::Bits::from_bool(bit));
    }

    /// Sets the value of a contiguous bit field with its LSB at the offset
    /// `range.start()` and MSB at the offset `range.end()`.
    pub fn field(&mut self, range: RangeInclusive<usize>, field: S::Bits)
        requires
            range@.start <= range@.end,
            range@.end < S::Bits::width_spec(),
        ensures
            final(self).bits_spec() == field_set(
                old(self).bits_spec(),
                range@.start as u64,
                (range@.end - range@.start + 1) as u64,
                S::Bits::width_spec(),
                field.bits_spec(),
            ),
    {
        proof {
            S::Bits::lemma_width_facts();
        }
        let offset = *range.start();
        let size = *range.end() + 1 - offset;
        let mask = S::Bits::mask(size);
        self.bits = (self.bits.bitand(mask.shl(offset).complement())).bitor(
            field.bitand(mask).shl(offset),
        );
    }
}

impl<S: RegisterSpec + RegisterInitial> RegisterWriter<S> {
    /// A writer whose starting value is the register's initial value.
    pub fn initial() -> (r: Self)
        ensures
            r.bits_spec() == S::initial_spec(),
    {
        Self { bits: S::initial_value() }
    }
}

} // verus!
