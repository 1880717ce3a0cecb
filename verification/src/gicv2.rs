//! GICv2 interrupt identities and the devicetree interrupt specifiers that
//! name them.

use vstd::prelude::*;

verus! {

/// GIC interrupt ID.
#[derive(Clone, Copy, PartialEq, Eq, Structural, Debug)]
pub struct InterruptId(usize);

impl InterruptId {
    /// GIC interrupt IDs fit ten bits.
    #[verifier::type_invariant]
    spec fn type_inv(self) -> bool {
        self.0 <= 1023
    }
}

/// Zero-based PPI number, as found in devicetree.
#[derive(Clone, Copy, PartialEq, Eq, Structural, Debug)]
pub struct PpiNumber(usize);

impl PpiNumber {
    /// The GIC has sixteen private peripheral interrupts.
    #[verifier::type_invariant]
    spec fn type_inv(self) -> bool {
        self.0 <= 15
    }
}

/// Zero-based SPI number, as found in devicetree.
#[derive(Clone, Copy, PartialEq, Eq, Structural, Debug)]
pub struct SpiNumber(usize);

impl SpiNumber {
    /// The GIC has 988 shared peripheral interrupts.
    #[verifier::type_invariant]
    spec fn type_inv(self) -> bool {
        self.0 <= 987
    }
}

impl InterruptId {
    pub closed spec fn spec_value(self) -> int {
        self.0 as int
    }

    /// Accepts exactly the IDs the GIC architecture defines.
    pub fn try_from(inner: usize) -> (r: Result<Self, ()>)
        ensures
            inner <= 1023 ==> (r matches Ok(id) && id.spec_value() == inner),
            inner > 1023 ==> r is Err,
    {
        if inner <= 1023 {
            Ok(InterruptId(inner))
        } else {
            Err(())
        }
    }

    pub fn value(&self) -> (r: usize)
        ensures
            r as int == self.spec_value(),
    {
        self.0
    }

    /// The ID the CPU interface reports when no interrupt is pending.
    pub fn spurious() -> (r: Self)
        ensures
            r.spec_value() == 1023,
    {
        Self(1023)
    }
}

impl PpiNumber {
    pub closed spec fn spec_value(self) -> int {
        self.0 as int
    }

    pub fn try_from(inner: usize) -> (r: Result<Self, ()>)
        ensures
            inner <= 15 ==> (r matches Ok(n) && n.spec_value() == inner),
            inner > 15 ==> r is Err,
    {
        if inner <= 15 {
            Ok(PpiNumber(inner))
        } else {
            Err(())
        }
    }

    pub fn value(&self) -> (r: usize)
        ensures
            r as int == self.spec_value(),
    {
        self.0
    }
}

impl SpiNumber {
    pub closed spec fn spec_value(self) -> int {
        self.0 as int
    }

    pub fn try_from(inner: usize) -> (r: Result<Self, ()>)
        ensures
            inner <= 987 ==> (r matches Ok(n) && n.spec_value() == inner),
            inner > 987 ==> r is Err,
    {
        if inner <= 987 {
            Ok(SpiNumber(inner))
        } else {
            Err(())
        }
    }

    pub fn value(&self) -> (r: usize)
        ensures
            r as int == self.spec_value(),
    {
        self.0
    }
}

impl From<PpiNumber> for InterruptId {
    /// PPIs occupy interrupt IDs 16 to 31.
    fn from(value: PpiNumber) -> (r: InterruptId) {
        proof {
            use_type_invariant(&value);
        }
        InterruptId(value.value() + 0x10)
    }
}

impl vstd::std_specs::convert::FromSpecImpl<PpiNumber> for InterruptId {
    open spec fn obeys_from_spec() -> bool {
        true
    }

    closed spec fn from_spec(value: PpiNumber) -> InterruptId {
        InterruptId((value.0 + 0x10) as usize)
    }
}

impl From<SpiNumber> for InterruptId {
    /// SPIs occupy interrupt IDs from 32 up.
    fn from(value: SpiNumber) -> (r: InterruptId) {
        proof {
            use_type_invariant(&value);
        }
        InterruptId(value.value() + 0x20)
    }
}

impl vstd::std_specs::convert::FromSpecImpl<SpiNumber> for InterruptId {
    open spec fn obeys_from_spec() -> bool {
        true
    }

    closed spec fn from_spec(value: SpiNumber) -> InterruptId {
        InterruptId((value.0 + 0x20) as usize)
    }
}

/// The big-endian 32-bit integer held at `at` in `bytes`.
pub open spec fn be_u32(bytes: Seq<u8>, at: int) -> int {
    bytes[at] * 0x100_0000 + bytes[at + 1] * 0x1_0000 + bytes[at + 2] * 0x100 + bytes[at + 3]
}

/// Reads the big-endian 32-bit integer at `at`.
pub fn read_u32_be(bytes: &[u8], at: usize) -> (r: u32)
    requires
        at + 4 <= bytes@.len(),
    ensures
        r as int == be_u32(bytes@, at as int),
{
    (bytes[at] as u32) * 0x100_0000 + (bytes[at + 1] as u32) * 0x1_0000 + (bytes[at + 2] as u32)
        * 0x100 + (bytes[at + 3] as u32)
}

/// Interrupt specifier, as found in devicetree: twelve bytes naming an
/// interrupt type, a number within the type, and flags.
#[derive(Debug)]
pub struct InterruptSpecifier<'dt>(&'dt [u8]);

impl<'dt> InterruptSpecifier<'dt> {
    /// The specifier's raw bytes.
    pub closed spec fn bytes(self) -> Seq<u8> {
        self.0@
    }

    /// Walks the `interrupts` property of a devicetree node, twelve bytes
    /// per specifier.
    pub fn interrupts_iter(interrupts: &[u8]) -> (r: InterruptSpecifierIter)
        ensures
            r.remaining() == interrupts@,
    {
        InterruptSpecifierIter(interrupts)
    }

    /// The interrupt ID this specifier names: the first cell selects SPI or
    /// PPI numbering, the second holds the number.
    pub fn interrupt_id(&self) -> (r: Result<InterruptId, ()>)
        requires
            self.bytes().len() >= 8,
            be_u32(self.bytes(), 0) == 0 || be_u32(self.bytes(), 0) == 1,
        ensures
            ({
                let kind = be_u32(self.bytes(), 0);
                let number = be_u32(self.bytes(), 4);
                &&& (kind == 0 && number <= 987 ==> (r matches Ok(id) && id.spec_value()
                    == number + 0x20))
                &&& (kind == 0 && number > 987 ==> r is Err)
                &&& (kind == 1 && number <= 15 ==> (r matches Ok(id) && id.spec_value()
                    == number + 0x10))
                &&& (kind == 1 && number > 15 ==> r is Err)
            }),
    {
        let interrupt_type = read_u32_be(self.0, 0);
        let interrupt_number = read_u32_be(self.0, 4);
        let number = crate::num::AsUsize::as_usize(interrupt_number);
        if interrupt_type == 0 {
            match SpiNumber::try_from(number) {
                Ok(spi) => Ok(InterruptId::from(spi)),
                Err(()) => Err(()),
            }
        } else {
            match PpiNumber::try_from(number) {
                Ok(ppi) => Ok(InterruptId::from(ppi)),
                Err(()) => Err(()),
            }
        }
    }
}

/// Iterator over the specifiers of an `interrupts` property.
pub struct InterruptSpecifierIter<'dt>(&'dt [u8]);

impl<'dt> InterruptSpecifierIter<'dt> {
    /// The bytes not yet walked.
    pub closed spec fn remaining(self) -> Seq<u8> {
        self.0@
    }

    /// The next specifier, while at least twelve bytes remain.
    pub fn next(&mut self) -> (r: Option<InterruptSpecifier<'dt>>)
        ensures
            old(self).remaining().len() < 12 ==> r is None && final(self).remaining() == old(
                self,
            ).remaining(),
            old(self).remaining().len() >= 12 ==> (r matches Some(s) && s.bytes() == old(
                self,
            ).remaining() && final(self).remaining() == old(self).remaining().skip(12)),
    {
        if self.0.len() < 12 {
            return None;
        }
        let result = InterruptSpecifier(self.0);
        self.0 = vstd::slice::slice_subrange(self.0, 12, self.0.len());
        proof {
            assert(self.0@ =~= old(self).remaining().skip(12));
        }
        Some(result)
    }
}

} // verus!
