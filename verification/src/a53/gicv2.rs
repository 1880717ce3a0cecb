//! Bit layouts of the GICv2 distributor and CPU-interface registers the
//! kernel touches.

use vstd::prelude::*;

verus! {

use crate::gicv2::InterruptId;
use crate::num::AsUsize;
use crate::reg::{
    bit_set,
    field_set,
    RegisterInitial,
    RegisterReadable,
    RegisterReader,
    RegisterSpec,
    RegisterWritable,
    RegisterWriter,
};

/// GICD_CTLR, the distributor control register.
#[allow(non_camel_case_types)]
pub struct GICD_CTLR;

impl RegisterSpec for GICD_CTLR {
    type Bits = u32;
}

impl RegisterReadable for GICD_CTLR {

}

impl RegisterWritable for GICD_CTLR {

}

impl RegisterInitial for GICD_CTLR {
    open spec fn initial_spec() -> u64 {
        0
    }

    fn initial_value() -> (r: u32) {
        0
    }
}

impl RegisterReader<GICD_CTLR> {
    /// Whether group 0 interrupt forwarding is enabled.
    pub fn enable(&self) -> (r: bool)
        ensures
            r == ((self.bits_spec() >> 0) & 1 == 1),
    {
        self.bit(0)
    }
}

impl RegisterWriter<GICD_CTLR> {
    pub fn enable(&mut self, enable: bool)
        ensures
            final(self).bits_spec() == bit_set(old(self).bits_spec(), 0, 32, enable),
    {
        self.bit(0, enable)
    }
}

/// GICD_ISENABLER, one word of the interrupt set-enable array.
#[allow(non_camel_case_types)]
pub struct GICD_ISENABLER;

impl RegisterSpec for GICD_ISENABLER {
    type Bits = u32;
}

impl RegisterWritable for GICD_ISENABLER {

}

impl RegisterInitial for GICD_ISENABLER {
    open spec fn initial_spec() -> u64 {
        0
    }

    fn initial_value() -> (r: u32) {
        0
    }
}

impl RegisterWriter<GICD_ISENABLER> {
    /// Marks interrupt bit `m` of this word set-enabled.
    pub fn set_enable(&mut self, m: usize)
        requires
            m < 32,
        ensures
            final(self).bits_spec() == bit_set(old(self).bits_spec(), m as u64, 32, true),
    {
        self.bit(m, true)
    }
}

/// GICC_CTLR, the CPU interface control register.
#[allow(non_camel_case_types)]
pub struct GICC_CTLR;

impl RegisterSpec for GICC_CTLR {
    type Bits = u32;
}

impl RegisterReadable for GICC_CTLR {

}

impl RegisterWritable for GICC_CTLR {

}

impl RegisterInitial for GICC_CTLR {
    open spec fn initial_spec() -> u64 {
        0
    }

    fn initial_value() -> (r: u32) {
        0
    }
}

impl RegisterReader<GICC_CTLR> {
    /// Whether group 0 interrupt signalling is enabled.
    pub fn enable(&self) -> (r: bool)
        ensures
            r == ((self.bits_spec() >> 0) & 1 == 1),
    {
        self.bit(0)
    }
}

impl RegisterWriter<GICC_CTLR> {
    pub fn enable(&mut self, enable: bool)
        ensures
            final(self).bits_spec() == bit_set(old(self).bits_spec(), 0, 32, enable),
    {
        self.bit(0, enable)
    }
}

/// GICC_PMR, the interrupt priority mask register.
#[allow(non_camel_case_types)]
pub struct GICC_PMR;

impl RegisterSpec for GICC_PMR {
    type Bits = u32;
}

impl RegisterReadable for GICC_PMR {

}

impl RegisterWritable for GICC_PMR {

}

impl RegisterInitial for GICC_PMR {
    open spec fn initial_spec() -> u64 {
        0
    }

    fn initial_value() -> (r: u32) {
        0
    }
}

impl RegisterReader<GICC_PMR> {
    /// The priority threshold below which interrupts are masked.
    pub fn priority(&self) -> (r: u8)
        ensures
            r as u64 == self.bits_spec() & 0xff,
    {
        proof {
            crate::reg::lemma_low_mask_values();
            assert(forall|x: u64| #[trigger] (x & 0xffu64) <= 0xff) by (bit_vector);
            assert(forall|x: u64| (#[trigger] (x >> 0u64)) == x) by (bit_vector);
        }
        let value = self.field(0..=7);
        value as u8
    }
}

impl RegisterWriter<GICC_PMR> {
    pub fn priority(&mut self, priority: u8)
        ensures
            final(self).bits_spec() == field_set(
                old(self).bits_spec(),
                0,
                8,
                32,
                priority as u64,
            ),
    {
        self.field(0..=7, priority as u32)
    }
}

/// GICC_IAR, the interrupt acknowledge register.
#[allow(non_camel_case_types)]
pub struct GICC_IAR;

impl RegisterSpec for GICC_IAR {
    type Bits = u32;
}

impl RegisterReadable for GICC_IAR {

}

impl RegisterReader<GICC_IAR> {
    /// The whole acknowledged word, to be written back on completion.
    pub fn entire(&self) -> (r: u32)
        ensures
            r as u64 == self.bits_spec(),
    {
        self.bits()
    }

    /// The CPU that signalled, for software-generated interrupts.
    pub fn cpuid(&self) -> (r: u8)
        ensures
            r as u64 == (self.bits_spec() >> 10) & 0x7,
    {
        proof {
            crate::reg::lemma_low_mask_values();
            assert(forall|x: u64| #[trigger] (x & 0x7u64) <= 0x7) by (bit_vector);
        }
        let value = self.field(10..=12);
        value as u8
    }

    /// The acknowledged interrupt's ID.
    pub fn interrupt_id(&self) -> (r: InterruptId)
        ensures
            r.spec_value() == self.bits_spec() & 0x3ff,
    {
        proof {
            crate::reg::lemma_low_mask_values();
            assert(forall|x: u64| #[trigger] (x & 0x3ffu64) <= 0x3ff) by (bit_vector);
            assert(forall|x: u64| (#[trigger] (x >> 0u64)) == x) by (bit_vector);
        }
        let value = self.field(0..=9);
        match InterruptId::try_from(value.as_usize()) {
            Ok(id) => id,
            Err(()) => {
                proof {
                    assert(false);
                }
                InterruptId::spurious()
            },
        }
    }
}

/// GICC_EOIR, the end-of-interrupt register. Writing the ID of a spurious
/// interrupt is ignored by the GIC, so the spurious ID is the safe initial
/// value.
#[allow(non_camel_case_types)]
pub struct GICC_EOIR;

impl RegisterSpec for GICC_EOIR {
    type Bits = u32;
}

impl RegisterWritable for GICC_EOIR {

}

impl RegisterInitial for GICC_EOIR {
    open spec fn initial_spec() -> u64 {
        0x3ff
    }

    fn initial_value() -> (r: u32) {
        0x3ff
    }
}

impl RegisterWriter<GICC_EOIR> {
    /// Writes back the whole word read from GICC_IAR.
    pub fn entire_iar(&mut self, iar: u32)
        ensures
            final(self).bits_spec() == iar as u64,
    {
        self.bits(iar)
    }
}

} // verus!
