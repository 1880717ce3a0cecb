//! Bit layout of the PL011 UART's data register.

use vstd::prelude::*;

verus! {

use crate::reg::{
    field_set,
    RegisterInitial,
    RegisterReadable,
    RegisterReader,
    RegisterSpec,
    RegisterWritable,
    RegisterWriter,
};

/// UARTDR, the data register.
pub struct UARTDR;

impl RegisterSpec for UARTDR {
    type Bits = u32;
}

impl RegisterReadable for UARTDR {

}

impl RegisterWritable for UARTDR {

}

impl RegisterInitial for UARTDR {
    open spec fn initial_spec() -> u64 {
        0
    }

    fn initial_value() -> (r: u32) {
        0
    }
}

impl RegisterReader<UARTDR> {
    /// The received byte.
    pub fn data(&self) -> (r: u8)
        ensures
            r as u64 == self.bits_spec() & 0xff,
    {
        proof {
            crate::reg::lemma_low_mask_values();
            assert(forall|x: u64| #[trigger] (x & 0xffu64) <= 0xff) by (bit_vector);
            assert(forall|x: u64| (#[trigger] (x >> 0u64)) == x) by (bit_vector);
        }
        let value = self.field(0..=7);
        value as u8
    }
}

impl RegisterWriter<UARTDR> {
    /// The byte to transmit.
    pub fn data(&mut self, data: u8)
        ensures
            final(self).bits_spec() == field_set(old(self).bits_spec(), 0, 8, 32, data as u64),
    {
        self.field(0..=7, data as u32)
    }
}

} // verus!
