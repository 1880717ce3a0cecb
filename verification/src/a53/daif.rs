//! The DAIF system register: the four interrupt mask bits.

use vstd::prelude::*;

verus! {

use crate::reg::{
    bit_set,
    RegisterInitial,
    RegisterReadable,
    RegisterReader,
    RegisterSpec,
    RegisterWritable,
    RegisterWriter,
};

pub struct DAIF;

impl RegisterSpec for DAIF {
    type Bits = u64;
}

impl RegisterReadable for DAIF {

}

impl RegisterWritable for DAIF {

}

impl RegisterInitial for DAIF {
    open spec fn initial_spec() -> u64 {
        0x3c0
    }

    fn initial_value() -> (r: u64) {
        0x3c0
    }
}

impl RegisterReader<DAIF> {
    /// The debug-exception mask bit.
    pub fn d(&self) -> (r: bool)
        ensures
            r == ((self.bits_spec() >> 9) & 1 == 1),
    {
        self.bit(9)
    }

    /// The SError mask bit.
    pub fn a(&self) -> (r: bool)
        ensures
            r == ((self.bits_spec() >> 8) & 1 == 1),
    {
        self.bit(8)
    }

    /// The IRQ mask bit.
    pub fn i(&self) -> (r: bool)
        ensures
            r == ((self.bits_spec() >> 7) & 1 == 1),
    {
        self.bit(7)
    }

    /// The FIQ mask bit.
    pub fn f(&self) -> (r: bool)
        ensures
            r == ((self.bits_spec() >> 6) & 1 == 1),
    {
        self.bit(6)
    }
}

impl RegisterWriter<DAIF> {
    pub fn d(&mut self, d: bool)
        ensures
            final(self).bits_spec() == bit_set(old(self).bits_spec(), 9, 64, d),
    {
        self.bit(9, d)
    }

    pub fn a(&mut self, a: bool)
        ensures
            final(self).bits_spec() == bit_set(old(self).bits_spec(), 8, 64, a),
    {
        self.bit(8, a)
    }

    pub fn i(&mut self, i: bool)
        ensures
            final(self).bits_spec() == bit_set(old(self).bits_spec(), 7, 64, i),
    {
        self.bit(7, i)
    }

    pub fn f(&mut self, f: bool)
        ensures
            final(self).bits_spec() == bit_set(old(self).bits_spec(), 6, 64, f),
    {
        self.bit(6, f)
    }
}

} // verus!
