//! The NZCV system register: the four condition flags.

use vstd::prelude::*;

verus! {

use crate::reg::{
    bit_set,
    RegisterReadable,
    RegisterReader,
    RegisterSpec,
    RegisterWritable,
    RegisterWriter,
};

pub struct NZCV;

impl RegisterSpec for NZCV {
    type Bits = u64;
}

impl RegisterReadable for NZCV {

}

impl RegisterWritable for NZCV {

}

impl RegisterReader<NZCV> {
    /// The negative flag.
    pub fn n(&self) -> (r: bool)
        ensures
            r == ((self.bits_spec() >> 31) & 1 == 1),
    {
        self.bit(31)
    }

    /// The zero flag.
    pub fn z(&self) -> (r: bool)
        ensures
            r == ((self.bits_spec() >> 30) & 1 == 1),
    {
        self.bit(30)
    }

    /// The carry flag.
    pub fn c(&self) -> (r: bool)
        ensures
            r == ((self.bits_spec() >> 29) & 1 == 1),
    {
        self.bit(29)
    }

    /// The overflow flag.
    pub fn v(&self) -> (r: bool)
        ensures
            r == ((self.bits_spec() >> 28) & 1 == 1),
    {
        self.bit(28)
    }
}

impl RegisterWriter<NZCV> {
    pub fn n(&mut self, n: bool)
        ensures
            final(self).bits_spec() == bit_set(old(self).bits_spec(), 31, 64, n),
    {
        self.bit(31, n)
    }

    pub fn z(&mut self, z: bool)
        ensures
            final(self).bits_spec() == bit_set(old(self).bits_spec(), 30, 64, z),
    {
        self.bit(30, z)
    }

    pub fn c(&mut self, c: bool)
        ensures
            final(self).bits_spec() == bit_set(old(self).bits_spec(), 29, 64, c),
    {
        self.bit(29, c)
    }

    pub fn v(&mut self, v: bool)
        ensures
            final(self).bits_spec() == bit_set(old(self).bits_spec(), 28, 64, v),
    {
        self.bit(28, v)
    }
}

} // verus!
