//! CRC-32 context that always starts from the standard all-ones seed.
use vstd::prelude::*;
use crate::crc::{reflect, reflect32, step_normal_spec, step_reversed_spec};

verus! {

pub const CRC_REVERSED: bool = true;
pub const CRC_REFIN: bool = false;
pub const CRC_REFOUT: bool = false;
pub const CRC_SEED: u32 = 0xffffffff;
pub const CRC_POLYNOMIAL_NORMAL: u32 = 0x04c11db7;
pub const CRC_POLYNOMIAL_REVERSED: u32 = 0xedb88320;

pub struct Crc32Context {
    crc: u32,
    /// Reversed or normal form.
    reversed: bool,
    refin: bool,
    refout: bool,
}

impl Crc32Context {
    /// The register.
    pub closed spec fn register(&self) -> u32 {
        self.crc
    }

    pub closed spec fn is_reversed(&self) -> bool {
        self.reversed
    }

    /// Whether each input byte is bit-reflected (normal form only).
    pub closed spec fn reflects_input(&self) -> bool {
        self.refin
    }

    /// Whether the register is bit-reflected before the final complement.
    pub closed spec fn reflects_output(&self) -> bool {
        self.refout
    }

    fn step_normal(&mut self, byte: u8)
        ensures
            final(self).crc == step_normal_spec(old(self).crc, byte, old(self).refin),
            final(self).reversed == old(self).reversed,
            final(self).refin == old(self).refin,
            final(self).refout == old(self).refout,
    {
        let input: u8 = if self.refin {
            reflect(byte as u32, 8) as u8
        } else {
            byte
        };
        self.crc = self.crc ^ ((input as u32) << 24u32);
        let ghost start = self.crc;
        let mut i: u32 = 0;
        while i < 8
            invariant
                i <= 8,
                self.crc == crate::crc::shifts_normal(start, i as nat),
                self.reversed == old(self).reversed,
                self.refin == old(self).refin,
                self.refout == old(self).refout,
            decreases 8 - i,
        {
            if self.crc & 0x8000_0000 != 0 {
                self.crc = (self.crc << 1u32) ^ CRC_POLYNOMIAL_NORMAL;
            } else {
                self.crc = self.crc << 1u32;
            }
            i = i + 1;
        }
    }

    fn step_reversed(&mut self, byte: u8)
        ensures
            final(self).crc == step_reversed_spec(old(self).crc, byte),
            final(self).reversed == old(self).reversed,
            final(self).refin == old(self).refin,
            final(self).refout == old(self).refout,
    {
        self.crc = self.crc ^ (byte as u32);
        let ghost start = self.crc;
        let mut i: u32 = 0;
        while i < 8
            invariant
                i <= 8,
                self.crc == crate::crc::shifts_reversed(start, i as nat),
                self.reversed == old(self).reversed,
                self.refin == old(self).refin,
                self.refout == old(self).refout,
            decreases 8 - i,
        {
            if self.crc & 1 == 1 {
                self.crc = (self.crc >> 1u32) ^ CRC_POLYNOMIAL_REVERSED;
            } else {
                self.crc = self.crc >> 1u32;
            }
            i = i + 1;
        }
    }
}

impl Crc32Context {
    pub fn new(reversed: bool, refin: bool, refout: bool) -> (r: Self)
        ensures
            r.register() == CRC_SEED,
            r.is_reversed() == reversed,
            r.reflects_input() == refin,
            r.reflects_output() == refout,
    {
        Crc32Context { crc: CRC_SEED, reversed: reversed, refin: refin, refout: refout }
    }

    pub fn step(&mut self, byte: u8)
        ensures
            final(self).register() == if old(self).is_reversed() {
                step_reversed_spec(old(self).register(), byte)
            } else {
                step_normal_spec(old(self).register(), byte, old(self).reflects_input())
            },
            final(self).is_reversed() == old(self).is_reversed(),
            final(self).reflects_input() == old(self).reflects_input(),
            final(self).reflects_output() == old(self).reflects_output(),
    {
        if self.reversed {
            self.step_reversed(byte);
        } else {
            self.step_normal(byte);
        }
    }

    pub fn finalize(&self) -> (r: u32)
        ensures
            r == !(if self.reflects_output() {
                reflect32(self.register())
            } else {
                self.register()
            }),
    {
        let crc: u32 = if self.refout {
            reflect(self.crc, 32)
        } else {
            self.crc
        };
        !crc
    }
}

} // verus!
