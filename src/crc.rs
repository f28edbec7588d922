//! Incremental CRC-32 in its normal (MSB-first) and reversed (LSB-first) forms.
use vstd::prelude::*;

verus! {

pub const CRC_POLYNOMIAL_NORMAL: u32 = 0x04c11db7;
pub const CRC_POLYNOMIAL_REVERSED: u32 = 0xedb88320;

/// One bit of the LSB-first register update.
pub open spec fn shift_reversed(c: u32) -> u32 {
    if c & 1 == 1 {
        (c >> 1u32) ^ CRC_POLYNOMIAL_REVERSED
    } else {
        c >> 1u32
    }
}

/// One bit of the MSB-first register update.
pub open spec fn shift_normal(c: u32) -> u32 {
    if c & 0x8000_0000 != 0 {
        (c << 1u32) ^ CRC_POLYNOMIAL_NORMAL
    } else {
        c << 1u32
    }
}

/// `n` bit updates of the LSB-first register.
pub open spec fn shifts_reversed(c: u32, n: nat) -> u32
    decreases n,
{
    if n == 0 {
        c
    } else {
        shift_reversed(shifts_reversed(c, (n - 1) as nat))
    }
}

/// `n` bit updates of the MSB-first register.
pub open spec fn shifts_normal(c: u32, n: nat) -> u32
    decreases n,
{
    if n == 0 {
        c
    } else {
        shift_normal(shifts_normal(c, (n - 1) as nat))
    }
}

/// The lowest `n` bits of `x`, in reverse order, shifted in behind `acc`.
pub open spec fn reflect_bits(x: u32, acc: u32, n: nat) -> u32
    decreases n,
{
    if n == 0 {
        acc
    } else {
        reflect_bits(x >> 1u32, (acc << 1u32) | (x & 1), (n - 1) as nat)
    }
}

/// `x` with the order of its 32 bits reversed.
pub open spec fn reflect32(x: u32) -> u32 {
    reflect_bits(x, 0, 32)
}

/// `b` with the order of its 8 bits reversed.
pub open spec fn reflect8(b: u8) -> u8 {
    reflect_bits(b as u32, 0, 8) as u8
}

/// The register after one byte in the reversed form.
pub open spec fn step_reversed_spec(c: u32, b: u8) -> u32 {
    shifts_reversed(c ^ (b as u32), 8)
}

/// The register after one byte in the normal form.
pub open spec fn step_normal_spec(c: u32, b: u8, refin: bool) -> u32 {
    let input: u8 = if refin { reflect8(b) } else { b };
    shifts_normal(c ^ ((input as u32) << 24u32), 8)
}

/// The reversed-form register after the bytes of `s`, starting from `c`.
pub open spec fn crc_update(c: u32, s: Seq<u8>) -> u32
    decreases s.len(),
{
    if s.len() == 0 {
        c
    } else {
        step_reversed_spec(crc_update(c, s.drop_last()), s.last())
    }
}

/// The standard CRC-32 of `s`: seed all ones, reversed form, final complement.
pub open spec fn crc32(s: Seq<u8>) -> u32 {
    !crc_update(0xffff_ffff, s)
}

pub proof fn lemma_crc_update_push(c: u32, s: Seq<u8>, b: u8)
    ensures
        crc_update(c, s.push(b)) == step_reversed_spec(crc_update(c, s), b),
{
    assert(s.push(b).drop_last() =~= s);
}

pub proof fn lemma_crc_update_append(c: u32, a: Seq<u8>, b: Seq<u8>)
    ensures
        crc_update(c, a + b) == crc_update(crc_update(c, a), b),
    decreases b.len(),
{
    if b.len() == 0 {
        assert(a + b =~= a);
    } else {
        lemma_crc_update_append(c, a, b.drop_last());
        assert((a + b).drop_last() =~= a + b.drop_last());
        assert((a + b).last() == b.last());
    }
}

proof fn lemma_shift_reversed_xor(a: u32, b: u32)
    by (bit_vector)
    ensures
        ((if (a ^ b) & 1 == 1 { ((a ^ b) >> 1u32) ^ 0xedb88320u32 } else { (a ^ b) >> 1u32 })) == (
        if a & 1 == 1 { (a >> 1u32) ^ 0xedb88320u32 } else { a >> 1u32 }) ^ (if b & 1 == 1 {
            (b >> 1u32) ^ 0xedb88320u32
        } else {
            b >> 1u32
        }),
{
}

proof fn lemma_shift_reversed_nonzero(a: u32)
    by (bit_vector)
    requires
        a != 0,
    ensures
        (if a & 1 == 1 { (a >> 1u32) ^ 0xedb88320u32 } else { a >> 1u32 }) != 0,
{
}

/// The register update is linear: shifting a difference of registers gives
/// the difference of the shifted registers, and a nonzero difference stays
/// nonzero.
proof fn lemma_shifts_difference(a: u32, b: u32, n: nat)
    ensures
        shifts_reversed(a, n) ^ shifts_reversed(b, n) == shifts_reversed(a ^ b, n),
        a != b ==> shifts_reversed(a, n) != shifts_reversed(b, n),
    decreases n,
{
    if n > 0 {
        let m = (n - 1) as nat;
        lemma_shifts_difference(a, b, m);
        let x = shifts_reversed(a, m);
        let y = shifts_reversed(b, m);
        lemma_shift_reversed_xor(x, y);
        if a != b {
            assert(x ^ y != 0) by (bit_vector)
                requires
                    x != y,
            ;
            lemma_shift_reversed_nonzero(x ^ y);
            let sx = shift_reversed(x);
            let sy = shift_reversed(y);
            assert(sx ^ sy != 0 ==> sx != sy) by (bit_vector);
        }
    }
}

proof fn lemma_step_differs(c1: u32, c2: u32, b1: u8, b2: u8)
    requires
        c1 != c2 || b1 != b2,
        c1 == c2 || b1 == b2,
    ensures
        step_reversed_spec(c1, b1) != step_reversed_spec(c2, b2),
{
    let x = c1 ^ (b1 as u32);
    let y = c2 ^ (b2 as u32);
    assert(x != y) by (bit_vector)
        requires
            x == c1 ^ (b1 as u32),
            y == c2 ^ (b2 as u32),
            c1 != c2 || b1 != b2,
            c1 == c2 || b1 == b2,
    ;
    lemma_shifts_difference(x, y, 8);
}

/// Two messages of one length that differ in exactly one byte.
pub open spec fn differ_in_one_byte(a: Seq<u8>, b: Seq<u8>) -> bool {
    &&& a.len() == b.len()
    &&& exists|j: int|
        0 <= j < a.len() && #[trigger] a[j] != b[j] && forall|k: int|
            0 <= k < a.len() && k != j ==> a[k] == b[k]
}

proof fn lemma_crc_update_differs_at(c: u32, a: Seq<u8>, b: Seq<u8>, j: int)
    requires
        a.len() == b.len(),
        0 <= j < a.len(),
        a[j] != b[j],
        forall|k: int| 0 <= k < a.len() && k != j ==> a[k] == b[k],
    ensures
        crc_update(c, a) != crc_update(c, b),
    decreases a.len(),
{
    let pa = a.drop_last();
    let pb = b.drop_last();
    if j == a.len() - 1 {
        assert(pa =~= pb);
        lemma_step_differs(crc_update(c, pa), crc_update(c, pb), a.last(), b.last());
    } else {
        lemma_crc_update_differs_at(c, pa, pb, j);
        lemma_step_differs(crc_update(c, pa), crc_update(c, pb), a.last(), b.last());
    }
}

/// Changing any one byte of a message changes its CRC-32, so every
/// single-bit error is detected.
pub proof fn lemma_crc32_detects_one_byte(a: Seq<u8>, b: Seq<u8>)
    requires
        differ_in_one_byte(a, b),
    ensures
        crc32(a) != crc32(b),
{
    let j = choose|j: int|
        0 <= j < a.len() && #[trigger] a[j] != b[j] && forall|k: int|
            0 <= k < a.len() && k != j ==> a[k] == b[k];
    lemma_crc_update_differs_at(0xffff_ffff, a, b, j);
    let x = crc_update(0xffff_ffff, a);
    let y = crc_update(0xffff_ffff, b);
    assert(!x != !y) by (bit_vector)
        requires
            x != y,
    ;
}

/// Reverses the order of the bits of `x`.
pub(crate) fn reflect(x: u32, n: u32) -> (r: u32)
    requires
        n <= 32,
    ensures
        r == reflect_bits(x, 0, n as nat),
{
    let mut rest: u32 = x;
    let mut acc: u32 = 0;
    let mut i: u32 = 0;
    while i < n
        invariant
            i <= n,
            reflect_bits(rest, acc, (n - i) as nat) == reflect_bits(x, 0, n as nat),
        decreases n - i,
    {
        acc = (acc << 1u32) | (rest & 1);
        rest = rest >> 1u32;
        i = i + 1;
    }
    acc
}

pub struct Crc32Context {
    crc: u32,
    /// Reversed or normal form.
    reversed: bool,
    refin: bool,
    refout: bool,
}

impl Crc32Context {
    /// The register.
    pub closed spec fn register(&self) -> u32 {
        self.crc
    }

    pub closed spec fn is_reversed(&self) -> bool {
        self.reversed
    }

    /// Whether each input byte is bit-reflected (normal form only).
    pub closed spec fn reflects_input(&self) -> bool {
        self.refin
    }

    /// Whether the register is bit-reflected before the final complement.
    pub closed spec fn reflects_output(&self) -> bool {
        self.refout
    }

    pub fn new(crc: u32, reversed: bool, refin: bool, refout: bool) -> (r: Self)
        ensures
            r.register() == crc,
            r.is_reversed() == reversed,
            r.reflects_input() == refin,
            r.reflects_output() == refout,
    {
        Crc32Context { crc: crc, reversed: reversed, refin: refin, refout: refout }
    }

    fn step_normal(&mut self, byte: u8)
        ensures
            final(self).crc == step_normal_spec(old(self).crc, byte, old(self).refin),
            final(self).reversed == old(self).reversed,
            final(self).refin == old(self).refin,
            final(self).refout == old(self).refout,
    {
        let input: u8 = if self.refin {
            reflect(byte as u32, 8) as u8
        } else {
            byte
        };
        self.crc = self.crc ^ ((input as u32) << 24u32);
        let ghost start = self.crc;
        let mut i: u32 = 0;
        while i < 8
            invariant
                i <= 8,
                self.crc == shifts_normal(start, i as nat),
                self.reversed == old(self).reversed,
                self.refin == old(self).refin,
                self.refout == old(self).refout,
            decreases 8 - i,
        {
            if self.crc & 0x8000_0000 != 0 {
                self.crc = (self.crc << 1u32) ^ CRC_POLYNOMIAL_NORMAL;
            } else {
                self.crc = self.crc << 1u32;
            }
            i = i + 1;
        }
    }

    fn step_reversed(&mut self, byte: u8)
        ensures
            final(self).crc == step_reversed_spec(old(self).crc, byte),
            final(self).reversed == old(self).reversed,
            final(self).refin == old(self).refin,
            final(self).refout == old(self).refout,
    {
        self.crc = self.crc ^ (byte as u32);
        let ghost start = self.crc;
        let mut i: u32 = 0;
        while i < 8
            invariant
                i <= 8,
                self.crc == shifts_reversed(start, i as nat),
                self.reversed == old(self).reversed,
                self.refin == old(self).refin,
                self.refout == old(self).refout,
            decreases 8 - i,
        {
            if self.crc & 1 == 1 {
                self.crc = (self.crc >> 1u32) ^ CRC_POLYNOMIAL_REVERSED;
            } else {
                self.crc = self.crc >> 1u32;
            }
            i = i + 1;
        }
    }

    pub fn step(&mut self, byte: u8)
        ensures
            final(self).register() == if old(self).is_reversed() {
                step_reversed_spec(old(self).register(), byte)
            } else {
                step_normal_spec(old(self).register(), byte, old(self).reflects_input())
            },
            final(self).is_reversed() == old(self).is_reversed(),
            final(self).reflects_input() == old(self).reflects_input(),
            final(self).reflects_output() == old(self).reflects_output(),
    {
        if self.reversed {
            self.step_reversed(byte);
        } else {
            self.step_normal(byte);
        }
    }

    pub fn finalize(&self) -> (r: u32)
        ensures
            r == !(if self.reflects_output() {
                reflect32(self.register())
            } else {
                self.register()
            }),
    {
        let crc: u32 = if self.refout {
            reflect(self.crc, 32)
        } else {
            self.crc
        };
        !crc
    }
}

} // verus!
