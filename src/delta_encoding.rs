//! Variable-width encoding of signed basis-point deltas behind a 2-bit tag.

use vstd::prelude::*;
use crate::types::CodecError;
use crate::wire::{le_u32, read_u32, push_u32, get_u32, lemma_read_u32};

verus! {

/// A basis-point delta in one of three widths.
#[derive(Debug, Clone, Copy, PartialEq, Eq, Structural)]
pub enum DeltaEncoding {
    /// Tag `00`, a signed 4-bit value in one byte.
    Tiny(i8),
    /// Tag `01`, a signed 14-bit value in two bytes.
    Small(i16),
    /// Tag `11`, a full `i32` in five bytes.
    Large(i32),
}

/// Sign extension of the low four bits of a byte.
pub open spec fn sign_extend4(b: u8) -> i8 {
    let v = (b & 0x0F) as int;
    if v > 7 {
        (v - 16) as i8
    } else {
        v as i8
    }
}

/// Sign extension of the 14-bit value whose low six bits are those of `lo`
/// and whose high eight bits are `hi`.
pub open spec fn sign_extend14(lo: u8, hi: u8) -> i16 {
    let v = (hi as int) * 64 + ((lo & 0x3F) as int);
    if v > 8191 {
        (v - 16384) as i16
    } else {
        v as i16
    }
}

/// The frame that starts at `pos`, with the position after it; `None` where
/// the buffer ends before the frame does.
pub open spec fn decode_at(buf: Seq<u8>, pos: int) -> Option<(DeltaEncoding, int)> {
    if pos < 0 || pos >= buf.len() {
        None
    } else {
        let first = buf[pos];
        if first >> 6 == 0 {
            Some((DeltaEncoding::Tiny(sign_extend4(first)), pos + 1))
        } else if first >> 6 == 1 {
            if pos + 2 > buf.len() {
                None
            } else {
                Some((DeltaEncoding::Small(sign_extend14(first, buf[pos + 1])), pos + 2))
            }
        } else {
            if pos + 5 > buf.len() {
                None
            } else {
                Some((DeltaEncoding::Large(read_u32(buf, pos + 1) as i32), pos + 5))
            }
        }
    }
}

impl DeltaEncoding {
    /// The narrowest variant that holds `bp`.
    pub open spec fn spec_from_basis(bp: i32) -> DeltaEncoding {
        if -8 <= bp <= 7 {
            DeltaEncoding::Tiny(bp as i8)
        } else if -8192 <= bp <= 8191 {
            DeltaEncoding::Small(bp as i16)
        } else {
            DeltaEncoding::Large(bp)
        }
    }

    /// The basis-point value carried.
    pub open spec fn value(self) -> i32 {
        match self {
            DeltaEncoding::Tiny(v) => v as i32,
            DeltaEncoding::Small(v) => v as i32,
            DeltaEncoding::Large(v) => v,
        }
    }

    /// Whether the value lies in the range of its variant.
    pub open spec fn in_range(self) -> bool {
        match self {
            DeltaEncoding::Tiny(v) => -8 <= v <= 7,
            DeltaEncoding::Small(v) => -8192 <= v <= 8191,
            DeltaEncoding::Large(_) => true,
        }
    }

    /// The frame's bytes.
    pub open spec fn frame(self) -> Seq<u8> {
        match self {
            DeltaEncoding::Tiny(v) => seq![(v as u8) & 0x0F],
            DeltaEncoding::Small(v) => seq![0x40u8 | ((v as u8) & 0x3F), (v >> 6) as u8],
            DeltaEncoding::Large(v) => seq![0xC0u8] + le_u32(v as u32),
        }
    }

    /// Chooses the narrowest variant that holds `bp`; every `i32` has one.
    pub fn from_basis(bp: i32) -> (r: Result<Self, CodecError>)
        ensures
            r == Ok::<DeltaEncoding, CodecError>(Self::spec_from_basis(bp)),
    {
        if bp >= -8 && bp <= 7 {
            Ok(DeltaEncoding::Tiny(bp as i8))
        } else if bp >= -8192 && bp <= 8191 {
            Ok(DeltaEncoding::Small(bp as i16))
        } else {
            Ok(DeltaEncoding::Large(bp))
        }
    }

    /// The basis-point value carried.
    pub fn to_basis(&self) -> (r: i32)
        ensures
            r == self.value(),
    {
        match self {
            DeltaEncoding::Tiny(v) => *v as i32,
            DeltaEncoding::Small(v) => *v as i32,
            DeltaEncoding::Large(v) => *v,
        }
    }

    /// Appends the frame to `buf`.
    pub fn encode(&self, buf: &mut Vec<u8>)
        ensures
            final(buf)@ == old(buf)@ + self.frame(),
    {
        match self {
            DeltaEncoding::Tiny(v) => {
                buf.push((*v as u8) & 0x0F);
                assert(final(buf)@ =~= old(buf)@ + self.frame());
            },
            DeltaEncoding::Small(v) => {
                buf.push(0x40u8 | ((*v as u8) & 0x3F));
                buf.push((*v >> 6) as u8);
                assert(final(buf)@ =~= old(buf)@ + self.frame());
            },
            DeltaEncoding::Large(v) => {
                buf.push(0xC0u8);
                push_u32(buf, *v as u32);
                assert(final(buf)@ =~= old(buf)@ + self.frame());
            },
        }
    }

    /// Reads the frame at `*pos` and advances `*pos` past it; fails with
    /// `DeltaUnderrun`, leaving `*pos` alone, where the buffer ends first.
    pub fn decode(buf: &[u8], pos: &mut usize) -> (r: Result<Self, CodecError>)
        ensures
            match decode_at(buf@, *old(pos) as int) {
                Some((e, next)) => r == Ok::<DeltaEncoding, CodecError>(e) && *final(pos) == next,
                None => r == Err::<DeltaEncoding, CodecError>(CodecError::DeltaUnderrun)
                    && *final(pos) == *old(pos),
            },
    {
        if *pos >= buf.len() {
            return Err(CodecError::DeltaUnderrun);
        }
        let first = buf[*pos];
        let pre = first >> 6;
        if pre == 0 {
            let low = first & 0x0F;
            assert(low <= 15) by (bit_vector)
                requires
                    low == first & 0x0F,
            ;
            let v: i8 = if low > 7 {
                low as i8 - 16
            } else {
                low as i8
            };
            *pos = *pos + 1;
            Ok(DeltaEncoding::Tiny(v))
        } else if pre == 1 {
            if buf.len() - *pos < 2 {
                return Err(CodecError::DeltaUnderrun);
            }
            assert(first & 0x3F <= 63) by (bit_vector);
            let low = (first & 0x3F) as i32;
            let high = buf[*pos + 1] as i32;
            let v: i32 = high * 64 + low;
            let v: i16 = if v > 8191 {
                (v - 16384) as i16
            } else {
                v as i16
            };
            *pos = *pos + 2;
            Ok(DeltaEncoding::Small(v))
        } else {
            if buf.len() - *pos < 5 {
                return Err(CodecError::DeltaUnderrun);
            }
            let v = #[verifier::truncate] (get_u32(buf, *pos + 1) as i32);
            *pos = *pos + 5;
            Ok(DeltaEncoding::Large(v))
        }
    }
}

/// A frame of an in-range delta decodes back to that delta.
pub proof fn lemma_decode_frame(e: DeltaEncoding, buf: Seq<u8>, pos: int)
    requires
        e.in_range(),
        0 <= pos,
        pos + e.frame().len() <= buf.len(),
        buf.subrange(pos, pos + e.frame().len()) == e.frame(),
    ensures
        decode_at(buf, pos) == Some((e, pos + e.frame().len())),
{
    let f = e.frame();
    assert(buf[pos] == f[0]);
    match e {
        DeltaEncoding::Tiny(v) => {
            let b = (v as u8) & 0x0F;
            assert(-8 <= v <= 7 ==> b >> 6 == 0) by (bit_vector)
                requires
                    b == (v as u8) & 0x0F,
            ;
            assert(-8 <= v <= 7 ==> sign_extend4(b) == v) by (bit_vector)
                requires
                    b == (v as u8) & 0x0F,
            ;
        },
        DeltaEncoding::Small(v) => {
            let b0 = 0x40u8 | ((v as u8) & 0x3F);
            let b1 = (v >> 6) as u8;
            assert(buf[pos + 1] == f[1]);
            assert(b0 >> 6 == 1) by (bit_vector)
                requires
                    b0 == 0x40u8 | ((v as u8) & 0x3F),
            ;
            assert(-8192 <= v <= 8191 ==> sign_extend14(b0, b1) == v) by (bit_vector)
                requires
                    b0 == 0x40u8 | ((v as u8) & 0x3F),
                    b1 == (v >> 6) as u8,
            ;
        },
        DeltaEncoding::Large(v) => {
            let b0 = 0xC0u8;
            assert(b0 >> 6 == 3) by (bit_vector)
                requires
                    b0 == 0xC0u8,
            ;
            assert(buf.subrange(pos + 1, pos + 5) =~= f.subrange(1, 5));
            assert(f.subrange(1, 5) =~= le_u32(v as u32));
            lemma_read_u32(buf, pos + 1, v as u32);
            assert((v as u32) as i32 == v) by (bit_vector);
        },
    }
}

} // verus!
