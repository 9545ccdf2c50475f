//! Code-point iteration over UTF-8 bytes.
//!
//! The per-character index is keyed by code points, not grapheme clusters,
//! so the builder needs to walk the UTF-8 encoding of interned strings.  The
//! decoding is specified here as a total function on byte strings; on the
//! valid UTF-8 the pool holds it yields the scalar values in order, and on
//! malformed input it falls back to the replacement character.

use vstd::prelude::*;

verus! {

/// The replacement code point emitted for malformed input.
pub const REPLACEMENT: u32 = 0xFFFD;

/// Length in bytes of the UTF-8 sequence introduced by `b0`.  A stray
/// continuation byte counts as a one-byte sequence.
pub open spec fn utf8_len(b0: u8) -> int {
    if b0 < 0xC0 {
        1
    } else if b0 < 0xE0 {
        2
    } else if b0 < 0xF0 {
        3
    } else {
        4
    }
}

/// The code point of one complete UTF-8 sequence `b` (1 to 4 bytes, as
/// given by [`utf8_len`] of its first byte).
pub open spec fn utf8_cp(b: Seq<u8>) -> u32 {
    if b.len() == 1 {
        if b[0] < 0x80 {
            b[0] as u32
        } else {
            REPLACEMENT
        }
    } else if b.len() == 2 {
        (((b[0] & 0x1F) as u32) << 6) | ((b[1] & 0x3F) as u32)
    } else if b.len() == 3 {
        (((b[0] & 0x0F) as u32) << 12) | (((b[1] & 0x3F) as u32) << 6) | ((b[2] & 0x3F) as u32)
    } else {
        (((b[0] & 0x07) as u32) << 18) | (((b[1] & 0x3F) as u32) << 12) | (((b[2] & 0x3F) as u32)
            << 6) | ((b[3] & 0x3F) as u32)
    }
}

/// All code points of `b`, in order.  A sequence truncated at the end of
/// the input yields one replacement code point.
pub open spec fn utf8_cps(b: Seq<u8>) -> Seq<u32>
    decreases b.len(),
{
    if b.len() == 0 {
        Seq::empty()
    } else {
        let n = utf8_len(b[0]);
        if b.len() < n {
            seq![REPLACEMENT]
        } else {
            seq![utf8_cp(b.take(n))] + utf8_cps(b.skip(n))
        }
    }
}

/// Decodes `b` into its sequence of code points.
pub fn utf8_decode(b: &Vec<u8>) -> (r: Vec<u32>)
    ensures
        r@ == utf8_cps(b@),
{
    let mut out: Vec<u32> = Vec::new();
    let mut i: usize = 0;
    proof {
        assert(b@.skip(0) =~= b@);
    }
    while i < b.len()
        invariant
            i <= b.len(),
            utf8_cps(b@) == out@ + utf8_cps(b@.skip(i as int)),
        decreases b.len() - i,
    {
        let b0 = b[i];
        let n: usize = if b0 < 0xC0 {
            1
        } else if b0 < 0xE0 {
            2
        } else if b0 < 0xF0 {
            3
        } else {
            4
        };
        let ghost rest = b@.skip(i as int);
        proof {
            assert(rest[0] == b@[i as int]);
            assert(n as int == utf8_len(rest[0]));
        }
        if b.len() - i < n {
            out.push(REPLACEMENT);
            proof {
                assert(utf8_cps(rest) =~= seq![REPLACEMENT]);
                assert(out@ =~= utf8_cps(b@));
                assert(b@.skip(b@.len() as int) =~= Seq::<u8>::empty());
            }
            i = b.len();
        } else {
            let cp: u32 = if b0 < 0x80 {
                b0 as u32
            } else if b0 < 0xC0 {
                REPLACEMENT
            } else if b0 < 0xE0 {
                (((b0 & 0x1F) as u32) << 6) | ((b[i + 1] & 0x3F) as u32)
            } else if b0 < 0xF0 {
                (((b0 & 0x0F) as u32) << 12) | (((b[i + 1] & 0x3F) as u32) << 6) | ((b[i + 2]
                    & 0x3F) as u32)
            } else {
                (((b0 & 0x07) as u32) << 18) | (((b[i + 1] & 0x3F) as u32) << 12) | (((b[i + 2]
                    & 0x3F) as u32) << 6) | ((b[i + 3] & 0x3F) as u32)
            };
            proof {
                let head = rest.take(n as int);
                assert(head.len() == n);
                assert(head[0] == b@[i as int]);
                assert(n >= 2 ==> head[1] == b@[i as int + 1]);
                assert(n >= 3 ==> head[2] == b@[i as int + 2]);
                assert(n >= 4 ==> head[3] == b@[i as int + 3]);
                assert(cp == utf8_cp(head));
                assert(rest.skip(n as int) =~= b@.skip(i as int + n as int));
                assert(utf8_cps(rest) == seq![cp] + utf8_cps(b@.skip(i as int + n as int)));
                assert(out@.push(cp) + utf8_cps(b@.skip(i as int + n as int)) =~= out@ + utf8_cps(
                    rest,
                ));
            }
            out.push(cp);
            i = i + n;
        }
    }
    proof {
        assert(b@.skip(i as int) =~= Seq::<u8>::empty());
        assert(out@ =~= utf8_cps(b@));
    }
    out
}

} // verus!
