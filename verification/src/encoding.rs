//! Checking whether the pending output bytes already form a complete,
//! well-formed UTF-8 encoding.  The specification is `vstd::utf8`'s notion
//! of a valid encoding: a sequence of well-formed scalar encodings, with
//! overlong forms and surrogates excluded.

use vstd::prelude::*;

use vstd::utf8::{
    decode_first_codepoint, is_continuation_byte, is_leading_byte_width_1,
    is_leading_byte_width_2, is_leading_byte_width_3, is_leading_byte_width_4,
    length_of_first_codepoint, not_overlong_encoding, not_surrogate,
    valid_first_scalar, valid_leading_and_continuation_bytes_first_codepoint, valid_utf8,
};

verus! {

/// Whether the bytes are a complete valid UTF-8 encoding, by one pass that
/// checks each scalar's leading byte, continuation bytes, value range and
/// non-overlong form.
pub fn check_utf8(bytes: &Vec<u8>) -> (r: bool)
    ensures
        r == valid_utf8(bytes@),
{
    let n = bytes.len();
    let mut i: usize = 0;
    assert(bytes@.skip(0) =~= bytes@);
    while i < n
        invariant
            i <= n == bytes@.len(),
            valid_utf8(bytes@) == valid_utf8(bytes@.skip(i as int)),
        decreases n - i,
    {
        let ghost t = bytes@.skip(i as int);
        assert(t[0] == bytes@[i as int]);
        let b0 = bytes[i];
        let width: usize;
        if b0 < 0x80 {
            proof {
                assert((b0 & 0x7f) as u32 <= 0x7f) by (bit_vector);
                assert(valid_first_scalar(t));
            }
            width = 1;
        } else if 0xc0 <= b0 && b0 <= 0xdf {
            if n - i < 2 {
                proof {
                    assert(!valid_leading_and_continuation_bytes_first_codepoint(t));
                }
                return false;
            }
            let b1 = bytes[i + 1];
            assert(t[1] == bytes@[i as int + 1]);
            if !(0x80 <= b1 && b1 <= 0xbf) {
                proof {
                    assert(!valid_leading_and_continuation_bytes_first_codepoint(t));
                }
                return false;
            }
            let cp: u32 = (((b0 & 0x1f) as u32) << 6u32) | ((b1 & 0x3f) as u32);
            if cp < 0x80 {
                proof {
                    assert(!not_overlong_encoding(decode_first_codepoint(t), 2));
                }
                return false;
            }
            proof {
                assert((((b0 & 0x1f) as u32) << 6u32) | ((b1 & 0x3f) as u32) <= 0x7ff)
                    by (bit_vector);
                assert(valid_first_scalar(t));
            }
            width = 2;
        } else if 0xe0 <= b0 && b0 <= 0xef {
            if n - i < 3 {
                proof {
                    assert(!valid_leading_and_continuation_bytes_first_codepoint(t));
                }
                return false;
            }
            let b1 = bytes[i + 1];
            let b2 = bytes[i + 2];
            assert(t[1] == bytes@[i as int + 1] && t[2] == bytes@[i as int + 2]);
            if !(0x80 <= b1 && b1 <= 0xbf) || !(0x80 <= b2 && b2 <= 0xbf) {
                proof {
                    assert(!valid_leading_and_continuation_bytes_first_codepoint(t));
                }
                return false;
            }
            let cp: u32 = (((b0 & 0x0f) as u32) << 12u32) | (((b1 & 0x3f) as u32) << 6u32) | ((b2
                & 0x3f) as u32);
            if cp < 0x800 || (0xd800 <= cp && cp <= 0xdfff) {
                proof {
                    assert(!not_overlong_encoding(decode_first_codepoint(t), 3) || !not_surrogate(
                        decode_first_codepoint(t),
                    ));
                }
                return false;
            }
            proof {
                assert(valid_first_scalar(t));
            }
            width = 3;
        } else if 0xf0 <= b0 && b0 <= 0xf7 {
            if n - i < 4 {
                proof {
                    assert(!valid_leading_and_continuation_bytes_first_codepoint(t));
                }
                return false;
            }
            let b1 = bytes[i + 1];
            let b2 = bytes[i + 2];
            let b3 = bytes[i + 3];
            assert(t[1] == bytes@[i as int + 1] && t[2] == bytes@[i as int + 2]);
            assert(t[3] == bytes@[i as int + 3]);
            if !(0x80 <= b1 && b1 <= 0xbf) || !(0x80 <= b2 && b2 <= 0xbf) || !(0x80 <= b3 && b3
                <= 0xbf) {
                proof {
                    assert(!valid_leading_and_continuation_bytes_first_codepoint(t));
                }
                return false;
            }
            let cp: u32 = (((b0 & 0x07) as u32) << 18u32) | (((b1 & 0x3f) as u32) << 12u32) | (((b2
                & 0x3f) as u32) << 6u32) | ((b3 & 0x3f) as u32);
            if cp < 0x10000 || cp > 0x10ffff {
                proof {
                    assert(!not_overlong_encoding(decode_first_codepoint(t), 4));
                }
                return false;
            }
            proof {
                assert(valid_first_scalar(t));
            }
            width = 4;
        } else {
            proof {
                assert(!is_leading_byte_width_1(b0) && !is_leading_byte_width_2(b0)
                    && !is_leading_byte_width_3(b0) && !is_leading_byte_width_4(b0));
                assert(!valid_leading_and_continuation_bytes_first_codepoint(t));
            }
            return false;
        }
        proof {
            assert(length_of_first_codepoint(t) == width);
            assert(vstd::utf8::pop_first_scalar(t) =~= bytes@.skip(i as int + width));
        }
        i = i + width;
    }
    assert(bytes@.skip(i as int) =~= Seq::<u8>::empty());
    true
}

} // verus!
