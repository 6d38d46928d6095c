//! UTF-8 validation.
//!
//! Text content is stored in the heap region as raw bytes; decoding
//! validates that those bytes are well-formed UTF-8.  The checker is
//! verified against the reference definition `vstd::utf8::valid_utf8`.

use vstd::prelude::*;

use vstd::utf8::valid_utf8;
use vstd::utf8::valid_first_scalar;
use vstd::utf8::valid_leading_and_continuation_bytes_first_codepoint;
use vstd::utf8::decode_first_codepoint;
use vstd::utf8::length_of_first_codepoint;
use vstd::utf8::pop_first_scalar;

verus! {

/// Whether `bytes` is a well-formed UTF-8 encoding.
#[verifier::loop_isolation(false)]
pub fn is_utf8(bytes: &[u8]) -> (r: bool)
    ensures
        r == valid_utf8(bytes@),
{
    let len: usize = bytes.len();
    proof {
        assert(bytes@.skip(0) =~= bytes@);
    }
    let mut i: usize = 0;
    while i < len
        invariant
            i <= len,
            valid_utf8(bytes@) == valid_utf8(bytes@.skip(i as int)),
        decreases len - i,
    {
        let ghost s = bytes@.skip(i as int);
        proof {
            assert(s.len() == len - i);
            assert forall|k: int| 0 <= k < s.len() implies s[k] == bytes@[i + k] by {}
        }
        let b0 = bytes[i];
        let l: usize;
        if b0 < 0x80 {
            proof {
                assert(valid_first_scalar(s));
                assert(length_of_first_codepoint(s) == 1);
            }
            l = 1;
        } else if 0xc0 <= b0 && b0 <= 0xdf {
            if len - i < 2 || !(0x80 <= bytes[i + 1] && bytes[i + 1] <= 0xbf) {
                proof {
                    assert(!valid_leading_and_continuation_bytes_first_codepoint(s));
                }
                return false;
            }
            let b1 = bytes[i + 1];
            let cp: u32 = (((b0 & 0x1f) as u32) << 6) | ((b1 & 0x3f) as u32);
            if cp < 0x80 {
                proof {
                    assert(decode_first_codepoint(s) == cp);
                    assert(!valid_first_scalar(s));
                }
                return false;
            }
            proof {
                assert(decode_first_codepoint(s) == cp);
                assert(cp < 0xD800) by (bit_vector)
                    requires
                        cp == (((b0 & 0x1f) as u32) << 6) | ((b1 & 0x3f) as u32),
                ;
                assert(valid_first_scalar(s));
                assert(length_of_first_codepoint(s) == 2);
            }
            l = 2;
        } else if 0xe0 <= b0 && b0 <= 0xef {
            if len - i < 3 || !(0x80 <= bytes[i + 1] && bytes[i + 1] <= 0xbf) || !(0x80 <= bytes[i
                + 2] && bytes[i + 2] <= 0xbf) {
                proof {
                    assert(!valid_leading_and_continuation_bytes_first_codepoint(s));
                }
                return false;
            }
            let b1 = bytes[i + 1];
            let b2 = bytes[i + 2];
            let cp: u32 = (((b0 & 0x0f) as u32) << 12) | (((b1 & 0x3f) as u32) << 6) | ((b2
                & 0x3f) as u32);
            if cp < 0x800 || (0xD800 <= cp && cp <= 0xDFFF) {
                proof {
                    assert(decode_first_codepoint(s) == cp);
                    assert(!valid_first_scalar(s));
                }
                return false;
            }
            proof {
                assert(decode_first_codepoint(s) == cp);
                assert(valid_first_scalar(s));
                assert(length_of_first_codepoint(s) == 3);
            }
            l = 3;
        } else if 0xf0 <= b0 && b0 <= 0xf7 {
            if len - i < 4 || !(0x80 <= bytes[i + 1] && bytes[i + 1] <= 0xbf) || !(0x80 <= bytes[i
                + 2] && bytes[i + 2] <= 0xbf) || !(0x80 <= bytes[i + 3] && bytes[i + 3] <= 0xbf) {
                proof {
                    assert(!valid_leading_and_continuation_bytes_first_codepoint(s));
                }
                return false;
            }
            let b1 = bytes[i + 1];
            let b2 = bytes[i + 2];
            let b3 = bytes[i + 3];
            let cp: u32 = (((b0 & 0x07) as u32) << 18) | (((b1 & 0x3f) as u32) << 12) | (((b2
                & 0x3f) as u32) << 6) | ((b3 & 0x3f) as u32);
            if cp < 0x10000 || cp > 0x10ffff {
                proof {
                    assert(decode_first_codepoint(s) == cp);
                    assert(!valid_first_scalar(s));
                }
                return false;
            }
            proof {
                assert(decode_first_codepoint(s) == cp);
                assert(cp > 0xDFFF);
                assert(valid_first_scalar(s));
                assert(length_of_first_codepoint(s) == 4);
            }
            l = 4;
        } else {
            proof {
                assert(!valid_leading_and_continuation_bytes_first_codepoint(s));
            }
            return false;
        }
        proof {
            assert(valid_utf8(s) == (valid_first_scalar(s) && valid_utf8(pop_first_scalar(s))));
            assert(pop_first_scalar(s) =~= bytes@.skip(i + l));
        }
        i = i + l;
    }
    proof {
        assert(bytes@.skip(len as int).len() == 0);
    }
    true
}

} // verus!
