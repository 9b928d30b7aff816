use vstd::prelude::*;
use vstd::utf8::*;

verus! {

/// The character that begins at byte `position`, with its length in bytes.
/// Where the bytes there do not form a complete UTF-8 sequence, the single
/// byte is taken as the character.
pub open spec fn char_at(bytes: Seq<u8>, position: int) -> (u32, int) {
    let rest = bytes.skip(position);
    if valid_leading_and_continuation_bytes_first_codepoint(rest) {
        (decode_first_codepoint(rest), length_of_first_codepoint(rest))
    } else {
        (bytes[position] as u32, 1)
    }
}

/// Reads the character that begins at byte `position`: its code point and
/// its length in bytes.
pub fn read_char(bytes: &[u8], position: usize) -> (r: (u32, usize))
    requires
        position < bytes@.len(),
    ensures
        (r.0, r.1 as int) == char_at(bytes@, position as int),
        1 <= r.1 <= 4,
        position + r.1 <= bytes@.len(),
{
    let ghost rest = bytes@.skip(position as int);
    let len = bytes.len();
    let b0 = bytes[position];
    if b0 <= 0x7f {
        proof {
            assert(rest[0] == b0);
            assert(b0 & 0x7f == b0) by (bit_vector)
                requires b0 <= 0x7f;
        }
        (b0 as u32, 1)
    } else if 0xc0 <= b0 && b0 <= 0xdf && len - position >= 2 && 0x80 <= bytes[position + 1]
        && bytes[position + 1] <= 0xbf {
        let b1 = bytes[position + 1];
        proof {
            assert(rest[0] == b0 && rest[1] == b1);
        }
        let cp = (((b0 & 0x1f) as u32) << 6) | ((b1 & 0x3f) as u32);
        (cp, 2)
    } else if 0xe0 <= b0 && b0 <= 0xef && len - position >= 3 && 0x80 <= bytes[position + 1]
        && bytes[position + 1] <= 0xbf && 0x80 <= bytes[position + 2] && bytes[position + 2]
        <= 0xbf {
        let b1 = bytes[position + 1];
        let b2 = bytes[position + 2];
        proof {
            assert(rest[0] == b0 && rest[1] == b1 && rest[2] == b2);
        }
        let cp = (((b0 & 0x0f) as u32) << 12) | (((b1 & 0x3f) as u32) << 6) | ((b2 & 0x3f) as u32);
        (cp, 3)
    } else if 0xf0 <= b0 && b0 <= 0xf7 && len - position >= 4 && 0x80 <= bytes[position + 1]
        && bytes[position + 1] <= 0xbf && 0x80 <= bytes[position + 2] && bytes[position + 2]
        <= 0xbf && 0x80 <= bytes[position + 3] && bytes[position + 3] <= 0xbf {
        let b1 = bytes[position + 1];
        let b2 = bytes[position + 2];
        let b3 = bytes[position + 3];
        proof {
            assert(rest[0] == b0 && rest[1] == b1 && rest[2] == b2 && rest[3] == b3);
        }
        let cp = (((b0 & 0x07) as u32) << 18) | (((b1 & 0x3f) as u32) << 12) | (((b2 & 0x3f)
            as u32) << 6) | ((b3 & 0x3f) as u32);
        (cp, 4)
    } else {
        proof {
            assert(rest[0] == b0);
            if rest.len() >= 2 {
                assert(rest[1] == bytes@[position + 1]);
            }
            if rest.len() >= 3 {
                assert(rest[2] == bytes@[position + 2]);
            }
            if rest.len() >= 4 {
                assert(rest[3] == bytes@[position + 3]);
            }
        }
        (b0 as u32, 1)
    }
}

/// The length in bytes of the character that ends at byte `position`: the
/// bytes back to the nearest byte that is not a continuation byte, at most
/// four and at most `position`.
pub open spec fn previous_char_length(bytes: Seq<u8>, position: int) -> int {
    if position >= 1 && !is_continuation_byte(bytes[position - 1]) {
        1
    } else if position >= 2 && !is_continuation_byte(bytes[position - 2]) {
        2
    } else if position >= 3 && !is_continuation_byte(bytes[position - 3]) {
        3
    } else if position >= 4 {
        4
    } else {
        position
    }
}

/// Finds the length in bytes of the character that ends at byte `position`.
pub fn read_previous_char_length(bytes: &[u8], position: usize) -> (r: usize)
    requires
        0 < position <= bytes@.len(),
    ensures
        r as int == previous_char_length(bytes@, position as int),
        1 <= r <= position,
{
    if !(0x80 <= bytes[position - 1] && bytes[position - 1] <= 0xbf) {
        1
    } else if position >= 2 && !(0x80 <= bytes[position - 2] && bytes[position - 2] <= 0xbf) {
        2
    } else if position >= 3 && !(0x80 <= bytes[position - 3] && bytes[position - 3] <= 0xbf) {
        3
    } else if position >= 4 {
        4
    } else {
        position
    }
}

} // verus!
