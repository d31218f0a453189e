//! The variable-width length prefix that precedes every word on the wire.
//!
//! | first byte | width | length bits          |
//! |------------|-------|----------------------|
//! | `0xxxxxxx` | 1     | low 7 bits           |
//! | `10xxxxxx` | 2     | low 14 bits          |
//! | `110xxxxx` | 3     | low 21 bits          |
//! | `1110xxxx` | 4     | low 28 bits          |
//! | `11110xxx` | 5     | the next four bytes  |
//! | `11111xxx` | —     | reserved             |
//!
//! Multi-byte lengths are big-endian.

use vstd::prelude::*;

verus! {

/// Number of bytes that the shortest prefix for `len` occupies.
pub open spec fn length_width(len: u32) -> int {
    if len < 0x80 {
        1
    } else if len < 0x4000 {
        2
    } else if len < 0x20_0000 {
        3
    } else if len < 0x1000_0000 {
        4
    } else {
        5
    }
}

/// The shortest prefix that encodes `len`.
pub open spec fn encode_length(len: u32) -> Seq<u8> {
    if len < 0x80 {
        seq![len as u8]
    } else if len < 0x4000 {
        seq![(0x80 + len / 0x100) as u8, (len % 0x100) as u8]
    } else if len < 0x20_0000 {
        seq![(0xC0 + len / 0x1_0000) as u8, (len / 0x100 % 0x100) as u8, (len % 0x100) as u8]
    } else if len < 0x1000_0000 {
        seq![
            (0xE0 + len / 0x100_0000) as u8,
            (len / 0x1_0000 % 0x100) as u8,
            (len / 0x100 % 0x100) as u8,
            (len % 0x100) as u8,
        ]
    } else {
        seq![
            0xF0u8,
            (len / 0x100_0000) as u8,
            (len / 0x1_0000 % 0x100) as u8,
            (len / 0x100 % 0x100) as u8,
            (len % 0x100) as u8,
        ]
    }
}

/// Width of the prefix that starts with `first`, or `None` for the reserved
/// pattern `11111xxx`.
pub open spec fn prefix_width(first: u8) -> Option<int> {
    if first < 0x80 {
        Some(1)
    } else if first < 0xC0 {
        Some(2)
    } else if first < 0xE0 {
        Some(3)
    } else if first < 0xF0 {
        Some(4)
    } else if first < 0xF8 {
        Some(5)
    } else {
        None
    }
}

/// The length that a complete prefix of `width` bytes at the head of `bytes`
/// stands for.
pub open spec fn prefix_value(bytes: Seq<u8>, width: int) -> int
    recommends
        1 <= width <= 5,
        width <= bytes.len(),
{
    if width == 1 {
        bytes[0] as int
    } else if width == 2 {
        (bytes[0] - 0x80) * 0x100 + bytes[1]
    } else if width == 3 {
        (bytes[0] - 0xC0) * 0x1_0000 + bytes[1] * 0x100 + bytes[2]
    } else if width == 4 {
        (bytes[0] - 0xE0) * 0x100_0000 + bytes[1] * 0x1_0000 + bytes[2] * 0x100 + bytes[3]
    } else {
        bytes[1] * 0x100_0000 + bytes[2] * 0x1_0000 + bytes[3] * 0x100 + bytes[4]
    }
}

/// What the head of `bytes` holds where a length prefix is expected.
pub enum Prefix {
    /// A complete prefix: the length it stands for and its width in bytes.
    Complete { len: u32, width: int },
    /// The bytes end before the prefix does (or there are none).
    Truncated,
    /// The first byte has the reserved pattern `11111xxx`.
    Reserved,
}

/// Reads the length prefix at the head of `bytes`.
pub open spec fn decode_prefix(bytes: Seq<u8>) -> Prefix {
    if bytes.len() == 0 {
        Prefix::Truncated
    } else {
        match prefix_width(bytes[0]) {
            None => Prefix::Reserved,
            Some(width) => if bytes.len() < width {
                Prefix::Truncated
            } else {
                Prefix::Complete { len: prefix_value(bytes, width) as u32, width }
            },
        }
    }
}

/// A complete prefix never stands for more than `u32::MAX`.
pub proof fn lemma_prefix_value_bounds(bytes: Seq<u8>)
    requires
        bytes.len() > 0,
        prefix_width(bytes[0]) is Some,
        bytes.len() >= prefix_width(bytes[0])->0,
    ensures
        0 <= prefix_value(bytes, prefix_width(bytes[0])->0) <= u32::MAX,
{
}

/// No prefix is shorter than the one that is written for its length: a
/// prefix that stands for `len` takes at least `length_width(len)` bytes.
pub proof fn lemma_shortest_prefix(bytes: Seq<u8>)
    ensures
        decode_prefix(bytes) matches Prefix::Complete { len, width } ==> length_width(len) <= width,
{
}

/// A length is the sum of its four bytes, each at its place.
proof fn lemma_bytes_of(len: u32)
    ensures
        len == (len / 0x100_0000) * 0x100_0000 + (len / 0x1_0000 % 0x100) * 0x1_0000 + (len / 0x100
            % 0x100) * 0x100 + len % 0x100,
        len < 0x1000_0000 ==> len / 0x100_0000 < 0x10,
        len < 0x20_0000 ==> len / 0x100_0000 == 0 && len / 0x1_0000 % 0x100 == len / 0x1_0000
            && len / 0x1_0000 < 0x20,
        len < 0x4000 ==> len / 0x1_0000 == 0 && len / 0x100 % 0x100 == len / 0x100 && len / 0x100
            < 0x40,
{
    assert(len == (len / 0x100_0000) * 0x100_0000 + (len / 0x1_0000 % 0x100) * 0x1_0000 + (len
        / 0x100 % 0x100) * 0x100 + len % 0x100) by (bit_vector);
    assert(len < 0x1000_0000 ==> len / 0x100_0000 < 0x10) by (bit_vector);
    assert(len < 0x20_0000 ==> len / 0x100_0000 == 0 && len / 0x1_0000 % 0x100 == len / 0x1_0000
        && len / 0x1_0000 < 0x20) by (bit_vector);
    assert(len < 0x4000 ==> len / 0x1_0000 == 0 && len / 0x100 % 0x100 == len / 0x100 && len
        / 0x100 < 0x40) by (bit_vector);
}

/// Decoding the encoding of any length gives that length back, together with
/// the width of the shortest prefix; bytes that follow the prefix do not
/// matter.
pub proof fn lemma_length_round_trip(len: u32, rest: Seq<u8>)
    ensures
        encode_length(len).len() == length_width(len),
        decode_prefix(encode_length(len) + rest) == (Prefix::Complete {
            len,
            width: length_width(len),
        }),
{
    let prefix = encode_length(len);
    let bytes = prefix + rest;
    let width = length_width(len);
    lemma_bytes_of(len);
    assert(bytes.len() >= width);
    assert(bytes[0] == prefix[0]);
    if width >= 2 {
        assert(bytes[1] == prefix[1]);
    }
    if width >= 3 {
        assert(bytes[2] == prefix[2]);
    }
    if width >= 4 {
        assert(bytes[3] == prefix[3]);
    }
    if width == 5 {
        assert(bytes[4] == prefix[4]);
    }
    assert(prefix_width(bytes[0]) == Some(width));
    assert(prefix_value(bytes, width) == len);
}

} // verus!
