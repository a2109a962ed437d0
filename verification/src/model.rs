//! The mathematical model of the codec.
//!
//! Encoding threads a small carry of pending bits (fewer than eight) through
//! the input bytes, cutting the bit stream into six-bit windows.  A window
//! whose bits 1 through 4 are all set is *compact*: it is emitted as the
//! five-bit symbol `window & 0x1f`, and only five bits of input are consumed.
//! Any other window is emitted as a six-bit symbol equal to the window
//! itself.  Decoding reads the width back off each symbol with the same test
//! and reassembles the bytes.

use vstd::prelude::*;

verus! {

/// A six-bit value is compact when bits 1 through 4 (counting from the least
/// significant bit) are all set, i.e. when `v % 32` is 30 or 31.
pub open spec fn is_compact(v: u8) -> bool {
    v & 0x1e == 0x1e
}

/// How many input bits the symbol for the six-bit window `v` consumes.
pub open spec fn sym_width(v: u8) -> u8 {
    if is_compact(v) {
        5
    } else {
        6
    }
}

/// The alphabet index emitted for the six-bit window `v`.
pub open spec fn sym_index(v: u8) -> u8 {
    if is_compact(v) {
        v & 0x1f
    } else {
        v
    }
}

/// The ASCII code of the alphabet character at index `idx` (0 to 61):
/// digits, then uppercase letters, then lowercase letters.
pub open spec fn alpha_byte(idx: u8) -> u8 {
    if idx < 10 {
        (48 + idx) as u8
    } else if idx < 36 {
        (55 + idx) as u8
    } else {
        (61 + idx) as u8
    }
}

/// The alphabet index of the ASCII code `b`, or the sentinel 0xff when `b`
/// is not an alphabet character.
pub open spec fn alpha_index(b: u8) -> u8 {
    if 48 <= b && b <= 57 {
        (b - 48) as u8
    } else if 65 <= b && b <= 90 {
        (b - 55) as u8
    } else if 97 <= b && b <= 122 {
        (b - 61) as u8
    } else {
        0xff
    }
}

/// Whether the byte `b` is the ASCII code of an alphabet character.
pub open spec fn is_alpha(b: u8) -> bool {
    alpha_index(b) != 0xff
}

/// Whether every byte of `s` is an alphabet character.
pub open spec fn all_alpha(s: Seq<u8>) -> bool {
    forall|i: int| 0 <= i < s.len() ==> is_alpha(#[trigger] s[i])
}

/// The position of the first byte of `s` that is not an alphabet character
/// (meaningful only when such a byte exists).
pub open spec fn first_bad(s: Seq<u8>) -> int
    decreases s.len(),
{
    if s.len() == 0 {
        0
    } else if !is_alpha(s[0]) {
        0
    } else {
        1 + first_bad(s.drop_first())
    }
}

/// One encoder step: consume the byte `b` with `nt` carried bits `tb`, and
/// return the alphabet indices emitted together with the new carry.
pub open spec fn enc_step(nt: u8, tb: u8, b: u8) -> (Seq<u8>, u8, u8) {
    let six1 = (tb | (b << nt)) & 0x3f;
    let w1 = sym_width(six1);
    let bl1 = (8 + nt - w1) as u8;
    if bl1 >= 6 {
        let six2 = (b >> ((8 - bl1) as u8)) & 0x3f;
        let w2 = sym_width(six2);
        let bl2 = (bl1 - w2) as u8;
        let tb2 = if bl2 > 0 {
            b >> ((8 - bl2) as u8)
        } else {
            0
        };
        (seq![sym_index(six1), sym_index(six2)], bl2, tb2)
    } else {
        (seq![sym_index(six1)], bl1, b >> ((8 - bl1) as u8))
    }
}

/// The alphabet indices emitted for the bytes `s` starting from a carry of
/// `nt` bits `tb`, with the final partial symbol flushed at the end.
pub open spec fn encode_tail(s: Seq<u8>, nt: u8, tb: u8) -> Seq<u8>
    decreases s.len(),
{
    if s.len() == 0 {
        if nt > 0 {
            seq![sym_index(tb)]
        } else {
            Seq::empty()
        }
    } else {
        let r = enc_step(nt, tb, s[0]);
        r.0 + encode_tail(s.drop_first(), r.1, r.2)
    }
}

/// One decoder step on a non-final symbol: absorb the alphabet index `idx`
/// into a carry of `bs` bits `buf`, and return the bytes emitted (none or
/// one) together with the new carry.
pub open spec fn dec_step(buf: u8, bs: u8, idx: u8) -> (Seq<u8>, u8, u8) {
    let w = sym_width(idx);
    if bs + w >= 8 {
        (seq![(idx << bs) | buf], idx >> ((8 - bs) as u8), ((bs + w) - 8) as u8)
    } else {
        (Seq::empty(), buf | (idx << bs), (bs + w) as u8)
    }
}

/// The bytes recovered from the alphabet indices `idxs` starting from a
/// carry of `bs` bits `buf`.  The final symbol always yields one byte,
/// however few bits remain: the trailing byte mirrors the encoder's flush.
pub open spec fn decode_tail(idxs: Seq<u8>, buf: u8, bs: u8) -> Seq<u8>
    decreases idxs.len(),
{
    if idxs.len() == 0 {
        Seq::empty()
    } else if idxs.len() == 1 {
        seq![(idxs[0] << bs) | buf]
    } else {
        let r = dec_step(buf, bs, idxs[0]);
        r.0 + decode_tail(idxs.drop_first(), r.1, r.2)
    }
}

/// The alphabet indices of the bytes `s`, sentinel included.
pub open spec fn to_indices(s: Seq<u8>) -> Seq<u8> {
    s.map_values(|b: u8| alpha_index(b))
}

/// The alphabet indices of the encoding of `s`.
pub open spec fn encode_indices(s: Seq<u8>) -> Seq<u8> {
    encode_tail(s, 0, 0)
}

/// The alphabet bytes named by a sequence of alphabet indices.
pub open spec fn bytes_of(idxs: Seq<u8>) -> Seq<u8> {
    idxs.map_values(|idx: u8| alpha_byte(idx))
}

/// The alphabet characters named by a sequence of alphabet indices.
pub open spec fn chars_of(idxs: Seq<u8>) -> Seq<char> {
    idxs.map_values(|idx: u8| alpha_byte(idx) as char)
}

/// The encoding of `s` as a sequence of ASCII codes.
pub open spec fn encoded_bytes(s: Seq<u8>) -> Seq<u8> {
    bytes_of(encode_indices(s))
}

/// The encoding of `s` as a sequence of characters: what `encode` returns.
pub open spec fn encoded_chars(s: Seq<u8>) -> Seq<char> {
    chars_of(encode_indices(s))
}

/// The bytes that decoding the all-alphabet byte sequence `s` yields.
pub open spec fn decoded_bytes(s: Seq<u8>) -> Seq<u8> {
    decode_tail(to_indices(s), 0, 0)
}

} // verus!
