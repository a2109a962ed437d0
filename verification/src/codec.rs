//! The executable encoder and decoder.

use crate::model::all_alpha;
use crate::model::alpha_byte;
use crate::model::alpha_index;
use crate::model::chars_of;
use crate::model::dec_step;
use crate::model::decode_tail;
use crate::model::decoded_bytes;
use crate::model::enc_step;
use crate::model::encode_tail;
use crate::model::encoded_chars;
use crate::model::first_bad;
use crate::model::is_alpha;
use crate::model::sym_index;
use crate::model::sym_width;
use crate::model::to_indices;
use vstd::prelude::*;
use vstd::string::StringSliceAdditionalSpecFns;

verus! {

/// The one way decoding can fail: the byte at the given position of the
/// input is not an alphabet character.
#[derive(Copy, Clone, Debug, Eq, Hash, Ord, PartialEq, PartialOrd, Structural)]
pub enum DecodeError {
    InvalidByte(usize, u8),
}

/// What `decode` returns on the UTF-8 bytes `s` of its input: the decoded
/// bytes when every input byte is an alphabet character, and otherwise the
/// position and value of the first byte that is not.
pub open spec fn spec_decode(s: Seq<u8>) -> Result<Seq<u8>, DecodeError> {
    if all_alpha(s) {
        Ok(decoded_bytes(s))
    } else {
        Err(DecodeError::InvalidByte(first_bad(s) as usize, s[first_bad(s)]))
    }
}

/// The alphabet character at index `idx`: digits, then uppercase letters,
/// then lowercase letters.
fn symbol_char(idx: u8) -> (c: char)
    requires
        idx < 62,
    ensures
        c == alpha_byte(idx) as char,
{
    let b: u8 = if idx < 10 {
        48 + idx
    } else if idx < 36 {
        55 + idx
    } else {
        61 + idx
    };
    b as char
}

/// The symbol for the six-bit window `six_bits`, and how many input bits it
/// consumes (five for a compact window, six otherwise).
fn encode_symbol(six_bits: u8) -> (r: (char, u8))
    requires
        six_bits < 64,
    ensures
        r.0 == alpha_byte(sym_index(six_bits)) as char,
        r.1 == sym_width(six_bits),
{
    if six_bits & 0x1e == 0x1e {
        proof {
            assert(six_bits & 0x1f < 62) by (bit_vector);
        }
        (symbol_char(six_bits & 0x1f), 5)
    } else {
        proof {
            assert(six_bits < 64 && !(six_bits & 0x1e == 0x1e) ==> six_bits < 62) by (bit_vector);
        }
        (symbol_char(six_bits), 6)
    }
}

/// The alphabet index of the byte `symbol` and the width of the symbol it
/// names, or the position and byte wrapped as an error when `symbol` is not
/// an alphabet character.
fn decode_symbol(index: usize, symbol: u8) -> (r: Result<(u8, u8), DecodeError>)
    ensures
        (match r {
            Ok(p) => is_alpha(symbol) && p.0 == alpha_index(symbol) && p.1 == sym_width(
                alpha_index(symbol),
            ),
            Err(e) => !is_alpha(symbol) && e == DecodeError::InvalidByte(index, symbol),
        }),
{
    let bits: u8 = if 48 <= symbol && symbol <= 57 {
        symbol - 48
    } else if 65 <= symbol && symbol <= 90 {
        symbol - 55
    } else if 97 <= symbol && symbol <= 122 {
        symbol - 61
    } else {
        0xff
    };
    if bits == 0xff {
        return Err(DecodeError::InvalidByte(index, symbol));
    }
    let num_bits: u8 = if bits & 0x1e == 0x1e {
        5
    } else {
        6
    };
    Ok((bits, num_bits))
}

/// Relies on String::push: appends the given character to the end of the string.
#[verifier::external_body]
fn push_char(s: &mut String, c: char)
    ensures
        final(s)@ == old(s)@.push(c),
{
    s.push(c);
}

/// Encode the bytes `src` as text over the alphabet `0-9A-Za-z`.
pub fn encode(src: &[u8]) -> (out: String)
    ensures
        out@ == encoded_chars(src@),
{
    let n: usize = src.len();
    let mut out: String = String::new();
    let ghost mut emitted: Seq<u8> = Seq::empty();
    let mut num_trailing: u8 = 0;
    let mut trailing_bits: u8 = 0;
    let mut i: usize = 0;
    proof {
        assert(src@.skip(0) =~= src@);
        assert(emitted + encode_tail(src@, 0, 0) =~= encode_tail(src@, 0, 0));
        assert(out@ =~= chars_of(emitted));
        assert(0u8 >> 0u8 == 0u8) by (bit_vector);
    }
    while i < n
        invariant
            i <= n,
            n == src@.len(),
            num_trailing <= 5,
            trailing_bits >> num_trailing == 0,
            encode_tail(src@, 0, 0) == emitted + encode_tail(
                src@.skip(i as int),
                num_trailing,
                trailing_bits,
            ),
            out@ == chars_of(emitted),
        decreases n - i,
    {
        let ghost nt0: u8 = num_trailing;
        let ghost tb0: u8 = trailing_bits;
        let ghost pre: Seq<u8> = emitted;
        let ghost suffix: Seq<u8> = src@.skip(i as int);
        let byte: u8 = src[i];

        let first_six: u8 = (trailing_bits | (byte << num_trailing)) & 0x3f;
        proof {
            assert((tb0 | (byte << nt0)) & 0x3f < 64) by (bit_vector);
        }
        let (c1, n1): (char, u8) = encode_symbol(first_six);
        push_char(&mut out, c1);
        let mut bits_left: u8 = 8 + num_trailing - n1;
        proof {
            emitted = emitted.push(sym_index(first_six));
        }
        if bits_left >= 6 {
            let second_six: u8 = (byte >> (8 - bits_left)) & 0x3f;
            proof {
                assert((byte >> ((8 - bits_left) as u8)) & 0x3f < 64) by (bit_vector);
            }
            let (c2, n2): (char, u8) = encode_symbol(second_six);
            push_char(&mut out, c2);
            bits_left = bits_left - n2;
            proof {
                emitted = emitted.push(sym_index(second_six));
            }
        }
        num_trailing = bits_left;
        trailing_bits = if num_trailing > 0 {
            byte >> (8 - bits_left)
        } else {
            0
        };
        proof {
            let step: (Seq<u8>, u8, u8) = enc_step(nt0, tb0, byte);
            assert(step.1 == num_trailing);
            assert(step.2 == trailing_bits);
            assert(emitted =~= pre + step.0);
            assert(trailing_bits >> num_trailing == 0) by (bit_vector)
                requires
                    num_trailing <= 7,
                    trailing_bits == (if num_trailing > 0 {
                        byte >> ((8 - num_trailing) as u8)
                    } else {
                        0u8
                    }),
            ;
            assert(suffix[0] == byte);
            assert(suffix.drop_first() =~= src@.skip(i as int + 1));
            assert(encode_tail(suffix, nt0, tb0) == step.0 + encode_tail(
                src@.skip(i as int + 1),
                num_trailing,
                trailing_bits,
            ));
            assert(emitted + encode_tail(src@.skip(i as int + 1), num_trailing, trailing_bits)
                =~= pre + encode_tail(suffix, nt0, tb0));
            assert(out@ =~= chars_of(emitted));
        }
        i = i + 1;
    }
    if num_trailing > 0 {
        proof {
            assert(trailing_bits < 64) by (bit_vector)
                requires
                    trailing_bits >> num_trailing == 0 && num_trailing <= 5,
            ;
        }
        let (c, _n): (char, u8) = encode_symbol(trailing_bits);
        push_char(&mut out, c);
        proof {
            emitted = emitted.push(sym_index(trailing_bits));
        }
    }
    proof {
        assert(src@.skip(n as int) =~= Seq::<u8>::empty());
        assert(emitted =~= encode_tail(src@, 0, 0));
        assert(out@ =~= encoded_chars(src@));
    }
    out
}

/// Decode text produced over the alphabet `0-9A-Za-z` back into bytes.
/// Fails on the first byte of the input that is not an alphabet character,
/// reporting its position and value.
pub fn decode(src: &str) -> (r: Result<Vec<u8>, DecodeError>)
    ensures
        (match r {
            Ok(v) => spec_decode(src.spec_bytes()) == Ok::<Seq<u8>, DecodeError>(v@),
            Err(e) => spec_decode(src.spec_bytes()) == Err::<Seq<u8>, DecodeError>(e),
        }),
{
    let bytes: &[u8] = src.as_bytes();
    let n: usize = bytes.len();
    let mut out: Vec<u8> = Vec::new();
    if n == 0 {
        return Ok(out);
    }
    let ghost idxs: Seq<u8> = to_indices(bytes@);
    let mut buf: u8 = 0;
    let mut buf_size: u8 = 0;
    let mut i: usize = 0;
    proof {
        assert(idxs.skip(0) =~= idxs);
        assert(out@ + decode_tail(idxs, 0, 0) =~= decode_tail(idxs, 0, 0));
        assert(0u8 >> 0u8 == 0u8) by (bit_vector);
    }
    while i < n - 1
        invariant
            n == bytes@.len(),
            n >= 1,
            i <= n - 1,
            bytes@ == src.spec_bytes(),
            idxs == to_indices(bytes@),
            buf_size <= 7,
            buf >> buf_size == 0,
            forall|j: int| 0 <= j < i ==> is_alpha(#[trigger] bytes@[j]),
            decode_tail(idxs, 0, 0) == out@ + decode_tail(idxs.skip(i as int), buf, buf_size),
        decreases n - i,
    {
        let symbol: u8 = bytes[i];
        match decode_symbol(i, symbol) {
            Err(e) => {
                proof {
                    crate::laws::lemma_first_bad_at(bytes@, i as int);
                }
                return Err(e);
            },
            Ok((bits, num_bits)) => {
                let ghost bs0: u8 = buf_size;
                let ghost buf0: u8 = buf;
                let ghost pre: Seq<u8> = out@;
                let ghost suffix: Seq<u8> = idxs.skip(i as int);
                if buf_size + num_bits >= 8 {
                    out.push((bits << buf_size) | buf);
                    buf = bits >> (8 - buf_size);
                    buf_size = num_bits - (8 - buf_size);
                    proof {
                        assert((bits >> ((8 - bs0) as u8)) >> ((num_bits + bs0 - 8) as u8) == 0)
                            by (bit_vector)
                            requires
                                bits == alpha_index(symbol),
                                is_alpha(symbol),
                                num_bits == sym_width(alpha_index(symbol)),
                                2 <= bs0 <= 7,
                                bs0 + num_bits >= 8,
                        ;
                    }
                } else {
                    buf = buf | (bits << buf_size);
                    buf_size = buf_size + num_bits;
                    proof {
                        assert((buf0 | (bits << bs0)) >> ((bs0 + num_bits) as u8) == 0)
                            by (bit_vector)
                            requires
                                bits == alpha_index(symbol),
                                is_alpha(symbol),
                                num_bits == sym_width(alpha_index(symbol)),
                                buf0 >> bs0 == 0,
                                bs0 <= 7,
                                bs0 + num_bits < 8,
                        ;
                    }
                }
                proof {
                    let step: (Seq<u8>, u8, u8) = dec_step(buf0, bs0, bits);
                    assert(step.1 == buf);
                    assert(step.2 == buf_size);
                    assert(out@ =~= pre + step.0);
                    assert(suffix[0] == bits);
                    assert(suffix.drop_first() =~= idxs.skip(i as int + 1));
                    assert(decode_tail(suffix, buf0, bs0) == step.0 + decode_tail(
                        idxs.skip(i as int + 1),
                        buf,
                        buf_size,
                    ));
                    assert(out@ + decode_tail(idxs.skip(i as int + 1), buf, buf_size) =~= pre
                        + decode_tail(suffix, buf0, bs0));
                }
            },
        }
        i = i + 1;
    }
    let last: u8 = bytes[n - 1];
    match decode_symbol(n - 1, last) {
        Err(e) => {
            proof {
                crate::laws::lemma_first_bad_at(bytes@, n as int - 1);
            }
            return Err(e);
        },
        Ok((bits, _num_bits)) => {
            out.push((bits << buf_size) | buf);
            proof {
                assert(idxs.skip(n as int - 1).len() == 1);
                assert(idxs.skip(n as int - 1)[0] == bits);
                assert(decode_tail(idxs.skip(n as int - 1), buf, buf_size) =~= seq![
                    (bits << buf_size) | buf,
                ]);
                assert(all_alpha(bytes@));
                assert(out@ =~= decoded_bytes(bytes@));
            }
            Ok(out)
        },
    }
}

} // verus!
