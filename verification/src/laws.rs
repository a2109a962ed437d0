//! Laws of the codec, proved from the model.

use crate::codec::spec_decode;
use crate::codec::DecodeError;
use crate::model::all_alpha;
use crate::model::alpha_byte;
use crate::model::alpha_index;
use crate::model::dec_step;
use crate::model::decode_tail;
use crate::model::decoded_bytes;
use crate::model::enc_step;
use crate::model::encode_indices;
use crate::model::encode_tail;
use crate::model::encoded_bytes;
use crate::model::encoded_chars;
use crate::model::first_bad;
use crate::model::is_alpha;
use crate::model::sym_index;
use crate::model::sym_width;
use crate::model::to_indices;
use vstd::prelude::*;
use vstd::utf8::encode_utf8;
use vstd::utf8::is_ascii_chars;
use vstd::utf8::is_ascii_chars_encode_utf8;

verus! {

/// `first_bad` names exactly the position of the first byte outside the
/// alphabet: if everything before `p` is in the alphabet and the byte at `p`
/// is not, the sequence is rejected at `p`.
pub proof fn lemma_first_bad_at(s: Seq<u8>, p: int)
    requires
        0 <= p < s.len(),
        !is_alpha(s[p]),
        forall|j: int| 0 <= j < p ==> is_alpha(#[trigger] s[j]),
    ensures
        !all_alpha(s),
        first_bad(s) == p,
    decreases p,
{
    if p == 0 {
    } else {
        lemma_first_bad_at(s.drop_first(), p - 1);
    }
}

/// The index emitted for a six-bit window names a symbol of the same width
/// as the window, carries no bits beyond that width, and is below 62.
proof fn lemma_symbol_shape(six: u8)
    by (bit_vector)
    requires
        six < 64,
    ensures
        sym_width(sym_index(six)) == sym_width(six),
        sym_index(six) >> sym_width(six) == 0,
        sym_index(six) < 62,
{
}

/// A well-formed encoder carry: at most five pending bits, right-aligned.
spec fn enc_state_ok(nt: u8, tb: u8) -> bool {
    nt <= 5 && tb >> nt == 0
}

/// Every alphabet index the encoder emits is below 62.
proof fn lemma_encode_tail_range(s: Seq<u8>, nt: u8, tb: u8)
    requires
        enc_state_ok(nt, tb),
    ensures
        forall|i: int|
            0 <= i < encode_tail(s, nt, tb).len() ==> #[trigger] encode_tail(s, nt, tb)[i] < 62,
    decreases s.len(),
{
    if s.len() == 0 {
        if nt > 0 {
            assert(tb < 64 && sym_index(tb) < 62) by (bit_vector)
                requires
                    tb >> nt == 0 && nt <= 5,
            ;
        }
    } else {
        let b = s[0];
        let step = enc_step(nt, tb, b);
        assert((tb | (b << nt)) & 0x3f < 64) by (bit_vector);
        lemma_symbol_shape((tb | (b << nt)) & 0x3f);
        lemma_enc_step_ok(nt, tb, b);
        lemma_encode_tail_range(s.drop_first(), step.1, step.2);
        let whole = encode_tail(s, nt, tb);
        let rest = encode_tail(s.drop_first(), step.1, step.2);
        assert(whole == step.0 + rest);
        assert forall|i: int| 0 <= i < whole.len() implies whole[i] < 62 by {
            if i < step.0.len() {
                assert(whole[i] == step.0[i]);
            } else {
                assert(whole[i] == rest[i - step.0.len()]);
            }
        }
    }
}

/// One encoder step keeps the carry well formed, and each emitted index is
/// below 62.
spec fn enc_step_ok(nt: u8, tb: u8, b: u8) -> bool {
    let step = enc_step(nt, tb, b);
    enc_state_ok(step.1, step.2) && forall|i: int|
        0 <= i < step.0.len() ==> #[trigger] step.0[i] < 62
}

proof fn lemma_enc_step_ok(nt: u8, tb: u8, b: u8)
    requires
        enc_state_ok(nt, tb),
    ensures
        enc_step_ok(nt, tb, b),
{
    let six1 = (tb | (b << nt)) & 0x3f;
    let w1 = sym_width(six1);
    let bl1 = (8 + nt - w1) as u8;
    assert(((tb | (b << nt)) & 0x3f) < 64) by (bit_vector);
    lemma_symbol_shape(six1);
    if bl1 >= 6 {
        let six2 = (b >> ((8 - bl1) as u8)) & 0x3f;
        assert(((b >> ((8 - bl1) as u8)) & 0x3f) < 64) by (bit_vector);
        lemma_symbol_shape(six2);
        let w2 = sym_width(six2);
        let bl2 = (bl1 - w2) as u8;
        if bl2 > 0 {
            assert((b >> ((8 - bl2) as u8)) >> bl2 == 0) by (bit_vector)
                requires
                    1 <= bl2 <= 7,
            ;
        } else {
            assert(0u8 >> 0u8 == 0u8) by (bit_vector);
        }
    } else {
        assert((b >> ((8 - bl1) as u8)) >> bl1 == 0) by (bit_vector)
            requires
                1 <= bl1 <= 7,
        ;
    }
}

/// Every character the encoder emits is an alphabet character, and reading
/// its index back gives the index the encoder emitted.
proof fn lemma_alpha_byte_index(idx: u8)
    requires
        idx < 62,
    ensures
        is_alpha(alpha_byte(idx)),
        alpha_index(alpha_byte(idx)) == idx,
        alpha_byte(idx) < 128,
{
}

/// The encoder emits at least one symbol whenever input bytes or carried
/// bits remain.
proof fn lemma_encode_tail_nonempty(s: Seq<u8>, nt: u8, tb: u8)
    requires
        s.len() > 0 || nt > 0,
    ensures
        encode_tail(s, nt, tb).len() > 0,
{
    if s.len() > 0 {
        let step = enc_step(nt, tb, s[0]);
        assert(step.0.len() >= 1);
    }
}

/// The decoder carry that lines up with an encoder carry of `nt` bits: the
/// decoder holds exactly the `8 - nt` bits of the current input byte that
/// the encoder has already pushed into symbols.
spec fn dec_state_matches(nt: u8, buf: u8, bs: u8) -> bool {
    if nt == 0 {
        buf == 0 && bs == 0
    } else {
        bs == (8 - nt) as u8 && buf >> bs == 0
    }
}

/// The input byte the decoder has partly reassembled: its low `bs` bits sit
/// in `buf` and its high `nt` bits still sit in the encoder's carry `tb`.
spec fn pending(nt: u8, tb: u8, buf: u8, bs: u8) -> Seq<u8> {
    if nt == 0 {
        Seq::empty()
    } else {
        seq![(tb << bs) | buf]
    }
}

/// The heart of the round trip: decoding the symbols that encoding a byte
/// suffix emits yields the partly reassembled byte followed by that suffix,
/// whenever the encoder and decoder carries line up.
proof fn lemma_round_trip_tail(s: Seq<u8>, nt: u8, tb: u8, buf: u8, bs: u8)
    requires
        enc_state_ok(nt, tb),
        dec_state_matches(nt, buf, bs),
    ensures
        decode_tail(encode_tail(s, nt, tb), buf, bs) == pending(nt, tb, buf, bs) + s,
    decreases s.len(),
{
    if s.len() == 0 {
        if nt == 0 {
            assert(pending(nt, tb, buf, bs) + s =~= decode_tail(encode_tail(s, nt, tb), buf, bs));
        } else {
            assert(sym_index(tb) == tb) by (bit_vector)
                requires
                    tb >> nt == 0 && 1 <= nt <= 5,
            ;
            assert(encode_tail(s, nt, tb) =~= seq![tb]);
            assert(decode_tail(seq![tb], buf, bs) == seq![(tb << bs) | buf]);
            assert(pending(nt, tb, buf, bs) + s =~= seq![(tb << bs) | buf]);
        }
    } else {
        let b = s[0];
        let rest = s.drop_first();
        let step = enc_step(nt, tb, b);
        let nt2 = step.1;
        let tb2 = step.2;
        lemma_enc_step_ok(nt, tb, b);
        let tail = encode_tail(rest, nt2, tb2);
        let whole = encode_tail(s, nt, tb);
        assert(whole == step.0 + tail);
        assert(s =~= seq![b] + rest);

        let six1 = (tb | (b << nt)) & 0x3f;
        let idx1 = sym_index(six1);
        let w1 = sym_width(six1);
        let bl1 = (8 + nt - w1) as u8;
        assert(((tb | (b << nt)) & 0x3f) < 64) by (bit_vector);
        lemma_symbol_shape(six1);

        if bl1 < 6 {
            // One symbol for this byte; between two and five bits carry over.
            assert(step.0 == seq![idx1]);
            assert(nt2 == bl1 && 2 <= nt2 <= 5);
            assert(tb2 == b >> ((8 - bl1) as u8));
            lemma_encode_tail_nonempty(rest, nt2, tb2);
            assert(whole[0] == idx1);
            assert(whole.drop_first() =~= tail);
            if nt == 0 {
                // Nothing pending: the symbol's bits are queued whole.
                assert(tb == 0) by (bit_vector)
                    requires
                        tb >> nt == 0 && nt == 0,
                ;
                let r = dec_step(buf, bs, idx1);
                assert(r.0 =~= Seq::<u8>::empty());
                assert(r.1 == buf | (idx1 << bs));
                assert(buf | (idx1 << bs) == idx1) by (bit_vector)
                    requires
                        buf == 0 && bs == 0,
                ;
                assert(r.2 == w1);
                assert((8 - nt2) as u8 == w1);
                assert(dec_state_matches(nt2, idx1, w1));
                lemma_round_trip_tail(rest, nt2, tb2, idx1, w1);
                assert((tb2 << w1) | idx1 == b) by (bit_vector)
                    requires
                        nt == 0,
                        tb == 0,
                        six1 == (tb | (b << nt)) & 0x3f,
                        idx1 == sym_index(six1),
                        w1 == sym_width(six1),
                        tb2 == b >> w1,
                ;
                assert(decode_tail(whole, buf, bs) == r.0 + decode_tail(tail, idx1, w1));
                assert(decode_tail(whole, buf, bs) =~= pending(nt, tb, buf, bs) + s);
            } else {
                // The symbol completes the pending byte; the rest of its
                // bits start the next one.
                let r = dec_step(buf, bs, idx1);
                assert(bs + sym_width(idx1) >= 8);
                assert(r.0 =~= seq![(idx1 << bs) | buf]);
                let buf1 = idx1 >> ((8 - bs) as u8);
                let bs1 = ((bs + w1) - 8) as u8;
                assert(r.1 == buf1 && r.2 == bs1);
                assert((idx1 << bs) | buf == (tb << bs) | buf) by (bit_vector)
                    requires
                        six1 == (tb | (b << nt)) & 0x3f,
                        idx1 == sym_index(six1),
                        tb >> nt == 0,
                        1 <= nt <= 5,
                        bs == (8 - nt) as u8,
                ;
                assert(buf1 == idx1 >> nt);
                assert(bs1 == (w1 - nt) as u8 && bs1 == (8 - nt2) as u8);
                assert(buf1 >> bs1 == 0) by (bit_vector)
                    requires
                        idx1 >> w1 == 0,
                        5 <= w1 <= 6,
                        1 <= nt <= 5,
                        nt <= w1,
                        buf1 == idx1 >> nt,
                        bs1 == (w1 - nt) as u8,
                ;
                assert(dec_state_matches(nt2, buf1, bs1));
                lemma_round_trip_tail(rest, nt2, tb2, buf1, bs1);
                assert((tb2 << bs1) | buf1 == b) by (bit_vector)
                    requires
                        six1 == (tb | (b << nt)) & 0x3f,
                        idx1 == sym_index(six1),
                        w1 == sym_width(six1),
                        tb >> nt == 0,
                        1 <= nt <= 5,
                        nt <= w1,
                        buf1 == idx1 >> nt,
                        bs1 == (w1 - nt) as u8,
                        tb2 == b >> bs1,
                ;
                assert(decode_tail(whole, buf, bs) == r.0 + decode_tail(tail, buf1, bs1));
                assert(decode_tail(whole, buf, bs) =~= pending(nt, tb, buf, bs) + s);
            }
        } else {
            // Two symbols for this byte, so the carry held at least three
            // bits and the pending byte is completed by the first symbol.
            let six2 = (b >> ((8 - bl1) as u8)) & 0x3f;
            let idx2 = sym_index(six2);
            let w2 = sym_width(six2);
            let bl2 = (bl1 - w2) as u8;
            assert(((b >> ((8 - bl1) as u8)) & 0x3f) < 64) by (bit_vector);
            lemma_symbol_shape(six2);
            assert(step.0 == seq![idx1, idx2]);
            assert(nt2 == bl2 && bl2 <= 3);
            assert(3 <= nt <= 5);
            assert(whole[0] == idx1);
            assert(whole.drop_first() =~= seq![idx2] + tail);

            let r = dec_step(buf, bs, idx1);
            assert(bs + sym_width(idx1) >= 8);
            assert(r.0 =~= seq![(idx1 << bs) | buf]);
            let buf1 = idx1 >> ((8 - bs) as u8);
            let bs1 = ((bs + w1) - 8) as u8;
            assert(r.1 == buf1 && r.2 == bs1);
            assert((idx1 << bs) | buf == (tb << bs) | buf) by (bit_vector)
                requires
                    six1 == (tb | (b << nt)) & 0x3f,
                    idx1 == sym_index(six1),
                    tb >> nt == 0,
                    1 <= nt <= 5,
                    bs == (8 - nt) as u8,
            ;
            assert(buf1 == idx1 >> nt);
            assert(bs1 == (w1 - nt) as u8 && bs1 == (8 - bl1) as u8);
            let mid = seq![idx2] + tail;
            assert(decode_tail(whole, buf, bs) == r.0 + decode_tail(mid, buf1, bs1));

            if bl2 == 0 {
                // The second symbol completes the input byte exactly.
                assert(bs1 + sym_width(idx2) == 8);
                assert(((idx2 << bs1) | buf1) == b) by (bit_vector)
                    requires
                        six1 == (tb | (b << nt)) & 0x3f,
                        idx1 == sym_index(six1),
                        w1 == sym_width(six1),
                        six2 == (b >> bs1) & 0x3f,
                        idx2 == sym_index(six2),
                        w2 == sym_width(six2),
                        tb >> nt == 0,
                        3 <= nt <= 5,
                        nt <= w1,
                        buf1 == idx1 >> nt,
                        bs1 == (w1 - nt) as u8,
                        (bs1 + w2) as u8 == 8,
                ;
                if tail.len() == 0 {
                    // This byte was the last and ended on a symbol
                    // boundary: the decoder's final-symbol rule emits it.
                    assert(rest.len() == 0);
                    assert(mid =~= seq![idx2]);
                    assert(decode_tail(mid, buf1, bs1) == seq![(idx2 << bs1) | buf1]);
                    assert(decode_tail(whole, buf, bs) =~= pending(nt, tb, buf, bs) + s);
                } else {
                    let r2 = dec_step(buf1, bs1, idx2);
                    assert(r2.0 =~= seq![(idx2 << bs1) | buf1]);
                    let buf2 = idx2 >> ((8 - bs1) as u8);
                    assert(buf2 == idx2 >> w2 && idx2 >> w2 == 0);
                    assert(r2.1 == 0 && r2.2 == 0);
                    assert(mid[0] == idx2);
                    assert(mid.drop_first() =~= tail);
                    assert(nt2 == 0 && tb2 == 0);
                    lemma_round_trip_tail(rest, nt2, tb2, 0, 0);
                    assert(decode_tail(mid, buf1, bs1) == r2.0 + decode_tail(tail, 0, 0));
                    assert(decode_tail(whole, buf, bs) =~= pending(nt, tb, buf, bs) + s);
                }
            } else {
                // The second symbol leaves one to three bits pending.
                assert(bs1 + sym_width(idx2) < 8);
                assert(mid.len() >= 2) by {
                    lemma_encode_tail_nonempty(rest, nt2, tb2);
                }
                let r2 = dec_step(buf1, bs1, idx2);
                assert(r2.0 =~= Seq::<u8>::empty());
                let buf2 = buf1 | (idx2 << bs1);
                let bs2 = (bs1 + w2) as u8;
                assert(r2.1 == buf2 && r2.2 == bs2);
                assert(bs2 == (8 - nt2) as u8);
                assert(tb2 == b >> ((8 - bl2) as u8) && tb2 == b >> bs2);
                assert(buf2 >> bs2 == 0) by (bit_vector)
                    requires
                        idx1 >> w1 == 0,
                        idx2 >> w2 == 0,
                        5 <= w1 <= 6,
                        5 <= w2 <= 6,
                        3 <= nt <= 5,
                        nt <= w1,
                        buf1 == idx1 >> nt,
                        bs1 == (w1 - nt) as u8,
                        buf2 == buf1 | (idx2 << bs1),
                        bs2 == (bs1 + w2) as u8,
                        bs1 + w2 < 8,
                ;
                assert(dec_state_matches(nt2, buf2, bs2));
                lemma_round_trip_tail(rest, nt2, tb2, buf2, bs2);
                assert((tb2 << bs2) | buf2 == b) by (bit_vector)
                    requires
                        six1 == (tb | (b << nt)) & 0x3f,
                        idx1 == sym_index(six1),
                        w1 == sym_width(six1),
                        six2 == (b >> bs1) & 0x3f,
                        idx2 == sym_index(six2),
                        w2 == sym_width(six2),
                        tb >> nt == 0,
                        3 <= nt <= 5,
                        nt <= w1,
                        buf1 == idx1 >> nt,
                        bs1 == (w1 - nt) as u8,
                        buf2 == buf1 | (idx2 << bs1),
                        bs2 == (bs1 + w2) as u8,
                        bs1 + w2 < 8,
                        tb2 == b >> bs2,
                ;
                assert(mid[0] == idx2);
                assert(mid.drop_first() =~= tail);
                assert(decode_tail(mid, buf1, bs1) == r2.0 + decode_tail(tail, buf2, bs2));
                assert(decode_tail(whole, buf, bs) =~= pending(nt, tb, buf, bs) + s);
            }
        }
    }
}

/// Round trip: decoding the text that encoding any byte sequence produces
/// gives back exactly that byte sequence, and every byte of the encoded
/// text is an alphabet character.  The last line states it across the two
/// public contracts: `encode` returns a string whose view is
/// `encoded_chars(s)`, and `decode` reads that string's UTF-8 bytes.
pub proof fn lemma_round_trip(s: Seq<u8>)
    ensures
        all_alpha(encoded_bytes(s)),
        decoded_bytes(encoded_bytes(s)) == s,
        spec_decode(encoded_bytes(s)) == Ok::<Seq<u8>, DecodeError>(s),
        spec_decode(encode_utf8(encoded_chars(s))) == Ok::<Seq<u8>, DecodeError>(s),
{
    lemma_encoded_chars_utf8(s);
    assert(0u8 >> 0u8 == 0u8) by (bit_vector);
    let idxs = encode_indices(s);
    let enc = encoded_bytes(s);
    lemma_encode_tail_range(s, 0, 0);
    assert forall|i: int| 0 <= i < enc.len() implies is_alpha(#[trigger] enc[i]) by {
        lemma_alpha_byte_index(idxs[i]);
    }
    assert forall|i: int| 0 <= i < to_indices(enc).len() implies #[trigger] to_indices(enc)[i]
        == idxs[i] by {
        lemma_alpha_byte_index(idxs[i]);
    }
    assert(to_indices(enc) =~= idxs);
    lemma_round_trip_tail(s, 0, 0, 0, 0);
    assert(decoded_bytes(enc) =~= s);
}

/// The characters `encode` may produce, written as ranges.
pub open spec fn is_alpha_char(c: char) -> bool {
    ('0' <= c && c <= '9') || ('A' <= c && c <= 'Z') || ('a' <= c && c <= 'z')
}

/// Alphabet closure: every character of the encoding of any byte sequence
/// is a digit, an uppercase letter or a lowercase letter.
pub proof fn lemma_alphabet_closure(s: Seq<u8>)
    ensures
        forall|i: int|
            0 <= i < encoded_chars(s).len() ==> is_alpha_char(#[trigger] encoded_chars(s)[i]),
{
    assert(0u8 >> 0u8 == 0u8) by (bit_vector);
    let idxs = encode_indices(s);
    lemma_encode_tail_range(s, 0, 0);
    assert forall|i: int| 0 <= i < encoded_chars(s).len() implies is_alpha_char(
        #[trigger] encoded_chars(s)[i],
    ) by {
        assert(encoded_chars(s)[i] == alpha_byte(idxs[i]) as char);
        lemma_alpha_byte_index(idxs[i]);
    }
}

/// The encoding of any ASCII-only character sequence the encoder produces
/// has the encoder's alphabet bytes as its UTF-8 bytes: the bridge between
/// the string `encode` returns and the bytes `decode` reads.
pub proof fn lemma_encoded_chars_utf8(s: Seq<u8>)
    ensures
        is_ascii_chars(encoded_chars(s)),
        encode_utf8(encoded_chars(s)) == encoded_bytes(s),
{
    assert(0u8 >> 0u8 == 0u8) by (bit_vector);
    let idxs = encode_indices(s);
    let chars = encoded_chars(s);
    lemma_encode_tail_range(s, 0, 0);
    assert forall|i: int| 0 <= i < chars.len() implies '\0' <= #[trigger] chars[i] <= '\u{7f}' by {
        lemma_alpha_byte_index(idxs[i]);
        assert(chars[i] == alpha_byte(idxs[i]) as char);
    }
    assert(is_ascii_chars(chars));
    is_ascii_chars_encode_utf8(chars);
    assert forall|i: int| 0 <= i < encode_utf8(chars).len() implies #[trigger] encode_utf8(chars)[i]
        == encoded_bytes(s)[i] by {
        lemma_alpha_byte_index(idxs[i]);
        assert(chars[i] == alpha_byte(idxs[i]) as char);
        assert(encode_utf8(chars)[i] == chars[i] as u8);
    }
    assert(encode_utf8(chars) =~= encoded_bytes(s));
}

/// Error locality: when exactly one byte of the input is not an alphabet
/// character, decoding fails naming exactly that position and byte.
pub proof fn lemma_error_locality(s: Seq<u8>, p: int)
    requires
        0 <= p < s.len(),
        !is_alpha(s[p]),
        forall|j: int| 0 <= j < s.len() && j != p ==> is_alpha(#[trigger] s[j]),
    ensures
        spec_decode(s) == Err::<Seq<u8>, DecodeError>(
            DecodeError::InvalidByte(p as usize, s[p]),
        ),
{
    lemma_first_bad_at(s, p);
}

/// One encoder step consumes at least five bits of input per symbol.
proof fn lemma_encode_tail_len(s: Seq<u8>, nt: u8, tb: u8)
    requires
        enc_state_ok(nt, tb),
    ensures
        5 * encode_tail(s, nt, tb).len() <= 8 * s.len() + nt + 4,
    decreases s.len(),
{
    if s.len() == 0 {
    } else {
        let b = s[0];
        let step = enc_step(nt, tb, b);
        lemma_enc_step_ok(nt, tb, b);
        lemma_encode_tail_len(s.drop_first(), step.1, step.2);
        assert(5 * step.0.len() <= 8 + nt - step.1);
    }
}

/// Length bound for encoding: at most the ceiling of `8/5` characters per
/// input byte, since every symbol carries at least five bits.
pub proof fn lemma_encode_length(s: Seq<u8>)
    ensures
        5 * encoded_chars(s).len() <= 8 * s.len() + 4,
        encoded_chars(s).len() <= (8 * s.len() + 4) / 5,
{
    assert(0u8 >> 0u8 == 0u8) by (bit_vector);
    lemma_encode_tail_len(s, 0, 0);
    assert(encoded_chars(s).len() == encode_indices(s).len());
    assert(encoded_chars(s).len() <= (8 * s.len() + 4) / 5) by (nonlinear_arith)
        requires
            5 * encoded_chars(s).len() <= 8 * s.len() + 4,
    ;
}

/// Each symbol contributes at most six bits, and only complete groups of
/// eight become bytes, except for the final symbol's flush.
proof fn lemma_decode_tail_len(idxs: Seq<u8>, buf: u8, bs: u8)
    requires
        bs <= 7,
    ensures
        8 * decode_tail(idxs, buf, bs).len() <= 6 * idxs.len() + bs + 2,
    decreases idxs.len(),
{
    if idxs.len() <= 1 {
    } else {
        let r = dec_step(buf, bs, idxs[0]);
        lemma_decode_tail_len(idxs.drop_first(), r.1, r.2);
    }
}

/// Length bound for decoding: at most the ceiling of `6/8` bytes per input
/// character, since every symbol carries at most six bits.
pub proof fn lemma_decode_length(s: Seq<u8>)
    ensures
        8 * decoded_bytes(s).len() <= 6 * s.len() + 7,
        decoded_bytes(s).len() <= (6 * s.len() + 7) / 8,
{
    lemma_decode_tail_len(to_indices(s), 0, 0);
    assert(to_indices(s).len() == s.len());
    assert(decoded_bytes(s).len() <= (6 * s.len() + 7) / 8) by (nonlinear_arith)
        requires
            8 * decoded_bytes(s).len() <= 6 * s.len() + 7,
    ;
}

} // verus!
