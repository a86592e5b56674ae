//! Executable Base64 codec: one encoder and one byte-level decoder, with
//! thin adapters presenting the decoded bytes as UTF-8 text, as a fill of a
//! caller-supplied buffer, or as an owned byte vector.

use vstd::prelude::*;

use crate::model::ascii_view;
use crate::model::b64_char_of;
use crate::model::b64_decode;
use crate::model::b64_encode;
use crate::model::b64_value_of;
use crate::model::decode_group;
use crate::model::decoded_len;
use crate::model::encode_group;
use crate::model::is_b64_digit;
use crate::model::is_valid_b64;
use crate::model::lemma_decode_len;
use crate::model::lemma_encode_decode_round_trip;
use crate::model::lemma_group_pack;
use crate::model::lemma_valid_b64_ascii;
use crate::model::valid_last_group;
use vstd::utf8::decode_utf8;
use vstd::utf8::encode_utf8;
use vstd::utf8::encode_utf8_decode_utf8;
use vstd::utf8::encode_utf8_valid_utf8;
use vstd::utf8::is_ascii_chars_encode_utf8;
use vstd::utf8::valid_utf8;

verus! {

/// Why a decode call failed: the input is not well-formed Base64 (or the
/// decoded bytes are not valid UTF-8 where text is asked for), or the
/// caller-supplied buffer cannot hold the decoded bytes.
#[derive(Clone, Copy, Debug, PartialEq, Eq, Structural)]
pub enum DecodeError {
    InvalidEncoding,
    BufferTooSmall,
}

/// The ASCII code of the Base64 data character standing for a 6-bit value.
fn digit_of(v: u8) -> (r: u8)
    requires
        v < 64,
    ensures
        r < 128,
        r as char == b64_char_of(v),
{
    if v < 26 {
        v + 'A' as u8
    } else if v < 52 {
        v - 26 + 'a' as u8
    } else if v < 62 {
        v - 52 + '0' as u8
    } else if v == 62 {
        '+' as u8
    } else {
        '/' as u8
    }
}

/// The 6-bit value of an ASCII code, or `None` when the code stands for no
/// Base64 data character.
fn value_of(b: u8) -> (r: Option<u8>)
    requires
        b < 128,
    ensures
        r is Some <==> is_b64_digit(b as char),
        r matches Some(v) ==> v < 64 && v == b64_value_of(b as char),
{
    if b >= 'A' as u8 && b <= 'Z' as u8 {
        Some(b - 'A' as u8)
    } else if b >= 'a' as u8 && b <= 'z' as u8 {
        Some(b - 'a' as u8 + 26)
    } else if b >= '0' as u8 && b <= '9' as u8 {
        Some(b - '0' as u8 + 52)
    } else if b == '+' as u8 {
        Some(62)
    } else if b == '/' as u8 {
        Some(63)
    } else {
        None
    }
}

/// Relies on `String::from_utf8`: it succeeds exactly on valid UTF-8 input
/// and then returns the string holding those very bytes, that is, the
/// UTF-8 decoding of the vector.
#[verifier::external_body]
fn string_from_utf8(bytes: Vec<u8>) -> (r: Option<String>)
    ensures
        r is Some <==> vstd::utf8::valid_utf8(bytes@),
        r matches Some(s) ==> s@ == vstd::utf8::decode_utf8(bytes@),
{
    String::from_utf8(bytes).ok()
}

/// Base64-encode a byte sequence: any input, the empty one included, maps
/// to its Base64 encoding; encoding never fails.
pub fn encode_bytes(bytes: &[u8]) -> (r: String)
    ensures
        r@ == b64_encode(bytes@),
{
    let n = bytes.len();
    let mut out: Vec<u8> = Vec::new();
    let mut i: usize = 0;
    proof {
        assert(bytes@.skip(0) =~= bytes@);
    }
    while n - i >= 3
        invariant
            i <= n,
            n == bytes@.len(),
            forall|k: int| 0 <= k < out@.len() ==> out@[k] < 128,
            b64_encode(bytes@) =~= ascii_view(out@) + b64_encode(bytes@.skip(i as int)),
        decreases n - i,
    {
        let b0 = bytes[i];
        let b1 = bytes[i + 1];
        let b2 = bytes[i + 2];
        proof {
            lemma_group_pack(b0, b1, b2);
        }
        let ghost prefix = out@;
        out.push(digit_of(b0 / 4));
        out.push(digit_of((b0 % 4) * 16 + b1 / 16));
        out.push(digit_of((b1 % 16) * 4 + b2 / 64));
        out.push(digit_of(b2 % 64));
        proof {
            assert(ascii_view(out@) =~= ascii_view(prefix) + encode_group(b0, b1, b2));
            assert(bytes@.skip(i as int).skip(3) =~= bytes@.skip(i + 3));
        }
        i = i + 3;
    }
    let ghost prefix = out@;
    if n - i == 1 {
        let b0 = bytes[i];
        proof {
            lemma_group_pack(b0, 0, 0);
        }
        out.push(digit_of(b0 / 4));
        out.push(digit_of((b0 % 4) * 16));
        out.push('=' as u8);
        out.push('=' as u8);
        proof {
            assert(ascii_view(out@) =~= ascii_view(prefix) + b64_encode(bytes@.skip(i as int)));
        }
    } else if n - i == 2 {
        let b0 = bytes[i];
        let b1 = bytes[i + 1];
        proof {
            lemma_group_pack(b0, b1, 0);
        }
        out.push(digit_of(b0 / 4));
        out.push(digit_of((b0 % 4) * 16 + b1 / 16));
        out.push(digit_of((b1 % 16) * 4));
        out.push('=' as u8);
        proof {
            assert(ascii_view(out@) =~= ascii_view(prefix) + b64_encode(bytes@.skip(i as int)));
        }
    } else {
        proof {
            assert(bytes@.skip(i as int) =~= Seq::<u8>::empty());
        }
    }
    let ghost chars = b64_encode(bytes@);
    proof {
        assert(chars =~= ascii_view(out@));
        lemma_encode_decode_round_trip(bytes@);
        lemma_valid_b64_ascii(chars);
        is_ascii_chars_encode_utf8(chars);
        assert(encode_utf8(chars) =~= out@);
        encode_utf8_valid_utf8(chars);
        encode_utf8_decode_utf8(chars);
    }
    match string_from_utf8(out) {
        Some(s) => s,
        None => vstd::pervasive::unreached(),
    }
}

/// Base64-decode a string into a fresh byte vector sized exactly to the
/// decoded length; a string that is not well-formed Base64 is rejected.
pub fn decode_as_vecu8(encoded: &str) -> (r: Result<Vec<u8>, DecodeError>)
    ensures
        match r {
            Ok(v) => is_valid_b64(encoded@) && v@ == b64_decode(encoded@) && v@.len()
                == decoded_len(encoded@),
            Err(e) => e == DecodeError::InvalidEncoding && !is_valid_b64(encoded@),
        },
{
    if !encoded.is_ascii() {
        proof {
            if is_valid_b64(encoded@) {
                lemma_valid_b64_ascii(encoded@);
            }
        }
        return Err(DecodeError::InvalidEncoding);
    }
    let s = encoded.as_bytes();
    let n = s.len();
    proof {
        vstd::string::is_ascii_spec_bytes(encoded);
        assert forall|k: int| #![trigger s@[k]] 0 <= k < n implies s@[k] < 128 && (s@[k] as char)
            == encoded@[k] by {
            assert('\0' <= encoded@[k] <= '\u{7f}');
            assert(s@[k] == encoded@[k] as u8);
        }
    }
    if n % 4 != 0 {
        return Err(DecodeError::InvalidEncoding);
    }
    let mut out: Vec<u8> = Vec::new();
    let mut i: usize = 0;
    proof {
        assert(encoded@.skip(0) =~= encoded@);
    }
    while i < n
        invariant
            i <= n,
            i % 4 == 0,
            n % 4 == 0,
            n == s@.len(),
            n == encoded@.len(),
            forall|k: int| #![trigger s@[k]] 0 <= k < n ==> s@[k] < 128 && (s@[k] as char)
                == encoded@[k],
            is_valid_b64(encoded@.skip(i as int)) ==> is_valid_b64(encoded@) && b64_decode(
                encoded@,
            ) =~= out@ + b64_decode(encoded@.skip(i as int)),
            !is_valid_b64(encoded@.skip(i as int)) ==> !is_valid_b64(encoded@),
        decreases n - i,
    {
        let ghost t = encoded@.skip(i as int);
        proof {
            assert(i + 4 <= n);
            assert(s@[i as int] < 128);
            assert(s@[i + 1] < 128);
            assert(s@[i + 2] < 128);
            assert(s@[i + 3] < 128);
        }
        let w0 = value_of(s[i]);
        let w1 = value_of(s[i + 1]);
        let (v0, v1) = match (w0, w1) {
            (Some(v0), Some(v1)) => (v0, v1),
            _ => {
                return Err(DecodeError::InvalidEncoding);
            },
        };
        let ghost prefix = out@;
        if i + 4 < n {
            // a group before the last one: four data characters, no padding
            let w2 = value_of(s[i + 2]);
            let w3 = value_of(s[i + 3]);
            match (w2, w3) {
                (Some(v2), Some(v3)) => {
                    out.push(v0 * 4 + v1 / 16);
                    out.push((v1 % 16) * 16 + v2 / 4);
                    out.push((v2 % 4) * 64 + v3);
                    proof {
                        assert(t.take(4) =~= seq![t[0], t[1], t[2], t[3]]);
                        assert(t.skip(4) =~= encoded@.skip(i + 4));
                        assert(out@ =~= prefix + decode_group(t.take(4)));
                    }
                },
                _ => {
                    return Err(DecodeError::InvalidEncoding);
                },
            }
        } else {
            // the final group: padding allowed in the last two positions
            let b2 = s[i + 2];
            let b3 = s[i + 3];
            if b3 == '=' as u8 {
                if b2 == '=' as u8 {
                    out.push(v0 * 4 + v1 / 16);
                } else {
                    match value_of(b2) {
                        Some(v2) => {
                            out.push(v0 * 4 + v1 / 16);
                            out.push((v1 % 16) * 16 + v2 / 4);
                        },
                        None => {
                            return Err(DecodeError::InvalidEncoding);
                        },
                    }
                }
            } else {
                match (value_of(b2), value_of(b3)) {
                    (Some(v2), Some(v3)) => {
                        out.push(v0 * 4 + v1 / 16);
                        out.push((v1 % 16) * 16 + v2 / 4);
                        out.push((v2 % 4) * 64 + v3);
                    },
                    _ => {
                        return Err(DecodeError::InvalidEncoding);
                    },
                }
            }
            proof {
                assert(t =~= seq![t[0], t[1], t[2], t[3]]);
                assert(t.skip(4) =~= encoded@.skip(i + 4));
                assert(valid_last_group(t));
                assert(out@ =~= prefix + decode_group(t));
            }
        }
        i = i + 4;
    }
    proof {
        assert(encoded@.skip(n as int) =~= Seq::<char>::empty());
        assert(b64_decode(encoded@) =~= out@);
        lemma_decode_len(encoded@);
    }
    Ok(out)
}

/// Base64-decode a string and present the decoded bytes as UTF-8 text;
/// rejected when the input is not well-formed Base64 or when the decoded
/// bytes are not valid UTF-8.
pub fn decode(encoded: &str) -> (r: Result<String, DecodeError>)
    ensures
        match r {
            Ok(text) => is_valid_b64(encoded@) && valid_utf8(b64_decode(encoded@)) && text@
                == decode_utf8(b64_decode(encoded@)),
            Err(e) => e == DecodeError::InvalidEncoding && !(is_valid_b64(encoded@) && valid_utf8(
                b64_decode(encoded@),
            )),
        },
{
    match decode_as_vecu8(encoded) {
        Ok(v) => match string_from_utf8(v) {
            Some(text) => Ok(text),
            None => Err(DecodeError::InvalidEncoding),
        },
        Err(e) => Err(e),
    }
}

/// Base64-decode a string into the front of a caller-supplied buffer. The
/// buffer keeps its length; bytes past the decoded length keep their old
/// values. Rejected when the input is not well-formed Base64 or when the
/// buffer is shorter than the decoded length; the buffer is then left
/// unchanged.
pub fn decode_as_mut8(encoded: &str, dest: &mut Vec<u8>) -> (r: Result<(), DecodeError>)
    ensures
        final(dest)@.len() == old(dest)@.len(),
        match r {
            Ok(()) => is_valid_b64(encoded@) && b64_decode(encoded@).len() <= old(dest)@.len()
                && final(dest)@ == b64_decode(encoded@) + old(dest)@.skip(
                b64_decode(encoded@).len() as int,
            ),
            Err(e) => final(dest)@ == old(dest)@ && (if is_valid_b64(encoded@) {
                e == DecodeError::BufferTooSmall && b64_decode(encoded@).len() > old(dest)@.len()
            } else {
                e == DecodeError::InvalidEncoding
            }),
        },
{
    let v = match decode_as_vecu8(encoded) {
        Ok(v) => v,
        Err(e) => {
            return Err(e);
        },
    };
    let m = v.len();
    if m > dest.len() {
        return Err(DecodeError::BufferTooSmall);
    }
    let mut j: usize = 0;
    while j < m
        invariant
            j <= m,
            m == v@.len(),
            m <= dest@.len(),
            dest@.len() == old(dest)@.len(),
            dest@ =~= v@.take(j as int) + old(dest)@.skip(j as int),
        decreases m - j,
    {
        dest[j] = v[j];
        proof {
            assert(dest@ =~= v@.take(j + 1) + old(dest)@.skip(j + 1));
        }
        j = j + 1;
    }
    proof {
        assert(dest@ =~= v@ + old(dest)@.skip(m as int));
    }
    Ok(())
}

/// Base64-encode the UTF-8 bytes of a string.
pub fn encode(text: &str) -> (r: String)
    ensures
        r@ == b64_encode(encode_utf8(text@)),
{
    encode_bytes(text.as_bytes())
}

} // verus!
