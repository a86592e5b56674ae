//! Mathematical model of the Base64 codec: the standard alphabet
//! `A-Z a-z 0-9 + /` with `=` padding, mapping arbitrary byte sequences to
//! ASCII character sequences and back, together with the laws the codec
//! obeys (round trip, output length).

use vstd::prelude::*;
use vstd::utf8::decode_utf8;
use vstd::utf8::encode_utf8;
use vstd::utf8::encode_utf8_decode_utf8;
use vstd::utf8::encode_utf8_valid_utf8;
use vstd::utf8::is_ascii_chars;
use vstd::utf8::valid_utf8;

verus! {

/// The character standing for a 6-bit value under the standard Base64
/// alphabet: `A-Z` for 0..25, `a-z` for 26..51, `0-9` for 52..61, then
/// `+` and `/`.
pub open spec fn b64_char_of(v: u8) -> char
    recommends
        v < 64,
{
    if v < 26 {
        ((v + ('A' as u8)) as u8) as char
    } else if v < 52 {
        ((v - 26 + ('a' as u8)) as u8) as char
    } else if v < 62 {
        ((v - 52 + ('0' as u8)) as u8) as char
    } else if v == 62 {
        '+'
    } else {
        '/'
    }
}

/// True of the 64 data characters of the standard Base64 alphabet
/// (the padding character `=` is not among them).
pub open spec fn is_b64_digit(c: char) -> bool {
    ('A' <= c && c <= 'Z') || ('a' <= c && c <= 'z') || ('0' <= c && c <= '9') || c == '+' || c
        == '/'
}

/// The 6-bit value a Base64 data character stands for.
pub open spec fn b64_value_of(c: char) -> u8
    recommends
        is_b64_digit(c),
{
    if 'A' <= c && c <= 'Z' {
        (c as u8 - ('A' as u8)) as u8
    } else if 'a' <= c && c <= 'z' {
        (c as u8 - ('a' as u8) + 26) as u8
    } else if '0' <= c && c <= '9' {
        (c as u8 - ('0' as u8) + 52) as u8
    } else if c == '+' {
        62
    } else {
        63
    }
}

/// The four characters encoding one full group of three bytes: the 24 bits
/// of the group, read from the left in 6-bit slices.
pub open spec fn encode_group(b0: u8, b1: u8, b2: u8) -> Seq<char> {
    seq![
        b64_char_of((b0 / 4) as u8),
        b64_char_of(((b0 % 4) * 16 + b1 / 16) as u8),
        b64_char_of(((b1 % 16) * 4 + b2 / 64) as u8),
        b64_char_of((b2 % 64) as u8),
    ]
}

/// The Base64 encoding of a byte sequence: each group of three bytes
/// becomes four characters; a final group of one byte becomes two
/// characters and `==`, a final group of two bytes three characters and
/// `=`; the empty sequence encodes to the empty string.
pub open spec fn b64_encode(bytes: Seq<u8>) -> Seq<char>
    decreases bytes.len(),
{
    if bytes.len() == 0 {
        Seq::empty()
    } else if bytes.len() == 1 {
        seq![
            b64_char_of((bytes[0] / 4) as u8),
            b64_char_of(((bytes[0] % 4) * 16) as u8),
            '=',
            '=',
        ]
    } else if bytes.len() == 2 {
        seq![
            b64_char_of((bytes[0] / 4) as u8),
            b64_char_of(((bytes[0] % 4) * 16 + bytes[1] / 16) as u8),
            b64_char_of(((bytes[1] % 16) * 4) as u8),
            '=',
        ]
    } else {
        encode_group(bytes[0], bytes[1], bytes[2]) + b64_encode(bytes.skip(3))
    }
}

/// True of a well-formed final four-character group: two data characters
/// followed by either two more data characters, one data character and `=`,
/// or `==`.
pub open spec fn valid_last_group(s: Seq<char>) -> bool
    recommends
        s.len() == 4,
{
    is_b64_digit(s[0]) && is_b64_digit(s[1]) && (if s[3] == '=' {
        s[2] == '=' || is_b64_digit(s[2])
    } else {
        is_b64_digit(s[2]) && is_b64_digit(s[3])
    })
}

/// True when a character sequence is a well-formed Base64 encoding: its
/// length is a multiple of four, every group before the last holds four
/// data characters, and padding appears only in the last one or two
/// positions of the final group.
pub open spec fn is_valid_b64(s: Seq<char>) -> bool
    decreases s.len(),
{
    if s.len() == 0 {
        true
    } else if s.len() % 4 != 0 {
        false
    } else if s.len() == 4 {
        valid_last_group(s)
    } else {
        is_b64_digit(s[0]) && is_b64_digit(s[1]) && is_b64_digit(s[2]) && is_b64_digit(s[3])
            && is_valid_b64(s.skip(4))
    }
}

/// The bytes one well-formed four-character group decodes to: three for a
/// group without padding, two for a group ending in `=`, one for a group
/// ending in `==`.
pub open spec fn decode_group(s: Seq<char>) -> Seq<u8>
    recommends
        s.len() == 4,
        valid_last_group(s),
{
    let v0 = b64_value_of(s[0]);
    let v1 = b64_value_of(s[1]);
    if s[3] == '=' && s[2] == '=' {
        seq![(v0 * 4 + v1 / 16) as u8]
    } else {
        let v2 = b64_value_of(s[2]);
        if s[3] == '=' {
            seq![(v0 * 4 + v1 / 16) as u8, ((v1 % 16) * 16 + v2 / 4) as u8]
        } else {
            let v3 = b64_value_of(s[3]);
            seq![
                (v0 * 4 + v1 / 16) as u8,
                ((v1 % 16) * 16 + v2 / 4) as u8,
                ((v2 % 4) * 64 + v3) as u8,
            ]
        }
    }
}

/// The byte sequence a well-formed Base64 string decodes to.
pub open spec fn b64_decode(s: Seq<char>) -> Seq<u8>
    recommends
        is_valid_b64(s),
    decreases s.len(),
{
    if s.len() < 4 {
        Seq::empty()
    } else if s.len() == 4 {
        decode_group(s)
    } else {
        decode_group(s.take(4)) + b64_decode(s.skip(4))
    }
}

/// The number of bytes a well-formed Base64 string decodes to: three per
/// four-character group, less one byte for each padding character.
pub open spec fn decoded_len(s: Seq<char>) -> int
    recommends
        is_valid_b64(s),
{
    let n = s.len() as int;
    if n == 0 {
        0
    } else if s[n - 1] == '=' {
        if s[n - 2] == '=' {
            n / 4 * 3 - 2
        } else {
            n / 4 * 3 - 1
        }
    } else {
        n / 4 * 3
    }
}

/// The character sequence a sequence of ASCII codes spells.
pub open spec fn ascii_view(bytes: Seq<u8>) -> Seq<char> {
    bytes.map_values(|b: u8| b as char)
}

/// Every value below 64 is sent to a data character, never to `=`, and
/// looking that character up again yields the value.
pub proof fn lemma_char_value_inverse(v: u8)
    requires
        v < 64,
    ensures
        is_b64_digit(b64_char_of(v)),
        b64_char_of(v) != '=',
        b64_value_of(b64_char_of(v)) == v,
{
}

/// The four 6-bit slices an encoded three-byte group is built from lie
/// below 64 and reassemble into the original bytes.
pub proof fn lemma_group_pack(b0: u8, b1: u8, b2: u8)
    ensures
        b0 / 4 < 64,
        (b0 % 4) * 16 + b1 / 16 < 64,
        (b1 % 16) * 4 + b2 / 64 < 64,
        b2 % 64 < 64,
        (b0 / 4) * 4 + ((b0 % 4) * 16 + b1 / 16) / 16 == b0,
        (((b0 % 4) * 16 + b1 / 16) % 16) * 16 + ((b1 % 16) * 4 + b2 / 64) / 4 == b1,
        (((b1 % 16) * 4 + b2 / 64) % 4) * 64 + b2 % 64 == b2,
{
    assert((b0 / 4) * 4 + ((b0 % 4) * 16 + b1 / 16) / 16 == b0) by (bit_vector);
    assert((((b0 % 4) * 16 + b1 / 16) % 16) * 16 + ((b1 % 16) * 4 + b2 / 64) / 4 == b1)
        by (bit_vector);
    assert((((b1 % 16) * 4 + b2 / 64) % 4) * 64 + b2 % 64 == b2) by (bit_vector);
}

/// A well-formed Base64 string holds ASCII characters only.
pub proof fn lemma_valid_b64_ascii(s: Seq<char>)
    requires
        is_valid_b64(s),
    ensures
        is_ascii_chars(s),
    decreases s.len(),
{
    if s.len() == 0 {
    } else if s.len() == 4 {
        assert forall|i: int| 0 <= i < s.len() implies '\0' <= #[trigger] s[i] <= '\u{7f}' by {
            assert(is_b64_digit(s[i]) || s[i] == '=');
        }
    } else {
        lemma_valid_b64_ascii(s.skip(4));
        assert forall|i: int| 0 <= i < s.len() implies '\0' <= #[trigger] s[i] <= '\u{7f}' by {
            if i >= 4 {
                assert(s[i] == s.skip(4)[i - 4]);
                assert('\0' <= s.skip(4)[i - 4] <= '\u{7f}');
            }
        }
    }
}

/// The length law: the encoding of `n` bytes holds `4 * ceil(n / 3)`
/// characters.
pub proof fn lemma_encode_len(bytes: Seq<u8>)
    ensures
        b64_encode(bytes).len() == 4 * ((bytes.len() + 2) / 3),
    decreases bytes.len(),
{
    if bytes.len() >= 3 {
        lemma_encode_len(bytes.skip(3));
    }
}

/// One full group survives the round trip: its four characters are data
/// characters and decode back to the three bytes.
proof fn lemma_full_group_round_trip(b0: u8, b1: u8, b2: u8)
    ensures
        is_b64_digit(encode_group(b0, b1, b2)[0]),
        is_b64_digit(encode_group(b0, b1, b2)[1]),
        is_b64_digit(encode_group(b0, b1, b2)[2]),
        is_b64_digit(encode_group(b0, b1, b2)[3]),
        valid_last_group(encode_group(b0, b1, b2)),
        decode_group(encode_group(b0, b1, b2)) == seq![b0, b1, b2],
{
    lemma_group_pack(b0, b1, b2);
    lemma_char_value_inverse((b0 / 4) as u8);
    lemma_char_value_inverse(((b0 % 4) * 16 + b1 / 16) as u8);
    lemma_char_value_inverse(((b1 % 16) * 4 + b2 / 64) as u8);
    lemma_char_value_inverse((b2 % 64) as u8);
    assert(decode_group(encode_group(b0, b1, b2)) =~= seq![b0, b1, b2]);
}

/// The round-trip law: encoding always yields a well-formed Base64 string,
/// and decoding that string returns the original bytes.
pub proof fn lemma_encode_decode_round_trip(bytes: Seq<u8>)
    ensures
        is_valid_b64(b64_encode(bytes)),
        b64_decode(b64_encode(bytes)) == bytes,
    decreases bytes.len(),
{
    let s = b64_encode(bytes);
    if bytes.len() == 0 {
        assert(b64_decode(s) =~= bytes);
    } else if bytes.len() == 1 {
        let b0 = bytes[0];
        lemma_group_pack(b0, 0, 0);
        lemma_char_value_inverse((b0 / 4) as u8);
        lemma_char_value_inverse(((b0 % 4) * 16) as u8);
        assert(b64_decode(s) =~= bytes);
    } else if bytes.len() == 2 {
        let b0 = bytes[0];
        let b1 = bytes[1];
        lemma_group_pack(b0, b1, 0);
        lemma_char_value_inverse((b0 / 4) as u8);
        lemma_char_value_inverse(((b0 % 4) * 16 + b1 / 16) as u8);
        lemma_char_value_inverse(((b1 % 16) * 4) as u8);
        assert(b64_decode(s) =~= bytes);
    } else {
        let b0 = bytes[0];
        let b1 = bytes[1];
        let b2 = bytes[2];
        let rest = b64_encode(bytes.skip(3));
        lemma_full_group_round_trip(b0, b1, b2);
        lemma_encode_decode_round_trip(bytes.skip(3));
        lemma_encode_len(bytes.skip(3));
        if bytes.len() == 3 {
            assert(s =~= encode_group(b0, b1, b2));
            assert(b64_decode(s) =~= bytes);
        } else {
            assert(s.take(4) =~= encode_group(b0, b1, b2));
            assert(s.skip(4) =~= rest);
            assert(b64_decode(s) =~= bytes);
        }
    }
}

/// Decoding a well-formed Base64 string yields exactly `decoded_len` bytes.
pub proof fn lemma_decode_len(s: Seq<char>)
    requires
        is_valid_b64(s),
    ensures
        b64_decode(s).len() == decoded_len(s),
    decreases s.len(),
{
    if s.len() == 0 {
    } else if s.len() == 4 {
    } else {
        lemma_decode_len(s.skip(4));
        assert(s.skip(4)[s.len() - 5] == s[s.len() - 1]);
        assert(s.skip(4)[s.len() - 6] == s[s.len() - 2]);
    }
}

/// The text round-trip law: encoding a character sequence's UTF-8 bytes and
/// decoding the resulting Base64 string yields valid UTF-8 that reads back
/// as the original characters.
pub proof fn lemma_text_round_trip(s: Seq<char>)
    ensures
        is_valid_b64(b64_encode(encode_utf8(s))),
        valid_utf8(b64_decode(b64_encode(encode_utf8(s)))),
        decode_utf8(b64_decode(b64_encode(encode_utf8(s)))) == s,
{
    lemma_encode_decode_round_trip(encode_utf8(s));
    encode_utf8_valid_utf8(s);
    encode_utf8_decode_utf8(s);
}

} // verus!
