//! Character codec: a bidirectional mapping between a restricted Latin
//! alphabet with diacritics and single-byte codes.
//!
//! A code packs the base-letter ordinal (0 for `a` .. 25 for `z`) into the
//! upper five bits and a diacritic identifier (0 = none, 1 = grave,
//! 2 = acute, 3 = circumflex, 4 = trema, 5 = cedilla) into the lower three.
//! Comparing base letters only is then a single mask-and-compare.

use vstd::prelude::*;

verus! {

/// Search mode: `EXACT` compares encoded letters byte for byte, `ROOT`
/// compares the base-letter bits only, ignoring diacritics.
#[derive(PartialEq, Eq, Structural, Copy, Clone, Debug)]
pub enum SearchType {
    ROOT,
    EXACT,
}

/// The encoded byte for a supported character, `None` for any other.
pub open spec fn code_of(c: char) -> Option<u8> {
    let u = c as u32;
    if 97 <= u && u <= 122 {
        Some((8 * (u - 97)) as u8)
    } else if c == '\u{e0}' {
        Some(1u8) // a grave
    } else if c == '\u{e2}' {
        Some(3u8) // a circumflex
    } else if c == '\u{e4}' {
        Some(4u8) // a trema
    } else if c == '\u{e7}' {
        Some(21u8) // c cedilla
    } else if c == '\u{e8}' {
        Some(33u8) // e grave
    } else if c == '\u{e9}' {
        Some(34u8) // e acute
    } else if c == '\u{ea}' {
        Some(35u8) // e circumflex
    } else if c == '\u{eb}' {
        Some(36u8) // e trema
    } else if c == '\u{ee}' {
        Some(67u8) // i circumflex
    } else if c == '\u{ef}' {
        Some(68u8) // i trema
    } else if c == '\u{f4}' {
        Some(115u8) // o circumflex
    } else if c == '\u{f6}' {
        Some(116u8) // o trema
    } else if c == '\u{f9}' {
        Some(161u8) // u grave
    } else if c == '\u{fb}' {
        Some(163u8) // u circumflex
    } else if c == '\u{fc}' {
        Some(164u8) // u trema
    } else {
        None
    }
}

/// The plain letter with base ordinal `ord` (0 = `a` .. 25 = `z`).
pub open spec fn base_char_of(ord: u8) -> char {
    if ord == 0 { 'a' }
    else if ord == 1 { 'b' }
    else if ord == 2 { 'c' }
    else if ord == 3 { 'd' }
    else if ord == 4 { 'e' }
    else if ord == 5 { 'f' }
    else if ord == 6 { 'g' }
    else if ord == 7 { 'h' }
    else if ord == 8 { 'i' }
    else if ord == 9 { 'j' }
    else if ord == 10 { 'k' }
    else if ord == 11 { 'l' }
    else if ord == 12 { 'm' }
    else if ord == 13 { 'n' }
    else if ord == 14 { 'o' }
    else if ord == 15 { 'p' }
    else if ord == 16 { 'q' }
    else if ord == 17 { 'r' }
    else if ord == 18 { 's' }
    else if ord == 19 { 't' }
    else if ord == 20 { 'u' }
    else if ord == 21 { 'v' }
    else if ord == 22 { 'w' }
    else if ord == 23 { 'x' }
    else if ord == 24 { 'y' }
    else { 'z' }
}

/// The character a code decodes to, `None` when no supported character
/// carries that code.
pub open spec fn decode_code(b: u8) -> Option<char> {
    if b % 8 == 0 && b / 8 < 26 {
        Some(base_char_of((b / 8) as u8))
    } else if b == 1 {
        Some('\u{e0}')
    } else if b == 3 {
        Some('\u{e2}')
    } else if b == 4 {
        Some('\u{e4}')
    } else if b == 21 {
        Some('\u{e7}')
    } else if b == 33 {
        Some('\u{e8}')
    } else if b == 34 {
        Some('\u{e9}')
    } else if b == 35 {
        Some('\u{ea}')
    } else if b == 36 {
        Some('\u{eb}')
    } else if b == 67 {
        Some('\u{ee}')
    } else if b == 68 {
        Some('\u{ef}')
    } else if b == 115 {
        Some('\u{f4}')
    } else if b == 116 {
        Some('\u{f6}')
    } else if b == 161 {
        Some('\u{f9}')
    } else if b == 163 {
        Some('\u{fb}')
    } else if b == 164 {
        Some('\u{fc}')
    } else {
        None
    }
}

pub open spec fn is_supported_char(c: char) -> bool {
    code_of(c) is Some
}

pub open spec fn is_supported_code(b: u8) -> bool {
    decode_code(b) is Some
}

/// The code of a supported character (unspecified elsewhere).
pub open spec fn code_val(c: char) -> u8 {
    code_of(c).unwrap()
}

/// The character of a supported code (unspecified elsewhere).
pub open spec fn decode_val(b: u8) -> char {
    decode_code(b).unwrap()
}

pub open spec fn encode_seq(s: Seq<char>) -> Seq<u8> {
    s.map_values(|c: char| code_val(c))
}

pub open spec fn decode_seq(s: Seq<u8>) -> Seq<char> {
    s.map_values(|b: u8| decode_val(b))
}

pub open spec fn all_supported_chars(s: Seq<char>) -> bool {
    forall|i: int| 0 <= i < s.len() ==> is_supported_char(#[trigger] s[i])
}

pub open spec fn all_supported_codes(s: Seq<u8>) -> bool {
    forall|i: int| 0 <= i < s.len() ==> is_supported_code(#[trigger] s[i])
}

/// The value an encoded letter is compared by under a search mode: itself
/// under `EXACT`, its base-letter bits under `ROOT`.
pub open spec fn mask_code(b: u8, search_type: SearchType) -> u8 {
    if search_type == SearchType::EXACT {
        b
    } else {
        b & 0xf8u8
    }
}

/// Encoding round-trip: every supported character decodes back to itself.
pub proof fn lemma_codec_round_trip(c: char)
    requires
        is_supported_char(c),
    ensures
        decode_code(code_val(c)) == Some(c),
{
}

/// Decoding round-trip: every supported code encodes back to itself.
pub proof fn lemma_decode_then_encode(b: u8)
    requires
        is_supported_code(b),
    ensures
        code_of(decode_val(b)) == Some(b),
{
}

/// String round-trip: decoding an encoded string of supported characters
/// gives the string back.
pub proof fn lemma_string_round_trip(s: Seq<char>)
    requires
        all_supported_chars(s),
    ensures
        decode_seq(encode_seq(s)) == s,
{
    assert forall|i: int| 0 <= i < s.len() implies decode_seq(encode_seq(s))[i] == s[i] by {
        lemma_codec_round_trip(s[i]);
    }
    assert(decode_seq(encode_seq(s)) =~= s);
}

/// Packs a base-letter ordinal and a diacritic identifier into one byte:
/// the upper five bits hold the position, the lower three the diacritic.
pub fn encode_char(ascii_pos: u8, diacritic_identifier: u8) -> (r: u8)
    requires
        ascii_pos < 32,
        diacritic_identifier < 8,
    ensures
        r == ascii_pos * 8 + diacritic_identifier,
{
    let r = ascii_pos << 3u8 | diacritic_identifier;
    proof {
        assert(r == ascii_pos * 8 + diacritic_identifier) by (bit_vector)
            requires
                r == (ascii_pos << 3u8 | diacritic_identifier),
                ascii_pos < 32,
                diacritic_identifier < 8,
        ;
    }
    r
}

pub open spec fn is_diacritic_codepoint(code: u32) -> bool {
    code == 768 || code == 769 || code == 770 || code == 776 || code == 807
}

pub open spec fn spec_diacritic_offset(code: u32) -> u8 {
    if code == 768 { 1u8 }
    else if code == 769 { 2u8 }
    else if code == 770 { 3u8 }
    else if code == 776 { 4u8 }
    else { 5u8 }
}

/// Maps a combining-mark code point to the diacritic identifier the codec
/// packs into the low bits.
pub fn diacritic_to_offset(diacritic_code: u32) -> (r: u8)
    requires
        is_diacritic_codepoint(diacritic_code),
    ensures
        r == spec_diacritic_offset(diacritic_code),
{
    match diacritic_code {
        768 => 1, // grave accent
        769 => 2, // acute accent
        770 => 3, // circumflex
        776 => 4, // trema
        807 => 5, // cedilla
        _ => {
            proof {
                assert(false);
            }
            0
        },
    }
}

pub open spec fn spec_offset_diacritic(id: u8) -> Option<char> {
    if id == 0 { None }
    else if id == 1 { Some('\u{300}') }
    else if id == 2 { Some('\u{301}') }
    else if id == 3 { Some('\u{302}') }
    else if id == 4 { Some('\u{308}') }
    else { Some('\u{327}') }
}

/// Maps a diacritic identifier back to its combining-mark character,
/// `None` for the identifier that stands for "no diacritic".
pub fn offset_to_diacritic(diacritic_code: u8) -> (r: Option<char>)
    requires
        diacritic_code <= 5,
    ensures
        r == spec_offset_diacritic(diacritic_code),
{
    match diacritic_code {
        0 => None,
        1 => Some('\u{300}'), // grave accent
        2 => Some('\u{301}'), // acute accent
        3 => Some('\u{302}'), // circumflex
        4 => Some('\u{308}'), // trema
        _ => Some('\u{327}'), // cedilla
    }
}

/// Encodes one supported character.
pub fn char_to_u8(c: char) -> (r: u8)
    requires
        is_supported_char(c),
    ensures
        Some(r) == code_of(c),
{
    let u = c as u32;
    if 97 <= u && u <= 122 {
        encode_char((u - 97) as u8, 0)
    } else if c == '\u{e0}' {
        1
    } else if c == '\u{e2}' {
        3
    } else if c == '\u{e4}' {
        4
    } else if c == '\u{e7}' {
        21
    } else if c == '\u{e8}' {
        33
    } else if c == '\u{e9}' {
        34
    } else if c == '\u{ea}' {
        35
    } else if c == '\u{eb}' {
        36
    } else if c == '\u{ee}' {
        67
    } else if c == '\u{ef}' {
        68
    } else if c == '\u{f4}' {
        115
    } else if c == '\u{f6}' {
        116
    } else if c == '\u{f9}' {
        161
    } else if c == '\u{fb}' {
        163
    } else if c == '\u{fc}' {
        164
    } else {
        proof {
            assert(false);
        }
        0
    }
}

/// Decodes one supported code back to its character.
pub fn u8_to_char(encoded: u8) -> (r: char)
    requires
        is_supported_code(encoded),
    ensures
        Some(r) == decode_code(encoded),
        code_of(r) == Some(encoded),
{
    proof {
        lemma_decode_then_encode(encoded);
    }
    let diacritic_identifier = encoded & 7;
    proof {
        assert(diacritic_identifier == encoded % 8 && encoded / 8 < 32) by (bit_vector)
            requires
                diacritic_identifier == (encoded & 7),
        ;
    }
    if diacritic_identifier == 0 {
        let base = encoded >> 3u8;
        proof {
            assert(base == encoded / 8) by (bit_vector)
                requires
                    base == (encoded >> 3u8),
            ;
        }
        if base == 0 { 'a' }
        else if base == 1 { 'b' }
        else if base == 2 { 'c' }
        else if base == 3 { 'd' }
        else if base == 4 { 'e' }
        else if base == 5 { 'f' }
        else if base == 6 { 'g' }
        else if base == 7 { 'h' }
        else if base == 8 { 'i' }
        else if base == 9 { 'j' }
        else if base == 10 { 'k' }
        else if base == 11 { 'l' }
        else if base == 12 { 'm' }
        else if base == 13 { 'n' }
        else if base == 14 { 'o' }
        else if base == 15 { 'p' }
        else if base == 16 { 'q' }
        else if base == 17 { 'r' }
        else if base == 18 { 's' }
        else if base == 19 { 't' }
        else if base == 20 { 'u' }
        else if base == 21 { 'v' }
        else if base == 22 { 'w' }
        else if base == 23 { 'x' }
        else if base == 24 { 'y' }
        else { 'z' }
    } else if encoded == 1 {
        '\u{e0}'
    } else if encoded == 3 {
        '\u{e2}'
    } else if encoded == 4 {
        '\u{e4}'
    } else if encoded == 21 {
        '\u{e7}'
    } else if encoded == 33 {
        '\u{e8}'
    } else if encoded == 34 {
        '\u{e9}'
    } else if encoded == 35 {
        '\u{ea}'
    } else if encoded == 36 {
        '\u{eb}'
    } else if encoded == 67 {
        '\u{ee}'
    } else if encoded == 68 {
        '\u{ef}'
    } else if encoded == 115 {
        '\u{f4}'
    } else if encoded == 116 {
        '\u{f6}'
    } else if encoded == 161 {
        '\u{f9}'
    } else if encoded == 163 {
        '\u{fb}'
    } else {
        proof {
            assert(encoded == 164);
        }
        '\u{fc}'
    }
}

/// Encodes a string of supported characters, one byte per character.
pub fn str_to_u8(string: &str) -> (r: Vec<u8>)
    requires
        all_supported_chars(string@),
    ensures
        r@ == encode_seq(string@),
{
    let n = string.unicode_len();
    let mut r: Vec<u8> = Vec::new();
    let mut i: usize = 0;
    while i < n
        invariant
            all_supported_chars(string@),
            n == string@.len(),
            i <= n,
            r@ == encode_seq(string@.take(i as int)),
        decreases n - i,
    {
        let c = string.get_char(i);
        r.push(char_to_u8(c));
        proof {
            assert(string@.take(i + 1 as int) =~= string@.take(i as int).push(string@[i as int]));
            assert(encode_seq(string@.take(i + 1)) =~= encode_seq(string@.take(i as int)).push(
                code_val(string@[i as int]),
            ));
        }
        i += 1;
    }
    proof {
        assert(string@.take(n as int) =~= string@);
    }
    r
}

/// Relies on String::push: appends the given character to the end of the string.
pub assume_specification [ String::push ](s: &mut String, ch: char)
    ensures
        final(s)@ == old(s)@.push(ch),
;

/// Decodes a sequence of supported codes back to the string it encodes.
pub fn u8_to_str(encoded: &[u8]) -> (r: String)
    requires
        all_supported_codes(encoded@),
    ensures
        r@ == decode_seq(encoded@),
{
    let n = encoded.len();
    let mut r = String::new();
    let mut i: usize = 0;
    while i < n
        invariant
            all_supported_codes(encoded@),
            n == encoded@.len(),
            i <= n,
            r@ == decode_seq(encoded@.take(i as int)),
        decreases n - i,
    {
        let c = u8_to_char(encoded[i]);
        r.push(c);
        proof {
            assert(encoded@.take(i + 1 as int) =~= encoded@.take(i as int).push(encoded@[i as int]));
            assert(decode_seq(encoded@.take(i + 1)) =~= decode_seq(encoded@.take(i as int)).push(
                decode_val(encoded@[i as int]),
            ));
        }
        i += 1;
    }
    proof {
        assert(encoded@.take(n as int) =~= encoded@);
    }
    r
}

/// A supported character's code is itself a supported code.
pub proof fn lemma_encode_supported(c: char)
    requires
        is_supported_char(c),
    ensures
        is_supported_code(code_val(c)),
{
    lemma_codec_round_trip(c);
}

/// Tests whether a character belongs to the supported alphabet.
pub fn is_supported(c: char) -> (r: bool)
    ensures
        r == is_supported_char(c),
{
    let u = c as u32;
    (97 <= u && u <= 122) || c == '\u{e0}' || c == '\u{e2}' || c == '\u{e4}' || c == '\u{e7}'
        || c == '\u{e8}' || c == '\u{e9}' || c == '\u{ea}' || c == '\u{eb}' || c == '\u{ee}'
        || c == '\u{ef}' || c == '\u{f4}' || c == '\u{f6}' || c == '\u{f9}' || c == '\u{fb}'
        || c == '\u{fc}'
}

/// What `str::to_lowercase` returns for a string: the result depends on the
/// characters alone.
pub uninterp spec fn lower_of(s: Seq<char>) -> Seq<char>;

/// Relies on str::to_lowercase: returns the lowercase equivalent of the
/// string, as defined by the Unicode lowercase mapping; an empty string
/// stays empty.
#[verifier::external_body]
pub(crate) fn to_lowercase_str(s: &str) -> (r: String)
    ensures
        r@ == lower_of(s@),
        s@.len() == 0 ==> r@.len() == 0,
{
    s.to_lowercase()
}

/// Compares two encoded letters under a search mode: byte equality under
/// `EXACT`, base-letter equality under `ROOT`.
pub fn encoded_chars_equal(a: u8, b: u8, search_type: SearchType) -> (r: bool)
    ensures
        r == (mask_code(a, search_type) == mask_code(b, search_type)),
{
    if search_type == SearchType::EXACT {
        a == b
    } else {
        (a & 0b11111000) == (b & 0b11111000)
    }
}

} // verus!
