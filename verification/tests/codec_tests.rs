use anagramdr::codec::{
    char_to_u8, diacritic_to_offset, encode_char, offset_to_diacritic, str_to_u8, u8_to_char,
    u8_to_str,
};

#[test]
fn char_encoding_decoding() {
    let encoded = char_to_u8('e');
    assert_eq!(encoded, 0b00100000); // e is 5th position, so '4'
    assert_eq!(u8_to_char(0b00100000), 'e');
    let encoded = char_to_u8('é');
    assert_eq!(encoded, 0b00100010);
    assert_eq!(u8_to_char(0b00100010), 'é');
    let encoded = char_to_u8('è');
    assert_eq!(encoded, 0b00100001);
    assert_eq!(u8_to_char(0b00100001), 'è');
    let encoded = char_to_u8('ê');
    assert_eq!(encoded, 0b00100011);
    assert_eq!(u8_to_char(0b00100011), 'ê');
    let encoded = char_to_u8('ë');
    assert_eq!(encoded, 0b00100100);
    assert_eq!(u8_to_char(0b00100100), 'ë');
}

#[test]
fn str_encoding_decoding() {
    let encoded = str_to_u8("montceaulesmines");
    assert_eq!(u8_to_str(&encoded), "montceaulesmines");
}

#[test]
fn main_char_encoding_decoding() {
    let encoded = char_to_u8('e');
    assert_eq!(encoded, 0b00100000); // e is 5th position, so '4'
    assert_eq!(u8_to_char(0b00100000), 'e');
    let encoded = char_to_u8('é');
    assert_eq!(encoded, 0b00100010);
    assert_eq!(u8_to_char(0b00100010), 'é');
    let encoded = char_to_u8('è');
    assert_eq!(encoded, 0b00100001);
    assert_eq!(u8_to_char(0b00100001), 'è');
    let encoded = char_to_u8('ê');
    assert_eq!(encoded, 0b00100011);
    assert_eq!(u8_to_char(0b00100011), 'ê');
    let encoded = char_to_u8('ë');
    assert_eq!(encoded, 0b00100100);
    assert_eq!(u8_to_char(0b00100100), 'ë');
}

#[test]
fn main_str_encoding_decoding() {
    let encoded = str_to_u8("montceaulesmines");
    assert_eq!(u8_to_str(&encoded), "montceaulesmines");
}

#[test]
fn every_supported_char_round_trips() {
    let supported = "a\u{e0}\u{e2}\u{e4}bc\u{e7}de\u{e9}\u{e8}\u{ea}\u{eb}fghi\u{ee}\u{ef}jklmno\u{f4}\u{f6}pqrstu\u{fb}\u{fc}\u{f9}vwxyz";
    for c in supported.chars() {
        let code = char_to_u8(c);
        assert_eq!(u8_to_char(code), c);
    }
}

#[test]
fn accented_string_round_trips() {
    let encoded = str_to_u8("effor\u{e7}a");
    assert_eq!(u8_to_str(&encoded), "effor\u{e7}a");
}

#[test]
fn encode_char_packs_position_and_diacritic() {
    assert_eq!(encode_char(4, 2), 0b00100010); // e with acute accent
    assert_eq!(encode_char(25, 0), 200); // plain z
}

#[test]
fn diacritic_offsets_match_combining_marks() {
    assert_eq!(diacritic_to_offset(768), 1); // grave accent
    assert_eq!(diacritic_to_offset(769), 2); // acute accent
    assert_eq!(diacritic_to_offset(770), 3); // circumflex
    assert_eq!(diacritic_to_offset(776), 4); // trema
    assert_eq!(diacritic_to_offset(807), 5); // cedilla
    assert_eq!(offset_to_diacritic(0), None);
    for id in 1..=5u8 {
        let mark = offset_to_diacritic(id).unwrap();
        assert_eq!(diacritic_to_offset(mark as u32), id);
    }
}
