use std::ops::RangeFull;

use kbdreg::errors::RegistryError;
use kbdreg::layout::KlcInfo;
use kbdreg::lines::Utf16Lines;
use kbdreg::ranges::RangeBoundsExt;
use kbdreg::strutil::parse_hex_bounded;
use kbdreg::strutil::StringExt;
use kbdreg::utf16::AsU16Slice;
use kbdreg::utf16::IntoU16Iter;
use kbdreg::utf16::U16Iter;
use kbdreg::value::RegistryValueData;
use kbdreg::value::REG_DWORD_BIG_ENDIAN;
use kbdreg::value::REG_DWORD_LITTLE_ENDIAN;
use kbdreg::value::REG_EXPAND_SZ;
use kbdreg::value::REG_SZ;

fn utf16_bytes(text: &str) -> Vec<u8> {
    let mut out = Vec::new();
    for unit in text.encode_utf16() {
        out.push((unit & 0xFF) as u8);
        out.push((unit >> 8) as u8);
    }
    out
}

#[test]
fn test_is_empty() {
    let full = ..;
    assert!(!<RangeFull as RangeBoundsExt<usize>>::is_empty(&full));
    assert!((..0).is_empty());
    assert!((1..0).is_empty());
    assert!((1..1).is_empty());
    assert!(!(1..2).is_empty());
    assert!(!(-10..).is_empty());
}

#[test]
fn test_into_range() {
    assert_eq!(0..10, (..).into_range(10));
    assert_eq!(0..7, (..7).into_range(10));
    assert_eq!(0..8, (..=7).into_range(10));
    assert_eq!(3..10, (3..).into_range(10));
    assert_eq!(3..7, (3..7).into_range(10));
    assert_eq!(3..8, (3..=7).into_range(10));
}

#[test]
fn test_remove_prefix() {
    let mut string = "Hello, world!".to_string();
    assert!(!string.remove_prefix("world!"));
    assert_eq!(string, "Hello, world!");
    assert!(string.remove_prefix("Hello, "));
    assert_eq!(string, "world!");
}

#[test]
fn test_remove_suffix() {
    let mut string = "Hello, world!".to_string();
    assert!(!string.remove_suffix("Hello, "));
    assert_eq!(string, "Hello, world!");
    assert!(string.remove_suffix(", world!"));
    assert_eq!(string, "Hello");
}

#[test]
fn test_utf16() {
    let str = "\u{feff}KBD\tmultilin\t\"Multilingual\"\r\n";
    let mut string = str.to_string();
    assert!(string.remove_prefix("\u{feff}"));
    assert_eq!(string, "KBD\tmultilin\t\"Multilingual\"\r\n");
    assert!(string.remove_suffix("\n"));
    assert_eq!(string, "KBD\tmultilin\t\"Multilingual\"\r");
    assert!(string.remove_suffix("\r"));
    assert_eq!(string, "KBD\tmultilin\t\"Multilingual\"");
}

#[test]
fn dword_round_trips() {
    let (tag, data) = RegistryValueData::Dword(0xDEAD_BEEF).to_raw();
    assert_eq!(tag, REG_DWORD_LITTLE_ENDIAN);
    assert_eq!(data, vec![0xEF, 0xBE, 0xAD, 0xDE]);
    match RegistryValueData::from_data(tag, data).unwrap() {
        RegistryValueData::Dword(x) => assert_eq!(x, 0xDEAD_BEEF),
        _ => panic!("Expected a 32-bit value!"),
    }
}

#[test]
fn qword_round_trips() {
    let (tag, data) = RegistryValueData::Qword(0x0123_4567_89AB_CDEF).to_raw();
    match RegistryValueData::from_data(tag, data).unwrap() {
        RegistryValueData::Qword(x) => assert_eq!(x, 0x0123_4567_89AB_CDEF),
        _ => panic!("Expected a 64-bit value!"),
    }
}

#[test]
fn big_endian_dword_decodes_by_tag() {
    let v = RegistryValueData::from_data(REG_DWORD_BIG_ENDIAN, vec![0xDE, 0xAD, 0xBE, 0xEF]);
    match v.unwrap() {
        RegistryValueData::Dword(x) => assert_eq!(x, 0xDEAD_BEEF),
        _ => panic!("Expected a 32-bit value!"),
    }
}

#[test]
fn binary_round_trips() {
    let (tag, data) = RegistryValueData::Binary(vec![1, 2, 3, 0, 255]).to_raw();
    match RegistryValueData::from_data(tag, data).unwrap() {
        RegistryValueData::Binary(b) => assert_eq!(b, vec![1, 2, 3, 0, 255]),
        _ => panic!("Expected a binary value!"),
    }
}

#[test]
fn string_round_trips() {
    let (tag, data) = RegistryValueData::String("höhe\u{1F600}".to_string()).to_raw();
    assert_eq!(tag, REG_SZ);
    match RegistryValueData::from_data(tag, data).unwrap() {
        RegistryValueData::String(s) => assert_eq!(s, "höhe\u{1F600}"),
        _ => panic!("Expected string value!"),
    }
}

#[test]
fn multi_string_round_trips() {
    let input = vec!["a".to_string(), "bc".to_string()];
    let (tag, data) = RegistryValueData::MultiString(input.clone()).to_raw();
    match RegistryValueData::from_data(tag, data).unwrap() {
        RegistryValueData::MultiString(out) => assert_eq!(out, input),
        _ => panic!("Expected a string list!"),
    }
}

#[test]
fn short_dword_is_malformed() {
    let r = RegistryValueData::from_data(REG_DWORD_LITTLE_ENDIAN, vec![1, 2, 3]);
    assert_eq!(r.unwrap_err(), RegistryError::MalformedValue(REG_DWORD_LITTLE_ENDIAN));
}

#[test]
fn unknown_tag_is_malformed_with_tag() {
    let r = RegistryValueData::from_data(99, vec![]);
    assert_eq!(r.unwrap_err(), RegistryError::MalformedValue(99));
}

#[test]
fn sz_decoding_stops_at_first_nul() {
    let mut data = utf16_bytes("ab");
    data.extend_from_slice(&[0, 0]);
    let more = utf16_bytes("cd");
    data.extend_from_slice(&more);
    match RegistryValueData::from_data(REG_SZ, data).unwrap() {
        RegistryValueData::String(s) => assert_eq!(s, "ab"),
        _ => panic!("Expected string value!"),
    }
}

#[test]
fn unpaired_surrogate_is_malformed_for_sz_but_kept_for_expand() {
    let bad = vec![0x00, 0xD8];
    let r = RegistryValueData::from_data(REG_SZ, bad.clone());
    assert_eq!(r.unwrap_err(), RegistryError::MalformedValue(REG_SZ));

    match RegistryValueData::from_data(REG_EXPAND_SZ, bad).unwrap() {
        RegistryValueData::ExpandString(s) => assert_eq!(s, "\u{FFFD}"),
        _ => panic!("Expected expandable string value!"),
    }
}

#[test]
fn expand_string_keeps_terminator_on_read() {
    let (tag, data) = RegistryValueData::ExpandString("%PATH%".to_string()).to_raw();
    assert_eq!(tag, REG_EXPAND_SZ);
    match RegistryValueData::from_data(tag, data).unwrap() {
        RegistryValueData::ExpandString(s) => assert_eq!(s, "%PATH%\0"),
        _ => panic!("Expected expandable string value!"),
    }
}

#[test]
fn u16_iter_pairs_bytes_low_first() {
    let mut it = U16Iter::new(vec![0x41, 0x00, 0x0A, 0x01, 0xFF]);
    assert_eq!(it.next(), Some(0x0041));
    assert_eq!(it.next(), Some(0x010A));
    assert_eq!(it.next(), None);

    let mut it2 = vec![0x34, 0x12].into_u16_iter();
    assert_eq!(it2.next(), Some(0x1234));
    assert_eq!(it2.next(), None);

    let units = vec![0x61, 0x00, 0x62, 0x00, 0x63].as_u16_slice();
    assert_eq!(units, vec![0x0061, 0x0062]);
}

#[test]
fn utf16_lines_strip_bom_and_endings() {
    let text = "\u{feff}KBD\tus\t\"United States\"\r\nsecond line\r\nlast";
    let mut lines = Utf16Lines::new(utf16_bytes(text));
    assert_eq!(lines.next().unwrap().unwrap(), "KBD\tus\t\"United States\"");
    assert_eq!(lines.next().unwrap().unwrap(), "second line");
    assert_eq!(lines.next().unwrap().unwrap(), "last");
    assert!(lines.next().is_none());
}

#[test]
fn utf16_lines_report_bad_units_and_continue() {
    let mut bytes = vec![0x00, 0xD8, 0x0A, 0x00];
    bytes.extend_from_slice(&utf16_bytes("ok"));
    let mut lines = Utf16Lines::new(bytes);
    assert!(lines.next().unwrap().is_err());
    assert_eq!(lines.next().unwrap().unwrap(), "ok");
    assert!(lines.next().is_none());
}

#[test]
fn klc_record_is_read_from_utf16_bytes() {
    let text = "\u{feff}KBD\tmultilin\t\"Multilingual\"\r\n\r\nLOCALEID\t\"0000040c\"\r\nrest\r\n";
    let info = KlcInfo::from_utf16_bytes(utf16_bytes(text)).unwrap();
    assert_eq!(info.layout_name, "multilin");
    assert_eq!(info.layout_text, "Multilingual");
    assert_eq!(info.locale_id, 0x040C);
}

#[test]
fn klc_without_record_is_an_error() {
    let text = "\u{feff}just a line\r\n";
    assert!(KlcInfo::from_utf16_bytes(utf16_bytes(text)).is_err());
}

#[test]
fn hex_parsing_matches_the_standard_parser() {
    assert_eq!(parse_hex_bounded("0f3A", 0xFFFF), Some(0x0F3A));
    assert_eq!(parse_hex_bounded("+ff", 0xFFFF), Some(0xFF));
    assert_eq!(parse_hex_bounded("", 0xFFFF), None);
    assert_eq!(parse_hex_bounded("+", 0xFFFF), None);
    assert_eq!(parse_hex_bounded("12g4", 0xFFFF), None);
    assert_eq!(parse_hex_bounded("10000", 0xFFFF), None);
    assert_eq!(parse_hex_bounded("ffff", 0xFFFF), Some(0xFFFF));
}
