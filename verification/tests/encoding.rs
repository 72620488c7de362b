use pageserver::bin_ser::{
    get_be, get_bool, get_bytes, get_u32, get_u64, put_be, put_bool, put_bytes, put_u32, put_u64,
};
use pageserver::digits::{char_of_digit, digit_of, parse_radix, push_decimal, push_hex, to_chars};
use pageserver::layer_file::{
    decode_size_history, decode_version_history, encode_size_history, encode_version_history,
    get_version, put_version,
};
use pageserver::layer_name::{chars_are_relsizes_name, chars_to_tag, find_field_end};
use pageserver::lsn::Lsn;
use pageserver::page_version::{key_le, PageVersion, VersionHistory};
use pageserver::reconstruct::zero_page;
use pageserver::rel_size::SizeHistory;
use pageserver::repository::{RelTag, WALRecord};
use bytes::Bytes;

fn chars(s: &str) -> Vec<char> {
    s.chars().collect()
}

fn parse(s: &str, radix: u64, max: u64) -> Option<u64> {
    let v = chars(s);
    parse_radix(&v, 0, v.len(), radix, max)
}

#[test]
fn to_chars_gives_each_character() {
    assert_eq!(to_chars("a_\u{fc}1"), vec!['a', '_', '\u{fc}', '1']);
    assert_eq!(to_chars(""), Vec::<char>::new());
}

#[test]
fn digits_have_their_values() {
    assert_eq!(digit_of('0', 10), Some(0));
    assert_eq!(digit_of('9', 10), Some(9));
    assert_eq!(digit_of('a', 10), None);
    assert_eq!(digit_of('a', 16), Some(10));
    assert_eq!(digit_of('F', 16), Some(15));
    assert_eq!(digit_of('f', 16), Some(15));
    assert_eq!(digit_of('g', 16), None);
    assert_eq!(digit_of('G', 16), None);
    assert_eq!(digit_of('/', 16), None);
    assert_eq!(digit_of(':', 16), None);
    assert_eq!(digit_of('@', 16), None);
    assert_eq!(digit_of('`', 16), None);
    assert_eq!(digit_of('_', 16), None);
    assert_eq!(char_of_digit(0), '0');
    assert_eq!(char_of_digit(9), '9');
    assert_eq!(char_of_digit(10), 'A');
    assert_eq!(char_of_digit(15), 'F');
}

#[test]
fn numbers_are_parsed_as_the_standard_library_does() {
    for s in ["0", "7", "007", "+7", "4294967295", "4294967296", "", "+", "-1", "1 ", "1_0", "++1", "12a"] {
        assert_eq!(parse(s, 10, u32::MAX as u64), s.parse::<u32>().ok().map(|v| v as u64), "{:?}", s);
    }
    for s in ["0", "ff", "FF", "+fF", "FFFFFFFFFFFFFFFF", "10000000000000000", "0000000000000000000001", "", "0x1", "g", "-f"] {
        assert_eq!(parse(s, 16, u64::MAX), u64::from_str_radix(s, 16).ok(), "{:?}", s);
    }
    for s in ["255", "256", "0255", "999999999999999999999999"] {
        assert_eq!(parse(s, 10, 255), s.parse::<u8>().ok().map(|v| v as u64), "{:?}", s);
    }
}

#[test]
fn a_part_of_the_characters_is_parsed() {
    let v = chars("ab_123_cd");
    assert_eq!(parse_radix(&v, 3, 6, 10, 1000), Some(123));
    assert_eq!(parse_radix(&v, 3, 6, 10, 122), None);
    assert_eq!(parse_radix(&v, 3, 3, 10, 1000), None);
    assert_eq!(parse_radix(&v, 0, 2, 16, 1000), Some(0xab));
    assert_eq!(find_field_end(&v, 0), 2);
    assert_eq!(find_field_end(&v, 2), 2);
    assert_eq!(find_field_end(&v, 7), 9);
    assert_eq!(find_field_end(&v, 9), 9);
}

#[test]
fn numbers_are_written_in_decimal_and_hexadecimal() {
    let mut s = String::from("x");
    push_decimal(&mut s, 0);
    push_decimal(&mut s, 10);
    push_decimal(&mut s, u32::MAX);
    assert_eq!(s, "x0104294967295");
    let mut s = String::new();
    push_hex(&mut s, 0x1AB, 16);
    assert_eq!(s, "00000000000001AB");
    let mut s = String::new();
    push_hex(&mut s, 0x1AB, 2);
    push_hex(&mut s, 0x1AB, 0);
    assert_eq!(s, "AB");
    let mut s = String::new();
    push_hex(&mut s, u64::MAX, 16);
    assert_eq!(s, format!("{:016X}", u64::MAX));
}

#[test]
fn characters_decode_as_the_name_does() {
    let tag = RelTag { spcnode: 1, dbnode: 2, relnode: 3, forknum: 4 };
    assert_eq!(chars_to_tag(&chars("1_2_3_4_5_6")), Some((tag, Lsn(5), Lsn(6))));
    assert_eq!(chars_to_tag(&chars("1_2_3_4_5")), None);
    assert!(chars_are_relsizes_name(&chars("_relsizes")));
    assert!(chars_are_relsizes_name(&chars("1_2_3_4_5_6_relsizes")));
    assert!(!chars_are_relsizes_name(&chars("relsizes")));
    assert!(!chars_are_relsizes_name(&chars("1_2_3_4_5_6_relsize")));
    assert!(!chars_are_relsizes_name(&chars("1_2_3_4_5_6_relsizes_")));
    assert!(!chars_are_relsizes_name(&chars("")));
}

#[test]
fn numbers_are_stored_most_significant_byte_first() {
    let mut out = vec![9u8];
    put_u32(&mut out, 0x01020304);
    put_u64(&mut out, 0x1112131415161718);
    put_bool(&mut out, true);
    put_bool(&mut out, false);
    put_bytes(&mut out, b"xyz");
    put_be(&mut out, 0xABCDEF, 2);
    assert_eq!(
        out,
        vec![
            9, 1, 2, 3, 4, 0x11, 0x12, 0x13, 0x14, 0x15, 0x16, 0x17, 0x18, 1, 0, 0, 0, 0, 0, 0,
            0, 0, 3, b'x', b'y', b'z', 0xCD, 0xEF
        ]
    );
    assert_eq!(get_u32(&out, 1), Some((0x01020304, 5)));
    assert_eq!(get_u64(&out, 5), Some((0x1112131415161718, 13)));
    assert_eq!(get_bool(&out, 13), Some((true, 14)));
    assert_eq!(get_bool(&out, 14), Some((false, 15)));
    assert_eq!(get_bytes(&out, 15), Some((&b"xyz"[..], 26)));
    assert_eq!(get_be(&out, 26, 2), 0xCDEF);
    assert_eq!(get_be(&out, 26, 0), 0);
    // at the end and past what is there
    assert_eq!(get_u32(&out, 25), None);
    assert_eq!(get_u64(&out, 21), None);
    assert_eq!(get_bool(&out, 28), None);
    assert_eq!(get_bool(&out, 5), None);
    assert_eq!(get_bytes(&out, 16), None);
    assert_eq!(get_u32(&out, 24), Some((0x797ACDEF, 28)));
}

#[test]
fn a_length_past_the_end_is_refused() {
    let mut out = Vec::new();
    put_u64(&mut out, 4);
    out.extend_from_slice(b"abc");
    assert_eq!(get_bytes(&out, 0), None);
    out.push(b'd');
    assert_eq!(get_bytes(&out, 0), Some((&b"abcd"[..], 12)));
    let mut huge = Vec::new();
    put_u64(&mut huge, u64::MAX);
    assert_eq!(get_bytes(&huge, 0), None);
}

#[test]
fn a_page_version_is_read_back() {
    let v = PageVersion {
        page_image: Some(Bytes::from_static(b"image")),
        record: Some(WALRecord { will_init: true, rec: Bytes::from_static(b"") }),
    };
    let mut out = vec![0u8; 2];
    put_version(&mut out, &v);
    assert_eq!(out, vec![0, 0, 1, 0, 0, 0, 0, 0, 0, 0, 5, b'i', b'm', b'a', b'g', b'e', 1, 1, 0, 0, 0, 0, 0, 0, 0, 0]);
    let (back, next) = get_version(&out, 2).unwrap();
    assert_eq!(next, out.len());
    assert_eq!(&back.page_image.unwrap()[..], b"image");
    let rec = back.record.unwrap();
    assert!(rec.will_init);
    assert!(rec.rec.is_empty());
    assert!(get_version(&out[..out.len() - 1], 2).is_none());
    let copy = v.clone();
    assert_eq!(copy.page_image, v.page_image);
    assert_eq!(copy.record.unwrap().rec, v.record.unwrap().rec);
}

#[test]
fn empty_histories_are_eight_bytes() {
    assert_eq!(encode_version_history(&VersionHistory::new()), vec![0u8; 8]);
    assert_eq!(encode_size_history(&SizeHistory::new()), vec![0u8; 8]);
    assert_eq!(decode_version_history(&[0u8; 8]).unwrap().len(), 0);
    assert_eq!(decode_size_history(&[0u8; 8]).unwrap().len(), 0);
    assert!(decode_version_history(&[0u8; 7]).is_none());
    assert!(decode_size_history(&[0u8; 9]).is_none());
    // A count with no entries behind it.
    assert!(decode_size_history(&[0xff; 8]).is_none());
    assert!(decode_version_history(&[0, 0, 0, 0, 0, 0, 0, 1]).is_none());
}

#[test]
fn keys_are_ordered_by_block_then_lsn() {
    assert!(key_le(1, Lsn(5), 1, Lsn(5)));
    assert!(key_le(1, Lsn(5), 1, Lsn(6)));
    assert!(!key_le(1, Lsn(6), 1, Lsn(5)));
    assert!(key_le(1, Lsn(u64::MAX), 2, Lsn(0)));
    assert!(!key_le(2, Lsn(0), 1, Lsn(u64::MAX)));
}

#[test]
fn the_zero_page_has_the_size_of_a_page() {
    let page = zero_page();
    assert_eq!(page.len(), 8192);
    assert!(page.iter().all(|b| *b == 0));
}
