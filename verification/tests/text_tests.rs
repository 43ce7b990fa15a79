use ya_ok_core::text::{
    all_text_chars_allowed, base64_decode, base64_encode, decimal_text, fresh_uuid, hex_decode,
    hex_encode, is_uuid, is_whitespace, join_commas, parse_decimal, split_commas, trim,
};
use ya_ok_core::time::Timestamp;
use ya_ok_core::wire::{
    array_from_slice, array_to_vec, bytes_eq, read_byte_list, read_head, read_text, read_uint,
    str_eq, utf8_len, write_byte_list, write_head, write_text, write_uint,
};

#[test]
fn hexadecimal_is_lower_case_and_reads_both_cases() {
    assert_eq!(hex_encode(&[0x00, 0x0a, 0xff, 0x10]), "000aff10");
    assert_eq!(hex_encode(&[]), "");
    assert_eq!(hex_decode("000AfF10"), Some(vec![0x00, 0x0a, 0xff, 0x10]));
    assert_eq!(hex_decode(""), Some(vec![]));
    assert_eq!(hex_decode("abc"), None);
    assert_eq!(hex_decode("zz"), None);
    assert_eq!(hex_decode("я"), None);
}

#[test]
fn base64_is_standard_with_padding() {
    assert_eq!(base64_encode(b"hello"), "aGVsbG8=");
    assert_eq!(base64_encode(&[0xfb, 0xff]), "+/8=");
    assert_eq!(base64_decode("aGVsbG8="), Some(b"hello".to_vec()));
    assert_eq!(base64_decode("aGVsbG8"), None);
    assert_eq!(base64_decode("a,b"), None);
    assert_eq!(base64_decode(""), Some(vec![]));
    for n in 0usize..10 {
        assert_eq!(base64_encode(&vec![7u8; n]).len(), 4 * ((n + 2) / 3));
    }
}

#[test]
fn identifiers_are_uuids() {
    let id = fresh_uuid();
    assert_eq!(id.len(), 36);
    assert!(is_uuid(&id));
    assert_ne!(id, fresh_uuid());
    assert!(is_uuid("123e4567-e89b-12d3-a456-426614174000"));
    assert!(!is_uuid("%27; DROP TABLE messages;--"));
    assert!(!is_uuid(""));
}

#[test]
fn characters_of_a_text_are_judged_one_by_one() {
    assert!(all_text_chars_allowed(""));
    assert!(all_text_chars_allowed("Az09 .,!?\n"));
    assert!(all_text_chars_allowed("Їжак"));
    assert!(!all_text_chars_allowed("a-b"));
    assert!(!all_text_chars_allowed("ok\u{0}"));
}

#[test]
fn trimming_takes_white_space_from_both_ends() {
    assert_eq!(trim("  a b \n"), "a b");
    assert_eq!(trim(" \t "), "");
}

#[test]
fn pieces_between_commas() {
    assert_eq!(split_commas("a,b,,c"), vec!["a", "b", "", "c"]);
    assert_eq!(split_commas(""), vec![""]);
    assert_eq!(split_commas(","), vec!["", ""]);
    assert_eq!(split_commas("я,ї"), vec!["я", "ї"]);
    let pieces = vec!["a".to_string(), "".to_string(), "bc".to_string()];
    assert_eq!(join_commas(&pieces), "a,,bc");
    assert_eq!(join_commas(&[].to_vec()), "");
    assert_eq!(split_commas(&join_commas(&pieces)), pieces);
}

#[test]
fn numbers_in_decimal() {
    assert_eq!(decimal_text(0), "0");
    assert_eq!(decimal_text(9), "9");
    assert_eq!(decimal_text(10), "10");
    assert_eq!(decimal_text(40100), "40100");
    assert_eq!(decimal_text(u64::MAX), "18446744073709551615");
    assert_eq!(parse_decimal("0", 10), Some(0));
    assert_eq!(parse_decimal("007", 10), Some(7));
    assert_eq!(parse_decimal("+65535", 65535), Some(65535));
    assert_eq!(parse_decimal("65536", 65535), None);
    assert_eq!(parse_decimal("18446744073709551615", u64::MAX), Some(u64::MAX));
    assert_eq!(parse_decimal("18446744073709551616", u64::MAX), None);
    assert_eq!(parse_decimal("", 10), None);
    assert_eq!(parse_decimal("+", 10), None);
    assert_eq!(parse_decimal("-1", 10), None);
    assert_eq!(parse_decimal("1 ", 10), None);
    assert_eq!(parse_decimal("٣", 10), None);
}

#[test]
fn heads_take_the_shortest_form() {
    let cases: [(u64, Vec<u8>); 9] = [
        (0, vec![0x00]),
        (23, vec![0x17]),
        (24, vec![0x18, 24]),
        (255, vec![0x18, 255]),
        (256, vec![0x19, 1, 0]),
        (65535, vec![0x19, 255, 255]),
        (65536, vec![0x1a, 0, 1, 0, 0]),
        (4294967296, vec![0x1b, 0, 0, 0, 1, 0, 0, 0, 0]),
        (u64::MAX, vec![0x1b, 255, 255, 255, 255, 255, 255, 255, 255]),
    ];
    for (n, bytes) in cases {
        let mut out = vec![0xee];
        write_uint(&mut out, n);
        assert_eq!(&out[1..], &bytes[..]);
        assert_eq!(read_uint(&out, 1), Some((n, out.len())));
        assert_eq!(read_head(&out, 1), Some((0, n, out.len())));
        assert_eq!(read_uint(&out[..out.len() - 1], 1), None);
    }
    let mut map = Vec::new();
    write_head(&mut map, 5, 11);
    assert_eq!(map, vec![0xab]);
}

#[test]
fn heads_that_are_longer_than_needed_are_refused() {
    assert_eq!(read_uint(&[0x18, 23], 0), None);
    assert_eq!(read_uint(&[0x19, 0, 255], 0), None);
    assert_eq!(read_uint(&[0x1a, 0, 0, 255, 255], 0), None);
    assert_eq!(read_uint(&[0x1b, 0, 0, 0, 0, 255, 255, 255, 255], 0), None);
    assert_eq!(read_uint(&[0x1f], 0), None);
    assert_eq!(read_uint(&[0x1c], 0), None);
    assert_eq!(read_uint(&[0x20], 0), None);
    assert_eq!(read_uint(&[], 0), None);
}

#[test]
fn text_and_bytes_on_the_wire() {
    let mut out = Vec::new();
    write_text(&mut out, "їжак");
    assert_eq!(out[0], 0x68);
    assert_eq!(read_text(&out, 0), Some(("їжак".to_string(), 9)));
    assert_eq!(read_text(&[0x62, 0xff, 0xfe], 0), None);
    assert_eq!(read_text(&[0x62, b'a'], 0), None);
    let mut list = Vec::new();
    write_byte_list(&mut list, &[1, 24, 255]);
    assert_eq!(list, vec![0x83, 0x01, 0x18, 24, 0x18, 255]);
    assert_eq!(read_byte_list(&list, 0), Some((vec![1, 24, 255], 6)));
    assert_eq!(read_byte_list(&[0x81, 0x19, 1, 0], 0), None);
    assert_eq!(read_byte_list(&[0x82, 0x01], 0), None);
    assert_eq!(read_byte_list(&[0x43, 1, 2, 3], 0), None);
    assert_eq!(read_byte_list(&[0x80], 0), Some((vec![], 1)));
}

#[test]
fn small_helpers() {
    assert!(str_eq("a", "a"));
    assert!(!str_eq("a", "b"));
    assert!(!str_eq("a", "aa"));
    assert!(bytes_eq(&[1, 2], &[1, 2]));
    assert!(!bytes_eq(&[1, 2], &[1, 3]));
    assert_eq!(utf8_len("їжак"), 8);
    assert_eq!(array_from_slice::<4>(&[1, 2, 3, 4]), Some([1, 2, 3, 4]));
    assert_eq!(array_from_slice::<4>(&[1, 2, 3]), None);
    assert_eq!(array_to_vec(&[7u8; 3]), vec![7, 7, 7]);
}

#[test]
fn instants_are_compared_in_whole_seconds() {
    let a = Timestamp { secs: 100, nanos: 900_000_000 };
    let b = Timestamp { secs: 102, nanos: 100_000_000 };
    assert!(b.elapsed_at_least(&a, 1));
    assert!(!b.elapsed_at_least(&a, 2));
    assert!(b.elapsed_at_least(&a, 0));
    assert!(!a.elapsed_at_least(&b, 0));
    let near = Timestamp { secs: 101, nanos: 0 };
    assert!(a.elapsed_at_least(&near, 0));
    assert!(!a.elapsed_at_least(&near, 1));
    let far = Timestamp { secs: 98, nanos: 0 };
    assert!(!far.elapsed_at_least(&a, 0));
    assert!(a.is_before(&b));
    assert!(!b.is_before(&a));
    assert!(!a.is_before(&a));
    let extremes = Timestamp { secs: i64::MAX, nanos: 0 };
    let low = Timestamp { secs: i64::MIN, nanos: 0 };
    assert!(extremes.elapsed_at_least(&low, u32::MAX));
    assert_eq!(extremes.plus_seconds(1).secs, i64::MAX);
    assert_eq!(low.minus_seconds(1).secs, i64::MIN);
    assert_eq!(a.plus_seconds(5), Timestamp { secs: 105, nanos: 900_000_000 });
    assert_eq!(a.minus_seconds(5), Timestamp { secs: 95, nanos: 900_000_000 });
}

#[test]
fn instants_in_rfc_3339() {
    let t = Timestamp { secs: 1_700_000_000, nanos: 120_000_000 };
    assert_eq!(t.to_rfc3339().unwrap(), "2023-11-14T22:13:20.120+00:00");
    assert_eq!(t.to_wire_text().unwrap(), "2023-11-14T22:13:20.120Z");
    assert_eq!(Timestamp::from_secs(-1).to_wire_text().unwrap(), "1969-12-31T23:59:59Z");
    assert_eq!(Timestamp::parse_rfc3339("2023-11-14T22:13:20.120Z"), Some(t));
    assert_eq!(Timestamp::parse_rfc3339("2023-11-15T00:13:20.12+02:00"), Some(t));
    assert_eq!(Timestamp::parse_rfc3339("2023-11-14 22:13:20"), None);
    assert_eq!(Timestamp::parse_rfc3339(""), None);
    assert!(Timestamp { secs: i64::MAX, nanos: 0 }.to_rfc3339().is_none());
    assert!(Timestamp { secs: 0, nanos: 2_000_000_000 }.to_wire_text().is_none());
    let now = Timestamp::now();
    assert!(now.secs > 1_700_000_000);
    assert!(now.nanos < 1_000_000_000);
    assert_eq!(Timestamp::parse_rfc3339(&now.to_wire_text().unwrap()), Some(now));
}

#[test]
fn only_the_years_of_four_digits_are_written() {
    let last = Timestamp::from_secs(253_402_300_799);
    assert_eq!(last.to_wire_text().unwrap(), "9999-12-31T23:59:59Z");
    assert_eq!(last.to_rfc3339().unwrap(), "9999-12-31T23:59:59+00:00");
    assert_eq!(Timestamp::parse_rfc3339("9999-12-31T23:59:59Z"), Some(last));
    let beyond = Timestamp::from_secs(253_402_300_800);
    assert!(beyond.to_wire_text().is_none());
    assert!(beyond.to_rfc3339().is_none());
    let first = Timestamp::from_secs(-62_167_219_200);
    assert_eq!(first.to_wire_text().unwrap(), "0000-01-01T00:00:00Z");
    assert_eq!(Timestamp::parse_rfc3339("0000-01-01T00:00:00Z"), Some(first));
    assert_eq!(Timestamp::parse_rfc3339(&first.to_rfc3339().unwrap()), Some(first));
    let before = Timestamp::from_secs(-62_167_219_201);
    assert!(before.to_wire_text().is_none());
    assert!(before.to_rfc3339().is_none());
    assert_eq!(Timestamp::parse_rfc3339("+10000-01-01T00:00:00Z"), None);
}

#[test]
fn leap_second_is_written_and_read() {
    let leap = Timestamp { secs: 59, nanos: 1_500_000_000 };
    assert_eq!(leap.to_wire_text().unwrap(), "1970-01-01T00:00:60.500Z");
    assert_eq!(Timestamp::parse_rfc3339("1970-01-01T00:00:60.500Z"), Some(leap));
    assert_eq!(Timestamp::parse_rfc3339(&leap.to_rfc3339().unwrap()), Some(leap));
    assert!(Timestamp { secs: 58, nanos: 1_500_000_000 }.to_wire_text().is_none());
    let fine = Timestamp { secs: 1, nanos: 123_456_789 };
    assert_eq!(fine.to_wire_text().unwrap(), "1970-01-01T00:00:01.123456789Z");
    assert_eq!(Timestamp::parse_rfc3339(&fine.to_wire_text().unwrap()), Some(fine));
    let micro = Timestamp { secs: 1, nanos: 123_456_000 };
    assert_eq!(micro.to_wire_text().unwrap(), "1970-01-01T00:00:01.123456Z");
}

#[test]
fn message_beyond_the_calendar_cannot_be_written() {
    let mut message = ya_ok_core::message::Message::status(
        "a".to_string(),
        ya_ok_core::message::StatusType::Okay,
    );
    message.timestamp = Timestamp::from_secs(253_402_300_800);
    assert!(message.encode().is_none());
    message.timestamp = Timestamp::from_secs(253_402_300_799);
    let bytes = message.encode().unwrap();
    let back = ya_ok_core::message::Message::decode(&bytes).unwrap();
    assert_eq!(back.timestamp, message.timestamp);
}

#[test]
fn white_space_is_the_list_of_unicode() {
    let listed = |n: u32| {
        (0x09..=0x0d).contains(&n)
            || n == 0x20
            || n == 0x85
            || n == 0xa0
            || n == 0x1680
            || (0x2000..=0x200a).contains(&n)
            || n == 0x2028
            || n == 0x2029
            || n == 0x202f
            || n == 0x205f
            || n == 0x3000
    };
    let mut one = String::new();
    for n in 0..=0x10ffffu32 {
        if let Some(c) = char::from_u32(n) {
            one.clear();
            one.push(c);
            assert_eq!(trim(&one).is_empty(), listed(n), "U+{:04X}", n);
        }
    }
    assert_eq!(trim("\u{2003}\u{a0} a\u{3000}b \u{85}\n"), "a\u{3000}b");
    assert_eq!(trim("\u{200b}a\u{200b}"), "\u{200b}a\u{200b}");
    assert!(all_text_chars_allowed("a\u{2028}b"));
    assert!(!all_text_chars_allowed("a\u{200b}b"));
}

#[test]
fn hexadecimal_is_what_the_hex_library_writes_and_reads() {
    let all: Vec<u8> = (0u8..=255).collect();
    assert_eq!(hex_encode(&all), hex::encode(&all));
    assert_eq!(hex_encode(&[]), "");
    assert_eq!(hex_encode(&[0x00, 0x0f, 0xa0, 0xff]), "000fa0ff");
    let texts =
        ["", "00", "0f", "AbCdEf", "abc", "0g", "zz", "0 ", "é0", "00é", "ＡＢ", "+1", "0x10"];
    for text in texts {
        assert_eq!(hex_decode(text), hex::decode(text).ok(), "{}", text);
    }
    assert_eq!(hex_decode(&hex_encode(&all)), Some(all));
}

#[test]
fn white_space_and_trimming_are_those_of_the_standard_library() {
    for n in 0..=0x10ffffu32 {
        if let Some(c) = char::from_u32(n) {
            assert_eq!(is_whitespace(c), c.is_whitespace(), "U+{:04X}", n);
        }
    }
    let texts =
        ["", " ", "  a  ", "\t\na b\r\n", "a", " a", "a ", "\u{3000}é\u{85}", "\u{200b} x"];
    for text in texts {
        assert_eq!(trim(text), text.trim(), "{:?}", text);
    }
}
