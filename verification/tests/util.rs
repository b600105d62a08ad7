use pool::err::Error;
use pool::text::{chars_of, decimal_text, find_value, parse_decimal, split_chars};
use pool::util::{byte_v2hex, get_global_ipv6, hex2byte_v, hex_decode, InterfaceAddress};

#[test]
fn bytes_as_hex() {
    assert_eq!(byte_v2hex(&[]), "");
    assert_eq!(byte_v2hex(&[0]), "00");
    assert_eq!(byte_v2hex(&[0x0a, 0xff, 0x10, 0x9b]), "0aff109b");
}

#[test]
fn hex_as_bytes() {
    assert_eq!(hex2byte_v(""), Vec::<u8>::new());
    assert_eq!(hex2byte_v("0aff109b"), vec![0x0a, 0xff, 0x10, 0x9b]);
    assert_eq!(hex2byte_v("0AFF109B"), vec![0x0a, 0xff, 0x10, 0x9b]);
    assert_eq!(hex2byte_v("A"), vec![10]);
    assert_eq!(hex2byte_v("abc"), vec![0xab, 0x0c]);
    assert_eq!(hex_decode("ab0"), vec![0xab, 0x00]);
}

#[test]
fn hex_of_other_characters() {
    assert_eq!(hex_decode("g"), vec![16]);
    assert_eq!(hex_decode("z"), vec![35]);
    assert_eq!(hex_decode("A"), vec![234]);
    assert_eq!(hex_decode("1g"), vec![0x10 | 16]);
    assert_eq!(hex_decode("g1"), vec![0x01]);
    assert_eq!(hex_decode(" "), vec![201]);
}

#[test]
fn hex_round_trip() {
    let bytes: Vec<u8> = (0..=255).collect();
    assert_eq!(hex2byte_v(&byte_v2hex(&bytes)), bytes);
}

#[test]
fn numbers_as_decimal_text() {
    assert_eq!(decimal_text(0), "0");
    assert_eq!(decimal_text(7), "7");
    assert_eq!(decimal_text(10), "10");
    assert_eq!(decimal_text(4600), "4600");
    assert_eq!(decimal_text(u64::MAX), "18446744073709551615");
}

#[test]
fn decimal_text_as_numbers() {
    assert_eq!(parse_decimal("0"), Some(0));
    assert_eq!(parse_decimal("007"), Some(7));
    assert_eq!(parse_decimal("+42"), Some(42));
    assert_eq!(parse_decimal("18446744073709551615"), Some(u64::MAX));
    assert_eq!(parse_decimal("18446744073709551616"), None);
    assert_eq!(parse_decimal("99999999999999999999999"), None);
    assert_eq!(parse_decimal(""), None);
    assert_eq!(parse_decimal("+"), None);
    assert_eq!(parse_decimal("-1"), None);
    assert_eq!(parse_decimal("++1"), None);
    assert_eq!(parse_decimal("1+"), None);
    assert_eq!(parse_decimal(" 1"), None);
    assert_eq!(parse_decimal("1_0"), None);
    assert_eq!(parse_decimal("12a"), None);
    assert_eq!(parse_decimal("\u{0661}"), None);
}

#[test]
fn decimal_text_reads_as_std_reads_it() {
    for text in ["0", "+0", "00", "1", "+", "", "-0", "4600", "18446744073709551615", "18446744073709551616", "1e3"] {
        assert_eq!(parse_decimal(text), text.parse::<u64>().ok(), "{}", text);
    }
    for n in [0u64, 9, 10, 99, 100, 3600, u64::MAX] {
        assert_eq!(decimal_text(n), format!("{}", n));
        assert_eq!(parse_decimal(&decimal_text(n)), Some(n));
    }
}

#[test]
fn characters_and_pieces() {
    assert_eq!(chars_of("a;b"), vec!['a', ';', 'b']);
    let pieces = split_chars(&chars_of("a;;b;"), ';');
    assert_eq!(pieces, vec![vec!['a'], vec![], vec!['b'], vec![]]);
    assert_eq!(split_chars(&chars_of(""), ';'), vec![Vec::<char>::new()]);
}

#[test]
fn last_pair_of_a_name_counts() {
    let pairs = vec![
        ("a".to_string(), "1".to_string()),
        ("b".to_string(), "2".to_string()),
        ("a".to_string(), "3".to_string()),
    ];
    assert_eq!(find_value(&pairs, "a"), Some("3".to_string()));
    assert_eq!(find_value(&pairs, "b"), Some("2".to_string()));
    assert_eq!(find_value(&pairs, "c"), None);
    assert_eq!(find_value(&Vec::new(), "a"), None);
}

fn address(is_ipv6: bool, text: &str) -> InterfaceAddress {
    InterfaceAddress { is_ipv6, text: text.to_string() }
}

#[test]
fn first_global_ipv6_address_is_chosen() {
    let addresses = vec![
        address(false, "192.168.0.2"),
        address(true, "::1"),
        address(true, "fe80::1"),
        address(true, "2001:db8::7"),
        address(true, "2001:db8::8"),
    ];
    assert_eq!(get_global_ipv6(&addresses).unwrap(), "2001:db8::7");
}

#[test]
fn no_global_ipv6_address_is_an_error() {
    let addresses = vec![address(false, "2001:db8::7"), address(true, "fd00::1"), address(true, "::1")];
    assert!(matches!(get_global_ipv6(&addresses), Err(Error::NotFound(_))));
    assert!(matches!(get_global_ipv6(&Vec::new()), Err(Error::NotFound(_))));
}

#[test]
fn errors_carry_a_message_and_a_status() {
    assert_eq!(Error::Other("a".to_string()).message(), "a");
    assert_eq!(Error::NotLogin("b".to_string()).message(), "b");
    assert_eq!(Error::Bounds("c".to_string()).message(), "c");
    assert_eq!(Error::NotFound("d".to_string()).message(), "d");
    assert_eq!(Error::Io("e".to_string()).message(), "e");
    assert_eq!(Error::NotLogin("b".to_string()).status_code(), 401);
    assert_eq!(Error::Other("a".to_string()).status_code(), 500);
    assert_eq!(Error::Bounds("a".to_string()).status_code(), 500);
    assert_eq!(Error::NotFound("a".to_string()).status_code(), 500);
    assert_eq!(Error::Io("a".to_string()).status_code(), 500);
    let e = Error::Other("no cookie".to_string()).into_not_login();
    assert!(matches!(&e, Error::NotLogin(m) if m == "no cookie"));
}
