use sensor_relay::codec::{check_utf8, decode, encode, parse_response, SensorCommand};
use sensor_relay::error::Error;
use sensor_relay::number::{check_number, Decimal};

fn text(d: &Decimal) -> &[u8] {
    d.as_bytes()
}

#[test]
fn decode_reads_humidity_first() {
    let mut buf = b"45.2 21.7\n".to_vec();
    let reading = decode(&mut buf).unwrap().unwrap();
    assert_eq!(text(&reading.humidity), b"45.2");
    assert_eq!(text(&reading.temperature), b"21.7");
    assert!(buf.is_empty());
}

#[test]
fn decode_bad_line_is_consumed() {
    let mut buf = b"not_a_number 21.7\n".to_vec();
    assert!(matches!(decode(&mut buf), Err(Error::InvalidString)));
    assert!(buf.is_empty());
    buf.extend_from_slice(b"50 20.5\n");
    let reading = decode(&mut buf).unwrap().unwrap();
    assert_eq!(text(&reading.humidity), b"50");
    assert_eq!(text(&reading.temperature), b"20.5");
}

#[test]
fn decode_bad_line_then_queued_line() {
    let mut buf = b"x 1\n2 3\n".to_vec();
    assert!(matches!(decode(&mut buf), Err(Error::InvalidString)));
    assert_eq!(buf, b"2 3\n".to_vec());
    let reading = decode(&mut buf).unwrap().unwrap();
    assert_eq!(text(&reading.humidity), b"2");
    assert_eq!(text(&reading.temperature), b"3");
}

#[test]
fn decode_without_newline_keeps_buffer() {
    let mut buf = b"45.2 21".to_vec();
    assert!(matches!(decode(&mut buf), Ok(None)));
    assert_eq!(buf, b"45.2 21".to_vec());
    let mut empty: Vec<u8> = Vec::new();
    assert!(matches!(decode(&mut empty), Ok(None)));
    assert!(empty.is_empty());
}

#[test]
fn decode_takes_only_the_first_line() {
    let mut buf = b"1 2\n3 4\n5".to_vec();
    let reading = decode(&mut buf).unwrap().unwrap();
    assert_eq!(text(&reading.humidity), b"1");
    assert_eq!(buf, b"3 4\n5".to_vec());
}

#[test]
fn decode_missing_temperature() {
    let mut buf = b"45.2\n".to_vec();
    assert!(matches!(decode(&mut buf), Err(Error::InvalidString)));
    assert!(buf.is_empty());
    let mut blank = b"\n".to_vec();
    assert!(matches!(decode(&mut blank), Err(Error::InvalidString)));
}

#[test]
fn decode_ignores_extra_fields_and_spacing() {
    let mut buf = b"  45.2\t\t21.7  extra\r\n".to_vec();
    let reading = decode(&mut buf).unwrap().unwrap();
    assert_eq!(text(&reading.humidity), b"45.2");
    assert_eq!(text(&reading.temperature), b"21.7");
}

#[test]
fn decode_unicode_space_separates() {
    let mut buf = "45.2\u{a0}21.7\u{3000}\n".as_bytes().to_vec();
    let reading = decode(&mut buf).unwrap().unwrap();
    assert_eq!(text(&reading.humidity), b"45.2");
    assert_eq!(text(&reading.temperature), b"21.7");
}

#[test]
fn decode_refuses_invalid_utf8() {
    let mut buf = b"45.2 21.7 \xff\n".to_vec();
    assert!(matches!(decode(&mut buf), Err(Error::InvalidString)));
    assert!(buf.is_empty());
}

#[test]
fn decode_refuses_non_finite() {
    let mut buf = b"nan 21.7\ninf 1\n".to_vec();
    assert!(matches!(decode(&mut buf), Err(Error::InvalidString)));
    assert!(matches!(decode(&mut buf), Err(Error::InvalidString)));
    assert!(buf.is_empty());
}

#[test]
fn encode_measure_is_one_byte() {
    let mut dst: Vec<u8> = Vec::new();
    encode(SensorCommand::Measure, &mut dst);
    assert_eq!(dst, vec![b'M']);
    encode(SensorCommand::Measure, &mut dst);
    assert_eq!(dst, vec![b'M', b'M']);
}

#[test]
fn round_trip_matches_direct_values() {
    let mut request: Vec<u8> = Vec::new();
    encode(SensorCommand::Measure, &mut request);
    assert_eq!(request, b"M".to_vec());
    let humidity = Decimal::parse(b"61.25").unwrap();
    let temperature = Decimal::parse(b"-3.5").unwrap();
    let mut wire: Vec<u8> = Vec::new();
    wire.extend_from_slice(humidity.as_bytes());
    wire.push(b' ');
    wire.extend_from_slice(temperature.as_bytes());
    wire.push(b'\n');
    let reading = decode(&mut wire).unwrap().unwrap();
    assert_eq!(reading.humidity.as_bytes(), humidity.as_bytes());
    assert_eq!(reading.temperature.as_bytes(), temperature.as_bytes());
    assert!(wire.is_empty());
}

#[test]
fn parse_response_reads_two_fields() {
    let r = parse_response(b"10 20").unwrap();
    assert_eq!(r.humidity.as_bytes(), b"10");
    assert_eq!(r.temperature.as_bytes(), b"20");
    assert!(parse_response(b"10").is_none());
    assert!(parse_response(b"").is_none());
}

#[test]
fn number_grammar() {
    for ok in [&b"0"[..], b"45.2", b"1.", b".5", b"-1e-3", b"+2E+5", b"007", b"1e10"] {
        assert!(check_number(ok), "{:?}", ok);
        assert!(Decimal::parse(ok).is_some());
    }
    for bad in [&b""[..], b".", b"+", b"e5", b"1e", b"1e+", b"inf", b"NaN", b"1.2.3", b"1,5", b"--1", b"0x10"] {
        assert!(!check_number(bad), "{:?}", bad);
        assert!(Decimal::parse(bad).is_none());
    }
}

#[test]
fn utf8_check() {
    assert!(check_utf8(b""));
    assert!(check_utf8("h\u{e9}llo \u{20ac} \u{1f600}".as_bytes()));
    assert!(!check_utf8(b"\xc0\x80"));
    assert!(!check_utf8(b"\xed\xa0\x80"));
    assert!(!check_utf8(b"\xe2\x82"));
    assert!(!check_utf8(b"\xf4\x90\x80\x80"));
}

#[test]
fn number_range_of_f32() {
    let inside = [
        &b"340282346638528859811704183484516925440"[..],
        b"340282356779733661637539395458142568447",
        b"3.40282356779733661637539395458142568447e38",
        b"3.4028235e38",
        b"-1e38",
        b"0.0000001e45",
        b"000000000000000000000000000000000000000000001e38",
        b"1e-99999999999999999999999999999",
        b"0e99999999999999999999999999999",
        b"0.000",
    ];
    for ok in inside {
        assert!(check_number(ok), "{:?}", ok);
    }
    let outside = [
        &b"340282356779733661637539395458142568448"[..],
        b"3.40282356779733661637539395458142568448e38",
        b"1e39",
        b"-1e39",
        b"1000000000000000000000000000000000000000",
        b"1e99999999999999999999999999999",
        b"0.1e40",
    ];
    for bad in outside {
        assert!(!check_number(bad), "{:?}", bad);
    }
    let mut buf = b"1e39 21.7\n".to_vec();
    assert!(matches!(decode(&mut buf), Err(Error::InvalidString)));
    assert!(buf.is_empty());
}
