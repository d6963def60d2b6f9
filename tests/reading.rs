use sensor_relay::codec::SensorReading;
use sensor_relay::error::Error;
use sensor_relay::number::Decimal;
use sensor_relay::reading::{check_status, stats_url, Reading};

fn dec(s: &str) -> Decimal {
    Decimal::parse(s.as_bytes()).unwrap()
}

#[test]
fn thermometer_url() {
    let r = Reading::thermometer_at(
        1700000000,
        SensorReading { temperature: dec("21.7"), humidity: dec("45.2") },
    );
    assert_eq!(
        stats_url("https://example.org/api/", &r),
        "https://example.org/api/stats?time=1700000000&temperature=21.7&humidity=45.2"
    );
}

#[test]
fn co2_url() {
    let r = Reading::co2_meter_at(-5, dec("-0.5"), 812);
    assert_eq!(stats_url("http://h/", &r), "http://h/stats2?time=-5&temperature=-0.5&co2=812");
    let z = Reading::co2_meter_at(0, dec("0"), 0);
    assert_eq!(stats_url("", &z), "stats2?time=0&temperature=0&co2=0");
    let m = Reading::co2_meter_at(i64::MIN, dec("1e3"), u16::MAX);
    assert_eq!(
        stats_url("", &m),
        "stats2?time=-9223372036854775808&temperature=1e3&co2=65535"
    );
}

#[test]
fn readings_are_stamped_now() {
    let t = Reading::thermometer(SensorReading { temperature: dec("1"), humidity: dec("2") });
    match t {
        Reading::Thermometer { time, temperature, humidity } => {
            assert!(time > 1_600_000_000);
            assert_eq!(temperature.as_bytes(), b"1");
            assert_eq!(humidity.as_bytes(), b"2");
        }
        _ => panic!("wrong kind"),
    }
    match Reading::co2_meter(dec("22.5"), 640) {
        Reading::Co2Meter { time, temperature, co2 } => {
            assert!(time > 1_600_000_000);
            assert_eq!(temperature.as_bytes(), b"22.5");
            assert_eq!(co2, 640);
        }
        _ => panic!("wrong kind"),
    }
}

#[test]
fn status_range() {
    assert!(check_status(200).is_ok());
    assert!(check_status(204).is_ok());
    assert!(check_status(299).is_ok());
    assert!(matches!(check_status(199), Err(Error::Status(199))));
    assert!(matches!(check_status(300), Err(Error::Status(300))));
    assert!(matches!(check_status(500), Err(Error::Status(500))));
}

#[test]
fn error_messages() {
    assert_eq!(Error::Io("broken pipe".to_string()).message(), "Input/Output error: broken pipe.");
    assert_eq!(Error::Serial("no device".to_string()).message(), "Serial port error: no device.");
    assert_eq!(Error::Reqwest("refused".to_string()).message(), "HTTP error: refused.");
    assert_eq!(Error::Device("gone".to_string()).message(), "CO2 monitor error: gone.");
    assert_eq!(Error::InvalidString.message(), "Invalid string");
    assert_eq!(Error::ReadFailed.message(), "Read failed");
    assert_eq!(Error::Timeout.message(), "deadline has elapsed");
    assert_eq!(Error::Status(404).message(), "HTTP status 404.");
}
