use sensor_relay::client::{receive, request_frame, ResponseStep, BAUD_RATE};
use sensor_relay::codec::SensorCommand;
use sensor_relay::error::Error;

#[test]
fn request_is_the_measure_byte() {
    assert_eq!(request_frame(SensorCommand::Measure), vec![b'M']);
    assert_eq!(BAUD_RATE, 9600);
}

#[test]
fn response_split_over_chunks() {
    let mut buf: Vec<u8> = Vec::new();
    assert!(matches!(receive(&mut buf, b"45."), ResponseStep::Pending));
    assert_eq!(buf, b"45.".to_vec());
    assert!(matches!(receive(&mut buf, b"2 21"), ResponseStep::Pending));
    match receive(&mut buf, b".7\nrest") {
        ResponseStep::Done(Ok(r)) => {
            assert_eq!(r.humidity.as_bytes(), b"45.2");
            assert_eq!(r.temperature.as_bytes(), b"21.7");
        }
        other => panic!("unexpected {:?}", other),
    }
    assert_eq!(buf, b"rest".to_vec());
}

#[test]
fn stream_end_before_a_line_is_read_failed() {
    let mut buf: Vec<u8> = Vec::new();
    assert!(matches!(receive(&mut buf, b"45.2 21.7"), ResponseStep::Pending));
    assert!(matches!(receive(&mut buf, b""), ResponseStep::Done(Err(Error::ReadFailed))));
    let mut none: Vec<u8> = Vec::new();
    assert!(matches!(receive(&mut none, b""), ResponseStep::Done(Err(Error::ReadFailed))));
}

#[test]
fn malformed_response_is_a_decode_error() {
    let mut buf: Vec<u8> = Vec::new();
    assert!(matches!(
        receive(&mut buf, b"garbage\n"),
        ResponseStep::Done(Err(Error::InvalidString))
    ));
    assert!(buf.is_empty());
}
