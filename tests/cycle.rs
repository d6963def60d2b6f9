use std::time::Duration;

use sensor_relay::codec::SensorReading;
use sensor_relay::cycle::{co2_cycle, serial_cycle, write_outcome, Co2Sample, SerialOutcome};
use sensor_relay::error::Error;
use sensor_relay::number::Decimal;
use sensor_relay::reading::{stats_url, Reading};

fn dec(s: &str) -> Decimal {
    Decimal::parse(s.as_bytes()).unwrap()
}

fn sample(h: &str, t: &str) -> SensorReading {
    SensorReading { temperature: dec(t), humidity: dec(h) }
}

#[test]
fn timed_out_cycle_does_not_block_next_tick() {
    let rt = tokio::runtime::Builder::new_current_thread().enable_time().build().unwrap();
    let first = rt.block_on(async {
        match tokio::time::timeout(
            Duration::from_millis(20),
            std::future::pending::<Result<SensorReading, Error>>(),
        )
        .await
        {
            Ok(done) => SerialOutcome::Finished(done),
            Err(_) => SerialOutcome::TimedOut,
        }
    });
    assert!(matches!(serial_cycle(first), Err(Error::Timeout)));
    let second = rt.block_on(async {
        match tokio::time::timeout(Duration::from_millis(20), async { Ok(sample("45.2", "21.7")) })
            .await
        {
            Ok(done) => SerialOutcome::Finished(done),
            Err(_) => SerialOutcome::TimedOut,
        }
    });
    match serial_cycle(second) {
        Ok(Reading::Thermometer { temperature, humidity, .. }) => {
            assert_eq!(temperature.as_bytes(), b"21.7");
            assert_eq!(humidity.as_bytes(), b"45.2");
        }
        other => panic!("unexpected {:?}", other),
    }
}

#[test]
fn failed_serial_cycle_keeps_its_error() {
    assert!(matches!(
        serial_cycle(SerialOutcome::Finished(Err(Error::ReadFailed))),
        Err(Error::ReadFailed)
    ));
}

#[test]
fn write_failure_does_not_stop_next_write() {
    let queue = vec![
        Reading::thermometer_at(1, sample("40", "20")),
        Reading::thermometer_at(2, sample("41", "21")),
    ];
    // The sink fails once, then recovers.
    let mut answers = vec![Ok(200u16), Err(Error::Reqwest("connection reset".to_string()))];
    let mut attempted: Vec<String> = Vec::new();
    let mut results: Vec<Result<(), Error>> = Vec::new();
    for reading in &queue {
        attempted.push(stats_url("http://sink/", reading));
        results.push(write_outcome(answers.pop().unwrap()));
    }
    assert_eq!(attempted.len(), 2);
    assert_eq!(attempted[1], "http://sink/stats?time=2&temperature=21&humidity=41");
    assert!(matches!(results[0], Err(Error::Reqwest(_))));
    assert!(results[1].is_ok());
    assert!(matches!(write_outcome(Ok(503)), Err(Error::Status(503))));
}

#[test]
fn pollers_each_give_one_reading_per_tick() {
    let mut serial_readings = 0;
    let mut co2_readings = 0;
    for tick in 0..3u16 {
        let co2 = if tick == 1 {
            co2_cycle(Err(Error::Device("stalled".to_string())))
        } else {
            co2_cycle(Ok(Co2Sample { temperature: b"23.5".to_vec(), co2: 600 + tick }))
        };
        if co2.is_ok() {
            co2_readings += 1;
        }
        let serial = serial_cycle(SerialOutcome::Finished(Ok(sample("50", "22"))));
        if serial.is_ok() {
            serial_readings += 1;
        }
    }
    assert_eq!(serial_readings, 3);
    assert_eq!(co2_readings, 2);
    let mut serial_failures = 0;
    for _ in 0..2 {
        if serial_cycle(SerialOutcome::TimedOut).is_err() {
            serial_failures += 1;
        }
        match co2_cycle(Ok(Co2Sample { temperature: b"24".to_vec(), co2: 700 })) {
            Ok(Reading::Co2Meter { temperature, co2, .. }) => {
                assert_eq!(temperature.as_bytes(), b"24");
                assert_eq!(co2, 700);
            }
            other => panic!("unexpected {:?}", other),
        }
    }
    assert_eq!(serial_failures, 2);
}

#[test]
fn co2_temperature_must_be_a_number() {
    let r = co2_cycle(Ok(Co2Sample { temperature: b"NaN".to_vec(), co2: 400 }));
    assert!(matches!(r, Err(Error::InvalidString)));
}
