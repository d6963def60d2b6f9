use vstd::prelude::*;

use crate::codec::SensorReading;
use crate::error::Error;
use crate::number::{is_number, Decimal};
use crate::reading::{check_status, Reading};

verus! {

/// How the serial sensor's work in one tick ended.
#[derive(Debug)]
pub enum SerialOutcome {
    /// The exchange ended before the deadline, with this result.
    Finished(Result<SensorReading, Error>),
    /// The deadline passed first; whatever the exchange would still have
    /// given is dropped.
    TimedOut,
}

/// The one reading, or the one failure, that a tick of the serial poller
/// gives. Nothing is carried over from earlier ticks.
pub fn serial_cycle(outcome: SerialOutcome) -> (r: Result<Reading, Error>)
    ensures
        match outcome {
            SerialOutcome::TimedOut => r == Err::<Reading, Error>(Error::Timeout),
            SerialOutcome::Finished(Err(e)) => r == Err::<Reading, Error>(e),
            SerialOutcome::Finished(Ok(x)) => r matches Ok(
                Reading::Thermometer { temperature, humidity, .. },
            ) && temperature == x.temperature && humidity == x.humidity,
        },
{
    match outcome {
        SerialOutcome::Finished(Ok(sample)) => Ok(Reading::thermometer(sample)),
        SerialOutcome::Finished(Err(e)) => Err(e),
        SerialOutcome::TimedOut => Err(Error::Timeout),
    }
}

/// What the CO2 monitor gave in one tick: the text of its temperature and
/// its CO2 concentration in ppm.
#[derive(Debug)]
pub struct Co2Sample {
    pub temperature: Vec<u8>,
    pub co2: u16,
}

/// The one reading, or the one failure, that a tick of the CO2 poller gives.
/// A temperature that is not a finite number is refused as `InvalidString`.
pub fn co2_cycle(outcome: Result<Co2Sample, Error>) -> (r: Result<Reading, Error>)
    ensures
        match outcome {
            Err(e) => r == Err::<Reading, Error>(e),
            Ok(s) => if is_number(s.temperature@) {
                r matches Ok(Reading::Co2Meter { temperature, co2, .. }) && temperature@
                    == s.temperature@ && co2 == s.co2
            } else {
                r matches Err(Error::InvalidString)
            },
        },
{
    match outcome {
        Ok(sample) => match Decimal::parse(sample.temperature.as_slice()) {
            Some(temperature) => Ok(Reading::co2_meter(temperature, sample.co2)),
            None => Err(Error::InvalidString),
        },
        Err(e) => Err(e),
    }
}

/// What one write to the sink came to, from the status it answered with, or
/// the failure that kept it from answering. The writer goes on to the next
/// reading whatever this is; nothing is retried.
pub fn write_outcome(sent: Result<u16, Error>) -> (r: Result<(), Error>)
    ensures
        match sent {
            Ok(status) => if 200 <= status <= 299 {
                r is Ok
            } else {
                r == Err::<(), Error>(Error::Status(status))
            },
            Err(e) => r == Err::<(), Error>(e),
        },
{
    match sent {
        Ok(status) => check_status(status),
        Err(e) => Err(e),
    }
}

} // verus!
