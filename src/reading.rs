use vstd::prelude::*;
use vstd::string::*;

use crate::codec::SensorReading;
use crate::error::Error;
use crate::number::{lemma_number_bytes, Decimal};
use crate::text::{ascii_text, decimal_text, push_decimal, push_number_text, push_signed, signed_text};

verus! {

/// One reading from one of the sensors, stamped with the time, in whole
/// seconds since the Unix epoch, at which its values were obtained.
#[derive(Debug)]
pub enum Reading {
    Thermometer { time: i64, temperature: Decimal, humidity: Decimal },
    Co2Meter { time: i64, temperature: Decimal, co2: u16 },
}

/// Relies on `time::OffsetDateTime::now_utc` and its `unix_timestamp`: the
/// current wall-clock time in whole seconds since the Unix epoch. Nothing is
/// known of the value.
#[verifier::external_body]
fn now_unix() -> (r: i64) {
    time::OffsetDateTime::now_utc().unix_timestamp()
}

impl Reading {
    /// Tags a measurement of the serial sensor with the time `time`.
    pub fn thermometer_at(time: i64, sample: SensorReading) -> (r: Reading)
        ensures
            r == (Reading::Thermometer {
                time,
                temperature: sample.temperature,
                humidity: sample.humidity,
            }),
    {
        Reading::Thermometer { time, temperature: sample.temperature, humidity: sample.humidity }
    }

    /// Tags a measurement of the serial sensor with the current time.
    pub fn thermometer(sample: SensorReading) -> (r: Reading)
        ensures
            r matches Reading::Thermometer { temperature, humidity, .. } && temperature
                == sample.temperature && humidity == sample.humidity,
    {
        let time = now_unix();
        Reading::thermometer_at(time, sample)
    }

    /// Tags a measurement of the CO2 monitor with the time `time`.
    pub fn co2_meter_at(time: i64, temperature: Decimal, co2: u16) -> (r: Reading)
        ensures
            r == (Reading::Co2Meter { time, temperature, co2 }),
    {
        Reading::Co2Meter { time, temperature, co2 }
    }

    /// Tags a measurement of the CO2 monitor with the current time.
    pub fn co2_meter(temperature: Decimal, co2: u16) -> (r: Reading)
        ensures
            r matches Reading::Co2Meter { temperature: t, co2: c, .. } && t == temperature && c
                == co2,
    {
        let time = now_unix();
        Reading::co2_meter_at(time, temperature, co2)
    }
}

/// The address to which the sink is sent `reading`: the endpoint's base
/// address, then the path and the query that the reading's kind calls for.
pub open spec fn stats_url_text(api_url: Seq<char>, reading: Reading) -> Seq<char> {
    match reading {
        Reading::Thermometer { time, temperature, humidity } => api_url + "stats?time="@
            + signed_text(time as int) + "&temperature="@ + ascii_text(temperature@)
            + "&humidity="@ + ascii_text(humidity@),
        Reading::Co2Meter { time, temperature, co2 } => api_url + "stats2?time="@ + signed_text(
            time as int,
        ) + "&temperature="@ + ascii_text(temperature@) + "&co2="@ + decimal_text(co2 as nat),
    }
}

/// The address of the request that stores `reading` at the endpoint whose
/// base address is `api_url`.
pub fn stats_url(api_url: &str, reading: &Reading) -> (r: String)
    ensures
        r@ == stats_url_text(api_url@, *reading),
{
    let mut url = String::from_str(api_url);
    match reading {
        Reading::Thermometer { time, temperature, humidity } => {
            url.append("stats?time=");
            push_signed(&mut url, *time);
            url.append("&temperature=");
            let t = temperature.as_bytes();
            proof {
                lemma_number_bytes(t@);
            }
            push_number_text(&mut url, t);
            url.append("&humidity=");
            let h = humidity.as_bytes();
            proof {
                lemma_number_bytes(h@);
            }
            push_number_text(&mut url, h);
        },
        Reading::Co2Meter { time, temperature, co2 } => {
            url.append("stats2?time=");
            push_signed(&mut url, *time);
            url.append("&temperature=");
            let t = temperature.as_bytes();
            proof {
                lemma_number_bytes(t@);
            }
            push_number_text(&mut url, t);
            url.append("&co2=");
            push_decimal(&mut url, *co2 as u64);
        },
    }
    url
}

/// What the sink's answer means: success for a status in the 2xx range,
/// else an error that carries the status.
pub fn check_status(status: u16) -> (r: Result<(), Error>)
    ensures
        200 <= status <= 299 ==> r is Ok,
        !(200 <= status <= 299) ==> r == Err::<(), Error>(Error::Status(status)),
{
    if 200 <= status && status <= 299 {
        Ok(())
    } else {
        Err(Error::Status(status))
    }
}

} // verus!
