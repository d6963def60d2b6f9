//! Relays readings of a serial thermometer/hygrometer and of a USB CO2
//! monitor to a telemetry endpoint.
//!
//! `codec` frames the serial line protocol, and `number` decides which of
//! its fields are numbers that an `f32` holds, with the arithmetic of
//! `digits`; `client` runs one request and response over the line; `cycle`
//! decides what each polling tick and each write to the sink comes to; and
//! `reading` turns a reading into the sink's request.
use vstd::prelude::*;

pub mod client;
pub mod codec;
pub mod cycle;
pub mod digits;
pub mod error;
pub mod number;
pub mod reading;
pub mod text;

verus! {

} // verus!
