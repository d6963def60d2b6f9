use vstd::prelude::*;
use vstd::string::*;

use crate::text::{decimal_text, push_decimal};

verus! {

/// What can go wrong in one sampling or delivery cycle.
#[derive(Debug)]
pub enum Error {
    /// The serial line could not be written or read; the text describes why.
    Io(String),
    /// The serial port could not be opened; the text describes why.
    Serial(String),
    /// The request to the sink failed; the text describes why.
    Reqwest(String),
    /// The CO2 monitor could not be read; the text describes why.
    Device(String),
    /// A response line did not hold two numbers.
    InvalidString,
    /// The connection ended before a complete response line arrived.
    ReadFailed,
    /// The cycle did not finish before its deadline.
    Timeout,
    /// The sink answered with a status outside the 2xx range.
    Status(u16),
}

/// The text that describes `e` in the diagnostic stream.
pub open spec fn message_text(e: Error) -> Seq<char> {
    match e {
        Error::Io(d) => "Input/Output error: "@ + d@ + "."@,
        Error::Serial(d) => "Serial port error: "@ + d@ + "."@,
        Error::Reqwest(d) => "HTTP error: "@ + d@ + "."@,
        Error::Device(d) => "CO2 monitor error: "@ + d@ + "."@,
        Error::InvalidString => "Invalid string"@,
        Error::ReadFailed => "Read failed"@,
        Error::Timeout => "deadline has elapsed"@,
        Error::Status(status) => "HTTP status "@ + decimal_text(status as nat) + "."@,
    }
}

fn framed(prefix: &str, detail: &String) -> (r: String)
    ensures
        r@ == prefix@ + detail@ + "."@,
{
    let mut s = String::from_str(prefix);
    s.append(detail.as_str());
    s.append(".");
    s
}

impl Error {
    /// The text that describes this error.
    pub fn message(&self) -> (r: String)
        ensures
            r@ == message_text(*self),
    {
        match self {
            Error::Io(d) => framed("Input/Output error: ", d),
            Error::Serial(d) => framed("Serial port error: ", d),
            Error::Reqwest(d) => framed("HTTP error: ", d),
            Error::Device(d) => framed("CO2 monitor error: ", d),
            Error::InvalidString => String::from_str("Invalid string"),
            Error::ReadFailed => String::from_str("Read failed"),
            Error::Timeout => String::from_str("deadline has elapsed"),
            Error::Status(status) => {
                let mut s = String::from_str("HTTP status ");
                push_decimal(&mut s, *status as u64);
                s.append(".");
                s
            },
        }
    }
}

} // verus!
