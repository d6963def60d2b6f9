use vstd::prelude::*;

use crate::codec::{
    command_byte, decode, encode, is_first_newline, parse_line, SensorCommand, SensorReading,
};
use crate::error::Error;

verus! {

/// The fixed speed of the serial line, in baud.
pub const BAUD_RATE: u32 = 9600;

/// Where one exchange with the serial sensor stands after more bytes came.
#[derive(Debug)]
pub enum ResponseStep {
    /// No complete line yet: read more.
    Pending,
    /// The exchange is over, with this result.
    Done(Result<SensorReading, Error>),
}

/// The bytes to write to the sensor to ask it for `cmd`.
pub fn request_frame(cmd: SensorCommand) -> (r: Vec<u8>)
    ensures
        r@ == seq![command_byte(cmd)],
{
    let mut frame: Vec<u8> = Vec::with_capacity(1);
    encode(cmd, &mut frame);
    frame
}

/// True when `r` ends an exchange whose response line was `line`.
pub open spec fn completes_with(line: Seq<u8>, r: ResponseStep) -> bool {
    match parse_line(line) {
        Some((humidity, temperature)) => r matches ResponseStep::Done(Ok(x)) && x.humidity@
            == humidity && x.temperature@ == temperature,
        None => r matches ResponseStep::Done(Err(Error::InvalidString)),
    }
}

/// Takes the bytes `chunk` that the connection gave after those held in
/// `buf`; an empty `chunk` means that the connection has ended. The first
/// complete line ends the exchange and is taken off; without one, the
/// exchange goes on, or fails with `ReadFailed` when the connection has ended.
pub fn receive(buf: &mut Vec<u8>, chunk: &[u8]) -> (r: ResponseStep)
    ensures
        (forall|j: int|
            0 <= j < (old(buf)@ + chunk@).len() ==> (old(buf)@ + chunk@)[j] != 10) ==> final(buf)@
            == old(buf)@ + chunk@ && if chunk@.len() == 0 {
            r matches ResponseStep::Done(Err(Error::ReadFailed))
        } else {
            r is Pending
        },
        forall|i: int|
            #[trigger] is_first_newline(old(buf)@ + chunk@, i) ==> final(buf)@ == (old(buf)@
                + chunk@).subrange(i + 1, (old(buf)@ + chunk@).len() as int) && completes_with(
                (old(buf)@ + chunk@).subrange(0, i + 1),
                r,
            ),
{
    let ghost all = old(buf)@ + chunk@;
    let mut k: usize = 0;
    while k < chunk.len()
        invariant
            k <= chunk@.len(),
            buf@ == old(buf)@ + chunk@.subrange(0, k as int),
        decreases chunk@.len() - k,
    {
        buf.push(chunk[k]);
        k = k + 1;
        assert(buf@ =~= old(buf)@ + chunk@.subrange(0, k as int));
    }
    assert(buf@ =~= all);
    match decode(buf) {
        Ok(Some(reading)) => ResponseStep::Done(Ok(reading)),
        Ok(None) => {
            if chunk.len() == 0 {
                ResponseStep::Done(Err(Error::ReadFailed))
            } else {
                ResponseStep::Pending
            }
        },
        Err(e) => ResponseStep::Done(Err(e)),
    }
}

} // verus!
