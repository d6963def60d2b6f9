use vstd::prelude::*;
use vstd::utf8::*;

use crate::error::Error;
use crate::number::{is_number, is_number_byte, lemma_number_bytes, Decimal};

verus! {

/// A request that can be sent to the serial sensor.
#[derive(Clone, Copy, Debug, PartialEq, Eq)]
pub enum SensorCommand {
    /// Ask the sensor for one humidity and temperature measurement.
    Measure,
}

/// The single byte that stands for a command on the wire.
pub open spec fn command_byte(cmd: SensorCommand) -> u8 {
    match cmd {
        SensorCommand::Measure => 77u8,
    }
}

/// Appends the frame of `cmd` to `dst`.
pub fn encode(cmd: SensorCommand, dst: &mut Vec<u8>)
    ensures
        final(dst)@ == old(dst)@.push(command_byte(cmd)),
{
    dst.reserve(1);
    match cmd {
        SensorCommand::Measure => dst.push(77u8),
    }
}

/// One measurement as the sensor reported it.
#[derive(Debug)]
pub struct SensorReading {
    pub temperature: Decimal,
    pub humidity: Decimal,
}

/// True when the three bytes encode a Unicode white space character of
/// three bytes in UTF-8 (U+1680, U+2000 to U+200A, U+2028, U+2029, U+202F,
/// U+205F, U+3000).
pub open spec fn is_wide_space(a: u8, b: u8, c: u8) -> bool {
    ||| (a == 0xe1 && b == 0x9a && c == 0x80)
    ||| (a == 0xe2 && b == 0x80 && ((0x80 <= c <= 0x8a) || c == 0xa8 || c == 0xa9 || c == 0xaf))
    ||| (a == 0xe2 && b == 0x81 && c == 0x9f)
    ||| (a == 0xe3 && b == 0x80 && c == 0x80)
}

/// The length in bytes of the white space character that starts at `i`, or
/// 0 if none does. White space is Unicode's: tab, line feed, vertical tab,
/// form feed, carriage return, space, U+0085, U+00A0 and the characters of
/// `is_wide_space`. Every pattern starts with a byte that never continues a
/// character, so in valid UTF-8 a match is always a whole character.
pub open spec fn whitespace_len(s: Seq<u8>, i: int) -> int {
    if !(0 <= i < s.len()) {
        0
    } else if (9 <= s[i] <= 13) || s[i] == 32 {
        1
    } else if s[i] == 0xc2 && i + 1 < s.len() && (s[i + 1] == 0x85 || s[i + 1] == 0xa0) {
        2
    } else if i + 2 < s.len() && is_wide_space(s[i], s[i + 1], s[i + 2]) {
        3
    } else {
        0
    }
}

/// The index of the first byte at or after `i` that does not start white space.
pub open spec fn skip_space(s: Seq<u8>, i: int) -> int
    decreases s.len() - i,
{
    if 0 <= i < s.len() && whitespace_len(s, i) > 0 {
        skip_space(s, i + whitespace_len(s, i))
    } else {
        i
    }
}

/// The index of the first byte at or after `i` that starts white space, or
/// the end of `s`.
pub open spec fn token_end(s: Seq<u8>, i: int) -> int
    decreases s.len() - i,
{
    if 0 <= i < s.len() && whitespace_len(s, i) == 0 {
        token_end(s, i + 1)
    } else {
        i
    }
}

/// The first whitespace-separated field of `line` (empty when there is none).
pub open spec fn first_field(line: Seq<u8>) -> Seq<u8> {
    let start = skip_space(line, 0);
    line.subrange(start, token_end(line, start))
}

/// The second whitespace-separated field of `line` (empty when there is none).
pub open spec fn second_field(line: Seq<u8>) -> Seq<u8> {
    let start = skip_space(line, token_end(line, skip_space(line, 0)));
    line.subrange(start, token_end(line, start))
}

/// What a response line says: its humidity text and then its temperature
/// text, or `None` when the line is not UTF-8 or its first two fields are
/// not both numbers. Fields after the second are not read.
pub open spec fn parse_line(line: Seq<u8>) -> Option<(Seq<u8>, Seq<u8>)> {
    if valid_utf8(line) && is_number(first_field(line)) && is_number(second_field(line)) {
        Some((first_field(line), second_field(line)))
    } else {
        None
    }
}

proof fn lemma_skip_space_bounds(s: Seq<u8>, i: int)
    requires
        0 <= i <= s.len(),
    ensures
        i <= skip_space(s, i) <= s.len(),
    decreases s.len() - i,
{
    if i < s.len() && whitespace_len(s, i) > 0 {
        lemma_skip_space_bounds(s, i + whitespace_len(s, i));
    }
}

proof fn lemma_token_end_bounds(s: Seq<u8>, i: int)
    requires
        0 <= i <= s.len(),
    ensures
        i <= token_end(s, i) <= s.len(),
    decreases s.len() - i,
{
    if i < s.len() && whitespace_len(s, i) == 0 {
        lemma_token_end_bounds(s, i + 1);
    }
}

fn space_width(s: &[u8], i: usize) -> (r: usize)
    requires
        i < s@.len(),
    ensures
        r as int == whitespace_len(s@, i as int),
{
    let b = s[i];
    if (9u8 <= b && b <= 13u8) || b == 32u8 {
        1
    } else if b == 0xc2u8 && i + 1 < s.len() && (s[i + 1] == 0x85u8 || s[i + 1] == 0xa0u8) {
        2
    } else if s.len() - i > 2 {
        let c1 = s[i + 1];
        let c2 = s[i + 2];
        if (b == 0xe1u8 && c1 == 0x9au8 && c2 == 0x80u8) || (b == 0xe2u8 && c1 == 0x80u8 && ((
        0x80u8 <= c2 && c2 <= 0x8au8) || c2 == 0xa8u8 || c2 == 0xa9u8 || c2 == 0xafu8)) || (b
            == 0xe2u8 && c1 == 0x81u8 && c2 == 0x9fu8) || (b == 0xe3u8 && c1 == 0x80u8 && c2
            == 0x80u8) {
            3
        } else {
            0
        }
    } else {
        0
    }
}

fn find_skip_space(s: &[u8], i: usize) -> (r: usize)
    requires
        i <= s@.len(),
    ensures
        r as int == skip_space(s@, i as int),
        i <= r <= s@.len(),
{
    let mut j: usize = i;
    while j < s.len()
        invariant
            i <= j <= s@.len(),
            skip_space(s@, j as int) == skip_space(s@, i as int),
        ensures
            skip_space(s@, j as int) == j,
        decreases s@.len() - j,
    {
        let w = space_width(s, j);
        if w == 0 {
            break;
        }
        j = j + w;
    }
    proof {
        lemma_skip_space_bounds(s@, i as int);
    }
    j
}

fn find_token_end(s: &[u8], i: usize) -> (r: usize)
    requires
        i <= s@.len(),
    ensures
        r as int == token_end(s@, i as int),
        i <= r <= s@.len(),
{
    let mut j: usize = i;
    while j < s.len()
        invariant
            i <= j <= s@.len(),
            token_end(s@, j as int) == token_end(s@, i as int),
        ensures
            token_end(s@, j as int) == j,
        decreases s@.len() - j,
    {
        if space_width(s, j) != 0 {
            break;
        }
        j = j + 1;
    }
    proof {
        lemma_token_end_bounds(s@, i as int);
    }
    j
}

/// The width of the UTF-8 scalar that starts at `i`, or 0 when none does.
fn scalar_width(s: &[u8], i: usize) -> (r: usize)
    requires
        i < s@.len(),
    ensures
        r != 0 <==> valid_first_scalar(s@.subrange(i as int, s@.len() as int)),
        r != 0 ==> r as int == length_of_first_scalar(s@.subrange(i as int, s@.len() as int)),
{
    let ghost rest = s@.subrange(i as int, s@.len() as int);
    let n = s.len() - i;
    let b0 = s[i];
    assert(rest[0] == b0);
    if b0 <= 0x7fu8 {
        return 1;
    }
    if 0xc0u8 <= b0 && b0 <= 0xdfu8 {
        if n < 2 {
            return 0;
        }
        let b1 = s[i + 1];
        assert(rest[1] == b1);
        if !(0x80u8 <= b1 && b1 <= 0xbfu8) {
            return 0;
        }
        let cp: u32 = (((b0 & 0x1fu8) as u32) << 6u32) | ((b1 & 0x3fu8) as u32);
        assert(cp == codepoint_width_2(b0, b1));
        if 0x80u32 <= cp && !(0xd800u32 <= cp && cp <= 0xdfffu32) {
            return 2;
        }
        return 0;
    }
    if 0xe0u8 <= b0 && b0 <= 0xefu8 {
        if n < 3 {
            return 0;
        }
        let b1 = s[i + 1];
        let b2 = s[i + 2];
        assert(rest[1] == b1 && rest[2] == b2);
        if !(0x80u8 <= b1 && b1 <= 0xbfu8 && 0x80u8 <= b2 && b2 <= 0xbfu8) {
            return 0;
        }
        let cp: u32 = (((b0 & 0x0fu8) as u32) << 12u32) | (((b1 & 0x3fu8) as u32) << 6u32) | ((b2
            & 0x3fu8) as u32);
        assert(cp == codepoint_width_3(b0, b1, b2));
        if 0x800u32 <= cp && !(0xd800u32 <= cp && cp <= 0xdfffu32) {
            return 3;
        }
        return 0;
    }
    if 0xf0u8 <= b0 && b0 <= 0xf7u8 {
        if n < 4 {
            return 0;
        }
        let b1 = s[i + 1];
        let b2 = s[i + 2];
        let b3 = s[i + 3];
        assert(rest[1] == b1 && rest[2] == b2 && rest[3] == b3);
        if !(0x80u8 <= b1 && b1 <= 0xbfu8 && 0x80u8 <= b2 && b2 <= 0xbfu8 && 0x80u8 <= b3 && b3
            <= 0xbfu8) {
            return 0;
        }
        let cp: u32 = (((b0 & 0x07u8) as u32) << 18u32) | (((b1 & 0x3fu8) as u32) << 12u32) | (((b2
            & 0x3fu8) as u32) << 6u32) | ((b3 & 0x3fu8) as u32);
        assert(cp == codepoint_width_4(b0, b1, b2, b3));
        if 0x10000u32 <= cp && cp <= 0x10ffffu32 && !(0xd800u32 <= cp && cp <= 0xdfffu32) {
            return 4;
        }
        return 0;
    }
    0
}

/// Tells whether `s` is valid UTF-8.
pub fn check_utf8(s: &[u8]) -> (r: bool)
    ensures
        r == valid_utf8(s@),
{
    let mut i: usize = 0;
    while i < s.len()
        invariant
            i <= s@.len(),
            partial_valid_utf8(s@, i as int),
        decreases s@.len() - i,
    {
        let w = scalar_width(s, i);
        if w == 0 {
            proof {
                let rest = s@.subrange(i as int, s@.len() as int);
                assert(!valid_utf8(rest));
                partial_valid_partial_invalid_utf8(s@, i as int);
            }
            return false;
        }
        proof {
            partial_valid_utf8_extend(s@, i as int);
        }
        i = i + w;
    }
    assert(s@.subrange(0, s@.len() as int) =~= s@);
    true
}

/// Reads one response line: the humidity comes first, then the temperature.
/// `None` when the line is not UTF-8 or its first two fields are not both
/// numbers.
pub fn parse_response(line: &[u8]) -> (r: Option<SensorReading>)
    ensures
        match parse_line(line@) {
            Some((humidity, temperature)) => r matches Some(x) && x.humidity@ == humidity
                && x.temperature@ == temperature,
            None => r is None,
        },
{
    if !check_utf8(line) {
        return None;
    }
    let h_start = find_skip_space(line, 0);
    let h_end = find_token_end(line, h_start);
    let t_start = find_skip_space(line, h_end);
    let t_end = find_token_end(line, t_start);
    let humidity = match Decimal::parse(&line[h_start..h_end]) {
        Some(d) => d,
        None => return None,
    };
    let temperature = match Decimal::parse(&line[t_start..t_end]) {
        Some(d) => d,
        None => return None,
    };
    Some(SensorReading { temperature, humidity })
}

/// True when `i` is the index of the first line feed in `s`.
pub open spec fn is_first_newline(s: Seq<u8>, i: int) -> bool {
    &&& 0 <= i < s.len()
    &&& s[i] == 10
    &&& forall|j: int| 0 <= j < i ==> s[j] != 10
}

/// True when `r` is what decoding the complete line `line` gives.
pub open spec fn decodes_to(line: Seq<u8>, r: Result<Option<SensorReading>, Error>) -> bool {
    match parse_line(line) {
        Some((humidity, temperature)) => r matches Ok(Some(x)) && x.humidity@ == humidity
            && x.temperature@ == temperature,
        None => r matches Err(Error::InvalidString),
    }
}

/// Takes the first complete line, line feed included, off the front of
/// `src` and reads it. `Ok(None)` when `src` holds no line feed yet, and
/// `src` is then left as it was; a line that cannot be read is still taken
/// off.
pub fn decode(src: &mut Vec<u8>) -> (r: Result<Option<SensorReading>, Error>)
    ensures
        (forall|j: int| 0 <= j < old(src)@.len() ==> old(src)@[j] != 10) ==> (r matches Ok(None)
            && final(src)@ == old(src)@),
        forall|i: int|
            #[trigger] is_first_newline(old(src)@, i) ==> final(src)@ == old(src)@.subrange(
                i + 1,
                old(src)@.len() as int,
            ) && decodes_to(old(src)@.subrange(0, i + 1), r),
{
    let mut i: usize = 0;
    while i < src.len() && src[i] != 10u8
        invariant
            i <= src@.len(),
            forall|j: int| 0 <= j < i ==> src@[j] != 10,
        decreases src@.len() - i,
    {
        i = i + 1;
    }
    if i == src.len() {
        return Ok(None);
    }
    assert(is_first_newline(src@, i as int));
    assert forall|k: int| #[trigger] is_first_newline(src@, k) implies k == i by {
        if k < i {
            assert(src@[k] != 10);
        } else if k > i {
            assert(src@[i as int] != 10);
        }
    }
    let mut line = src.split_off(i + 1);
    std::mem::swap(src, &mut line);
    match parse_response(line.as_slice()) {
        Some(reading) => Ok(Some(reading)),
        None => Err(Error::InvalidString),
    }
}

/// The line a sensor sends for one measurement: the humidity text, a space,
/// the temperature text and a line feed.
pub open spec fn response_line(humidity: Seq<u8>, temperature: Seq<u8>) -> Seq<u8> {
    humidity + seq![32u8] + temperature + seq![10u8]
}

proof fn lemma_token_run(s: Seq<u8>, i: int, j: int)
    requires
        0 <= i <= j <= s.len(),
        forall|k: int| i <= k < j ==> whitespace_len(s, k) == 0,
    ensures
        token_end(s, i) == token_end(s, j),
    decreases j - i,
{
    if i < j {
        lemma_token_run(s, i + 1, j);
    }
}

proof fn lemma_number_not_space(s: Seq<u8>, lo: int, hi: int)
    requires
        0 <= lo <= hi <= s.len(),
        forall|k: int| lo <= k < hi ==> is_number_byte(#[trigger] s[k]),
    ensures
        forall|k: int| lo <= k < hi ==> whitespace_len(s, k) == 0,
{
    assert forall|k: int| lo <= k < hi implies whitespace_len(s, k) == 0 by {
        assert(is_number_byte(s[k]));
    }
}

/// Round trip of one measurement: the request for it is the single byte
/// `M`, and the response line built from the humidity and temperature texts
/// of two numbers reads back as exactly those two numbers, in that order, and
/// ends at its own line feed, so that decoding takes that line and no more.
pub proof fn lemma_response_round_trip(humidity: Seq<u8>, temperature: Seq<u8>)
    requires
        is_number(humidity),
        is_number(temperature),
    ensures
        command_byte(SensorCommand::Measure) == 77,
        parse_line(response_line(humidity, temperature)) == Some((humidity, temperature)),
        is_first_newline(
            response_line(humidity, temperature),
            response_line(humidity, temperature).len() - 1,
        ),
{
    let line = response_line(humidity, temperature);
    let hl = humidity.len() as int;
    let tl = temperature.len() as int;
    lemma_number_bytes(humidity);
    lemma_number_bytes(temperature);
    assert(line.len() == hl + tl + 2);
    assert forall|k: int| 0 <= k < hl implies #[trigger] line[k] == humidity[k] by {}
    assert forall|k: int| hl + 1 <= k < hl + 1 + tl implies #[trigger] line[k] == temperature[k
        - hl - 1] by {}
    assert(line[hl] == 32u8);
    assert(line[hl + 1 + tl] == 10u8);
    assert forall|k: int| 0 <= k < hl implies is_number_byte(#[trigger] line[k]) by {
        assert(is_number_byte(humidity[k]));
    }
    assert forall|k: int| hl + 1 <= k < hl + 1 + tl implies is_number_byte(#[trigger] line[k]) by {
        assert(is_number_byte(temperature[k - hl - 1]));
    }
    lemma_number_not_space(line, 0, hl);
    lemma_number_not_space(line, hl + 1, hl + 1 + tl);
    assert(skip_space(line, 0) == 0);
    lemma_token_run(line, 0, hl);
    assert(token_end(line, hl) == hl);
    assert(skip_space(line, hl + 1) == hl + 1);
    assert(skip_space(line, hl) == hl + 1);
    lemma_token_run(line, hl + 1, hl + 1 + tl);
    assert(token_end(line, hl + 1 + tl) == hl + 1 + tl);
    assert(first_field(line) =~= humidity);
    assert(second_field(line) =~= temperature);
    assert forall|k: int| 0 <= k < line.len() implies is_leading_byte_width_1(
        #[trigger] line[k],
    ) by {
        if k < hl {
            assert(is_number_byte(line[k]));
        } else if hl < k < hl + 1 + tl {
            assert(is_number_byte(line[k]));
        }
    }
    assert(line.subrange(0, 0) =~= Seq::<u8>::empty());
    assert(partial_valid_utf8(line, 0));
    partial_valid_utf8_extend_ascii_block(line, 0, line.len() as int);
    assert(line.subrange(0, line.len() as int) =~= line);
    assert forall|j: int| 0 <= j < line.len() - 1 implies line[j] != 10 by {
        if j < hl {
            assert(is_number_byte(line[j]));
        } else if hl < j {
            assert(is_number_byte(line[j]));
        }
    }
}

} // verus!
