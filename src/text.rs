use vstd::prelude::*;
use vstd::string::*;

use crate::number::is_number_byte;

verus! {

/// Bytes read as ASCII characters.
pub open spec fn ascii_text(b: Seq<u8>) -> Seq<char> {
    b.map_values(|x: u8| x as char)
}

/// The decimal digits of `n`, most significant first, with no leading zero.
pub open spec fn decimal_text(n: nat) -> Seq<char>
    decreases n,
{
    if n < 10 {
        seq![(48 + n) as char]
    } else {
        decimal_text(n / 10).push((48 + n % 10) as char)
    }
}

/// The decimal text of an integer, with a leading `-` when it is negative.
pub open spec fn signed_text(n: int) -> Seq<char> {
    if n < 0 {
        seq!['-'] + decimal_text((-n) as nat)
    } else {
        decimal_text(n as nat)
    }
}

/// A one-character text for a byte that can occur in a number.
fn number_byte_text(b: u8) -> (r: &'static str)
    requires
        is_number_byte(b),
    ensures
        r@ == seq![b as char],
{
    match b {
        48u8 => {
            proof {
                reveal_strlit("0");
            }
            "0"
        }
        49u8 => {
            proof {
                reveal_strlit("1");
            }
            "1"
        }
        50u8 => {
            proof {
                reveal_strlit("2");
            }
            "2"
        }
        51u8 => {
            proof {
                reveal_strlit("3");
            }
            "3"
        }
        52u8 => {
            proof {
                reveal_strlit("4");
            }
            "4"
        }
        53u8 => {
            proof {
                reveal_strlit("5");
            }
            "5"
        }
        54u8 => {
            proof {
                reveal_strlit("6");
            }
            "6"
        }
        55u8 => {
            proof {
                reveal_strlit("7");
            }
            "7"
        }
        56u8 => {
            proof {
                reveal_strlit("8");
            }
            "8"
        }
        57u8 => {
            proof {
                reveal_strlit("9");
            }
            "9"
        }
        43u8 => {
            proof {
                reveal_strlit("+");
            }
            "+"
        }
        45u8 => {
            proof {
                reveal_strlit("-");
            }
            "-"
        }
        46u8 => {
            proof {
                reveal_strlit(".");
            }
            "."
        }
        101u8 => {
            proof {
                reveal_strlit("e");
            }
            "e"
        }
        _ => {
            proof {
                reveal_strlit("E");
            }
            "E"
        },
    }
}

/// Appends the decimal digits of `n` to `s`.
pub fn push_decimal(s: &mut String, n: u64)
    ensures
        final(s)@ == old(s)@ + decimal_text(n as nat),
    decreases n,
{
    if n >= 10 {
        push_decimal(s, n / 10);
    }
    let d: u8 = (48 + n % 10) as u8;
    s.append(number_byte_text(d));
    assert(final(s)@ =~= old(s)@ + decimal_text(n as nat));
}

/// Appends the decimal text of `n` to `s`.
pub fn push_signed(s: &mut String, n: i64)
    ensures
        final(s)@ == old(s)@ + signed_text(n as int),
{
    if n < 0 {
        proof {
            reveal_strlit("-");
        }
        s.append("-");
        let m: u64 = if n == i64::MIN {
            9223372036854775808u64
        } else {
            (-n) as u64
        };
        push_decimal(s, m);
        assert(final(s)@ =~= old(s)@ + signed_text(n as int));
    } else {
        push_decimal(s, n as u64);
    }
}

/// Appends `b`, whose bytes can all occur in a number, to `s` as text.
pub fn push_number_text(s: &mut String, b: &[u8])
    requires
        forall|k: int| 0 <= k < b@.len() ==> is_number_byte(#[trigger] b@[k]),
    ensures
        final(s)@ == old(s)@ + ascii_text(b@),
{
    let mut i: usize = 0;
    while i < b.len()
        invariant
            i <= b@.len(),
            forall|k: int| 0 <= k < b@.len() ==> is_number_byte(#[trigger] b@[k]),
            s@ == old(s)@ + ascii_text(b@.subrange(0, i as int)),
        decreases b@.len() - i,
    {
        s.append(number_byte_text(b[i]));
        i = i + 1;
        assert(ascii_text(b@.subrange(0, i as int)) =~= ascii_text(b@.subrange(0, i - 1)).push(
            b@[i - 1] as char,
        ));
        assert(s@ =~= old(s)@ + ascii_text(b@.subrange(0, i as int)));
    }
    assert(b@.subrange(0, b@.len() as int) =~= b@);
}

} // verus!
