//! A sans-I/O binary codec for a small multiplayer table game.
//!
//! Values are encoded into byte buffers by [`ser_glue::Serable`] implementations
//! and decoded by pull-driven state machines implementing
//! [`ser_glue::DeserMachine`]: the driver feeds bytes in, the machine asks for
//! what it needs and eventually yields a finished value.

use vstd::prelude::*;
use vstd::string::StringExecFns;

pub mod events;
pub mod game_types;
pub mod integer;
pub mod ser_glue;

verus! {

/// Renders the digits `0` to `15` as upper-case hexadecimal characters.
pub open spec fn spec_hex_digit(n: u8) -> char {
    if n == 0 { '0' } else if n == 1 { '1' } else if n == 2 { '2' } else if n == 3 { '3' }
    else if n == 4 { '4' } else if n == 5 { '5' } else if n == 6 { '6' } else if n == 7 { '7' }
    else if n == 8 { '8' } else if n == 9 { '9' } else if n == 10 { 'A' } else if n == 11 { 'B' }
    else if n == 12 { 'C' } else if n == 13 { 'D' } else if n == 14 { 'E' } else { 'F' }
}

/// One byte rendered like the `{:#X}` format: `0x` then one or two upper-case digits.
pub open spec fn spec_hex_byte(b: u8) -> Seq<char> {
    if b < 16 {
        seq!['0', 'x', spec_hex_digit(b)]
    } else {
        seq!['0', 'x', spec_hex_digit(b / 16), spec_hex_digit(b % 16)]
    }
}

/// The tail of the rendering: `, 0x..` for each byte, then the closing bracket.
pub open spec fn spec_hex_tail(b: Seq<u8>) -> Seq<char>
    decreases b.len(),
{
    if b.len() == 0 {
        seq![']']
    } else {
        seq![',', ' '] + spec_hex_byte(b[0]) + spec_hex_tail(b.drop_first())
    }
}

/// The whole rendering of a byte string as a bracketed, comma-separated hex array.
pub open spec fn spec_hex_array(b: Seq<u8>) -> Seq<char> {
    if b.len() == 0 {
        seq!['[', ']']
    } else {
        seq!['['] + spec_hex_byte(b[0]) + spec_hex_tail(b.drop_first())
    }
}

/// Appends one upper-case hexadecimal digit.
fn push_hex_digit(out: &mut String, d: u8)
    requires
        d < 16,
    ensures
        final(out)@ == old(out)@ + seq![spec_hex_digit(d)],
{
    proof {
        reveal_strlit("0");
        reveal_strlit("1");
        reveal_strlit("2");
        reveal_strlit("3");
        reveal_strlit("4");
        reveal_strlit("5");
        reveal_strlit("6");
        reveal_strlit("7");
        reveal_strlit("8");
        reveal_strlit("9");
        reveal_strlit("A");
        reveal_strlit("B");
        reveal_strlit("C");
        reveal_strlit("D");
        reveal_strlit("E");
        reveal_strlit("F");
    }
    match d {
        0 => out.append("0"),
        1 => out.append("1"),
        2 => out.append("2"),
        3 => out.append("3"),
        4 => out.append("4"),
        5 => out.append("5"),
        6 => out.append("6"),
        7 => out.append("7"),
        8 => out.append("8"),
        9 => out.append("9"),
        10 => out.append("A"),
        11 => out.append("B"),
        12 => out.append("C"),
        13 => out.append("D"),
        14 => out.append("E"),
        _ => out.append("F"),
    }
    proof {
        assert(final(out)@ =~= old(out)@ + seq![spec_hex_digit(d)]);
    }
}

/// Appends one byte in the `0x..` form with one or two digits.
fn push_hex_byte(out: &mut String, v: u8)
    ensures
        final(out)@ == old(out)@ + spec_hex_byte(v),
{
    proof {
        reveal_strlit("0x");
    }
    out.append("0x");
    if v < 16 {
        push_hex_digit(out, v);
    } else {
        push_hex_digit(out, v / 16);
        push_hex_digit(out, v % 16);
    }
    proof {
        assert("0x"@ =~= seq!['0', 'x']);
        assert(final(out)@ =~= old(out)@ + spec_hex_byte(v));
    }
}

/// Renders a byte string the way a debugger would: a bracketed list of
/// upper-case `0x..` bytes.
pub fn display_bytes_as_hex_array(b: &[u8]) -> (r: String)
    ensures
        r@ == spec_hex_array(b@),
{
    let mut out = String::new();
    proof {
        reveal_strlit("[");
        reveal_strlit("]");
        reveal_strlit(", ");
    }
    out.append("[");
    if b.len() == 0 {
        out.append("]");
        proof {
            assert("["@ =~= seq!['[']);
            assert("]"@ =~= seq![']']);
            assert(out@ =~= spec_hex_array(b@));
        }
        return out;
    }
    push_hex_byte(&mut out, b[0]);
    proof {
        assert("["@ =~= seq!['[']);
        assert(out@ + spec_hex_tail(b@.skip(1)) =~= spec_hex_array(b@));
    }
    let mut i: usize = 1;
    while i < b.len()
        invariant
            1 <= i <= b@.len(),
            out@ + spec_hex_tail(b@.skip(i as int)) == spec_hex_array(b@),
        decreases b@.len() - i,
    {
        let ghost pre = out@;
        out.append(", ");
        push_hex_byte(&mut out, b[i]);
        proof {
            reveal_strlit(", ");
            assert(", "@ =~= seq![',', ' ']);
            assert(b@.skip(i as int)[0] == b@[i as int]);
            assert(b@.skip(i as int).drop_first() =~= b@.skip(i + 1));
            assert(spec_hex_tail(b@.skip(i as int)) =~= seq![',', ' '] + spec_hex_byte(
                b@[i as int],
            ) + spec_hex_tail(b@.skip(i + 1)));
            assert(out@ + spec_hex_tail(b@.skip(i + 1)) =~= pre + spec_hex_tail(
                b@.skip(i as int),
            ));
        }
        i += 1;
    }
    out.append("]");
    proof {
        reveal_strlit("]");
        assert("]"@ =~= seq![']']);
        assert(b@.skip(b@.len() as int) =~= Seq::<u8>::empty());
        assert(out@ =~= spec_hex_array(b@));
    }
    out
}

} // verus!
