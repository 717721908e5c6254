//! Terminal byte handling: what to echo back for each received byte.

use vstd::prelude::*;

verus! {

/// The bytes the terminal answers one received byte with: backspace and
/// delete rub the previous character out, line feed and carriage return
/// both become CRLF, and everything else echoes unchanged.
pub open spec fn spec_echo_bytes(byte: u8) -> Seq<u8> {
    if byte == 0x08 || byte == 0x7f {
        seq![0x08u8, 0x20u8, 0x08u8]
    } else if byte == 0x0a || byte == 0x0d {
        seq![0x0du8, 0x0au8]
    } else {
        seq![byte]
    }
}

/// Compute the echo for one received byte; the caller sends the result
/// out over the UART.
pub fn handle_byte(byte: u8) -> (r: Vec<u8>)
    ensures
        r@ == spec_echo_bytes(byte),
{
    let mut out: Vec<u8> = Vec::new();
    if byte == 0x08 || byte == 0x7f {
        out.push(0x08);
        out.push(0x20);
        out.push(0x08);
        proof {
            assert(out@ =~= spec_echo_bytes(byte));
        }
    } else if byte == 0x0a || byte == 0x0d {
        out.push(0x0d);
        out.push(0x0a);
        proof {
            assert(out@ =~= spec_echo_bytes(byte));
        }
    } else {
        out.push(byte);
        proof {
            assert(out@ =~= spec_echo_bytes(byte));
        }
    }
    out
}

} // verus!
