//! Human-readable names of the wire encodings of the message kinds.

use vstd::prelude::*;

verus! {

/// The printable name of a message-kind encoding; the empty string for an
/// encoding the protocol does not use on the wire.
pub fn req_encoding_to_string(n: u16) -> (r: &'static str)
    ensures
        n == 0 ==> r@ == "ENQ_REQ"@,
        n == 1 ==> r@ == "DEQ_REQ"@,
        n == 2 ==> r@ == "ENQ_ACK"@,
        n == 3 ==> r@ == "UNSAFE"@,
        n == 4 ==> r@ == "SAFE"@,
        n > 4 ==> r@ == ""@,
{
    match n {
        0 => "ENQ_REQ",
        1 => "DEQ_REQ",
        2 => "ENQ_ACK",
        3 => "UNSAFE",
        4 => "SAFE",
        _ => "",
    }
}

} // verus!
