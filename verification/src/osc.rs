//! The message that carries one tracker's transform: an address that names
//! the tracker and seven single-precision arguments.

use vstd::prelude::*;
use vstd::string::*;
use crate::transform::Transform;

verus! {

/// One message, ready to be encoded: the address pattern and the arguments
/// as bit patterns, in the order in which they are sent.
pub struct TrackerMessage {
    pub addr: String,
    pub args: [u32; 7],
}

/// The character of a decimal digit.
pub open spec fn digit(d: nat) -> char {
    if d == 0 {
        '0'
    } else if d == 1 {
        '1'
    } else if d == 2 {
        '2'
    } else if d == 3 {
        '3'
    } else if d == 4 {
        '4'
    } else if d == 5 {
        '5'
    } else if d == 6 {
        '6'
    } else if d == 7 {
        '7'
    } else if d == 8 {
        '8'
    } else {
        '9'
    }
}

/// A number in decimal, without sign or leading zeros.
pub open spec fn decimal(n: nat) -> Seq<char>
    decreases n,
{
    if n < 10 {
        seq![digit(n)]
    } else {
        decimal(n / 10) + seq![digit(n % 10)]
    }
}

/// The address of a tracker: a fixed prefix and the tracker's index.
pub open spec fn address_of(tracker_index: u32) -> Seq<char> {
    "/tracker/"@ + decimal(tracker_index as nat)
}

/// The arguments of a transform: the position, then the rotation with its
/// real part last.
pub open spec fn arguments_of(transform: Transform) -> Seq<u32> {
    seq![
        transform.position.x,
        transform.position.y,
        transform.position.z,
        transform.rotation.x,
        transform.rotation.y,
        transform.rotation.z,
        transform.rotation.w,
    ]
}

/// The text of one decimal digit.
fn digit_text(d: u32) -> (text: &'static str)
    requires
        d < 10,
    ensures
        text@ == seq![digit(d as nat)],
{
    proof {
        reveal_strlit("0");
        reveal_strlit("1");
        reveal_strlit("2");
        reveal_strlit("3");
        reveal_strlit("4");
        reveal_strlit("5");
        reveal_strlit("6");
        reveal_strlit("7");
        reveal_strlit("8");
        reveal_strlit("9");
    }
    let text: &'static str = if d == 0 {
        "0"
    } else if d == 1 {
        "1"
    } else if d == 2 {
        "2"
    } else if d == 3 {
        "3"
    } else if d == 4 {
        "4"
    } else if d == 5 {
        "5"
    } else if d == 6 {
        "6"
    } else if d == 7 {
        "7"
    } else if d == 8 {
        "8"
    } else {
        "9"
    };
    text
}

/// Appends `n` in decimal to `text`.
fn append_decimal(text: &mut String, n: u32)
    ensures
        final(text)@ == old(text)@ + decimal(n as nat),
    decreases n,
{
    if n >= 10 {
        append_decimal(text, n / 10);
    }
    text.append(digit_text(n % 10));
}

/// The address under which the transform of tracker `tracker_index` is sent.
pub fn tracker_address(tracker_index: u32) -> (addr: String)
    ensures
        addr@ == address_of(tracker_index),
{
    let mut addr = String::from_str("/tracker/");
    append_decimal(&mut addr, tracker_index);
    addr
}

/// The seven arguments of a transform, in the order in which they are sent.
pub fn tracker_arguments(transform: &Transform) -> (args: [u32; 7])
    ensures
        args@ == arguments_of(*transform),
{
    let args: [u32; 7] = [
        transform.position.x,
        transform.position.y,
        transform.position.z,
        transform.rotation.x,
        transform.rotation.y,
        transform.rotation.z,
        transform.rotation.w,
    ];
    args
}

/// The message for the transform of tracker `tracker_index`.
pub fn tracker_message(tracker_index: u32, transform: &Transform) -> (message: TrackerMessage)
    ensures
        message.addr@ == address_of(tracker_index),
        message.args@ == arguments_of(*transform),
{
    TrackerMessage {
        addr: tracker_address(tracker_index),
        args: tracker_arguments(transform),
    }
}

} // verus!
