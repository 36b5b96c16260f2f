//! The bytes of the live countdown.
use vstd::prelude::*;
use crate::duration::{human_bytes, Seconds};

verus! {

/// Carriage return, then "erase to the end of the line".
pub open spec fn clear_line() -> Seq<u8> {
    seq![13u8, 27u8, 91u8, 75u8]
}

/// The countdown line for `s` seconds left: the line cleared, then the time left.
pub fn progress_line(s: Seconds) -> (res: Vec<u8>)
    ensures
        res@ == clear_line() + human_bytes(s.0 as nat),
{
    let mut line: Vec<u8> = Vec::new();
    line.push(13u8);
    line.push(27u8);
    line.push(91u8);
    line.push(75u8);
    assert(line@ =~= clear_line());
    s.write_human(&mut line);
    line
}

} // verus!
