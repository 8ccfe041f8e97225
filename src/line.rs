use vstd::prelude::*;
use vstd::utf8::{decode_utf8, valid_utf8};

use crate::SerialFrameError;

verus! {

/// Relies on `String::from_utf8`: it succeeds exactly on valid UTF-8, and the
/// string then holds the characters that the bytes encode.
#[verifier::external_body]
fn string_from_utf8(bytes: Vec<u8>) -> (r: Option<String>)
    ensures
        r is Some <==> valid_utf8(bytes@),
        r is Some ==> r->Some_0@ == decode_utf8(bytes@),
{
    String::from_utf8(bytes).ok()
}

/// A frame read as text: the line's characters, its terminator included.
pub struct Line(pub String);

impl Line {
    /// Reads `input` as UTF-8 text. Bytes that are not valid UTF-8 give
    /// `FailedConversion` holding them unchanged.
    pub fn try_from(input: Vec<u8>) -> (r: Result<Line, SerialFrameError>)
        ensures
            r is Ok <==> valid_utf8(input@),
            r matches Ok(l) ==> l.0@ == decode_utf8(input@),
            r matches Err(e) ==> e matches SerialFrameError::FailedConversion(b) && b@ == input@,
    {
        let copy = input.clone();
        assert(copy@ =~= input@);
        match string_from_utf8(copy) {
            Some(s) => Ok(Line(s)),
            None => Err(SerialFrameError::FailedConversion(input)),
        }
    }

    /// The text of the line.
    pub fn as_str(&self) -> (r: &str)
        ensures
            r@ == self.0@,
    {
        self.0.as_str()
    }
}

/// Converts a frame to `T`. A frame that `T` refuses gives `FailedConversion`
/// holding the frame's bytes unchanged; a value that `T` accepts is passed on.
pub fn convert_frame<T: TryFrom<Vec<u8>>>(frame: Vec<u8>) -> (r: Result<T, SerialFrameError>)
    ensures
        r matches Ok(v) ==> exists|c: Vec<u8>, out: Result<T, T::Error>|
            c@ == frame@ && out == Ok::<T, T::Error>(v) && call_ensures(T::try_from, (c,), out),
        r matches Err(e) ==> e matches SerialFrameError::FailedConversion(b) && b@ == frame@
            && exists|c: Vec<u8>, out: Result<T, T::Error>|
            c@ == frame@ && out is Err && call_ensures(T::try_from, (c,), out),
{
    let copy = frame.clone();
    assert(copy@ =~= frame@);
    let out = T::try_from(copy);
    match out {
        Ok(v) => Ok(v),
        Err(_) => Err(SerialFrameError::FailedConversion(frame)),
    }
}

} // verus!
