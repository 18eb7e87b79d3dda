//! The two ways a codec operation can fail.

use vstd::prelude::*;
use vstd::string::StringExecFns;

verus! {

/// Why an encode or decode call failed.
#[derive(Debug)]
pub enum ByteStyleError {
    /// The reassembled byte buffer is not valid UTF-8.
    FromUtf8,
    /// The decode input held, after whitespace, text that starts with none of
    /// the five code words; carries the unrecognized remainder of the input.
    Parse(String),
}

pub type ByteStyleResult<T> = Result<T, ByteStyleError>;

impl ByteStyleError {
    /// A human-readable description of the failure.
    pub fn message(&self) -> (r: String)
        ensures
            *self matches ByteStyleError::FromUtf8 ==> r@ == "string decode as utf-8 failed"@,
            *self matches ByteStyleError::Parse(m) ==> r@ == "parse failed: "@ + m@,
    {
        match self {
            ByteStyleError::FromUtf8 => "string decode as utf-8 failed".to_owned(),
            ByteStyleError::Parse(m) => {
                let mut out = "parse failed: ".to_owned();
                out.append(m.as_str());
                out
            },
        }
    }
}

} // verus!
