//! What can go wrong.

use vstd::prelude::*;
use vstd::string::*;

verus! {

/// The library's errors, each with its cause in words.
#[derive(Debug)]
pub enum TimesfmError {
    Candle(String),
    Io(String),
    Json(String),
    HfHub(String),
    Config(String),
    Shape(String),
    Inference(String),
    Load(String),
    Policy(String),
}

impl TimesfmError {
    /// What the error says.
    pub open spec fn text(self) -> Seq<char> {
        match self {
            TimesfmError::Candle(m) => "Candle error: "@ + m@,
            TimesfmError::Io(m) => "IO error: "@ + m@,
            TimesfmError::Json(m) => "JSON error: "@ + m@,
            TimesfmError::HfHub(m) => "HuggingFace Hub error: "@ + m@,
            TimesfmError::Config(m) => "Invalid configuration: "@ + m@,
            TimesfmError::Shape(m) => "Invalid dimension or shape: "@ + m@,
            TimesfmError::Inference(m) => "Inference error: "@ + m@,
            TimesfmError::Load(m) => "Model load error: "@ + m@,
            TimesfmError::Policy(m) => "Policy error: "@ + m@,
        }
    }

    /// The error as one line of text.
    pub fn message(&self) -> (r: String)
        ensures
            r@ == self.text(),
    {
        let (prefix, cause) = match self {
            TimesfmError::Candle(m) => ("Candle error: ", m),
            TimesfmError::Io(m) => ("IO error: ", m),
            TimesfmError::Json(m) => ("JSON error: ", m),
            TimesfmError::HfHub(m) => ("HuggingFace Hub error: ", m),
            TimesfmError::Config(m) => ("Invalid configuration: ", m),
            TimesfmError::Shape(m) => ("Invalid dimension or shape: ", m),
            TimesfmError::Inference(m) => ("Inference error: ", m),
            TimesfmError::Load(m) => ("Model load error: ", m),
            TimesfmError::Policy(m) => ("Policy error: ", m),
        };
        let mut r = prefix.to_owned();
        r.append(cause.as_str());
        r
    }
}

/// Each kind of error begins with its own words and ends with its cause.
pub proof fn law_errors_say_their_cause(cause: String)
    ensures
        TimesfmError::Candle(cause).text() == "Candle error: "@ + cause@,
        TimesfmError::Io(cause).text() == "IO error: "@ + cause@,
        TimesfmError::Json(cause).text() == "JSON error: "@ + cause@,
        TimesfmError::HfHub(cause).text() == "HuggingFace Hub error: "@ + cause@,
        TimesfmError::Config(cause).text() == "Invalid configuration: "@ + cause@,
        TimesfmError::Shape(cause).text() == "Invalid dimension or shape: "@ + cause@,
        TimesfmError::Inference(cause).text() == "Inference error: "@ + cause@,
        TimesfmError::Load(cause).text() == "Model load error: "@ + cause@,
        TimesfmError::Policy(cause).text() == "Policy error: "@ + cause@,
{
}

} // verus!
