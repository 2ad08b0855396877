//! The errors that solving and plotting a quadratic can end in.

use vstd::prelude::*;
use vstd::string::StringExecFns;

verus! {

/// Why a run failed.
#[derive(Debug)]
pub enum QuadraticError {
    /// The arguments do not describe a quadratic: their number is wrong, one
    /// of them is not a number, or the leading coefficient is zero.
    InvalidArguments(String),
    /// The plot could not be drawn or written.
    PlottingError(String),
}

impl QuadraticError {
    /// The text that an error of this kind and message is reported with.
    pub open spec fn spec_message(&self) -> Seq<char> {
        match self {
            QuadraticError::InvalidArguments(msg) => "Invalid arguments: "@ + msg@,
            QuadraticError::PlottingError(msg) => "Plotting error: "@ + msg@,
        }
    }

    /// The text that the error is reported with: its kind, then its message.
    pub fn message(&self) -> (text: String)
        ensures
            text@ == self.spec_message(),
    {
        match self {
            QuadraticError::InvalidArguments(msg) => {
                let head: String = String::from_str("Invalid arguments: ");
                head.concat(msg.as_str())
            },
            QuadraticError::PlottingError(msg) => {
                let head: String = String::from_str("Plotting error: ");
                head.concat(msg.as_str())
            },
        }
    }

    /// The line that the error is printed in: `Error: `, then its text.
    pub fn report_line(&self) -> (line: String)
        ensures
            line@ == "Error: "@ + self.spec_message(),
    {
        let head: String = String::from_str("Error: ");
        let text: String = self.message();
        head.concat(text.as_str())
    }

    /// Whether the error is about the arguments.
    pub fn is_invalid_arguments(&self) -> (b: bool)
        ensures
            b <==> self is InvalidArguments,
    {
        match self {
            QuadraticError::InvalidArguments(_) => true,
            QuadraticError::PlottingError(_) => false,
        }
    }
}

} // verus!
