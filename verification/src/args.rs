//! The command line: a program name and three coefficients.

use vstd::prelude::*;
use vstd::string::StringExecFns;
use crate::equation::QuadraticEquation;
use crate::error::QuadraticError;
use crate::number::Decimal;
use crate::text::decimal_micros;

verus! {

/// The message of the error for a wrong number of arguments.
pub open spec fn count_message() -> Seq<char> {
    "Expected 3 arguments: a, b, c"@
}

/// The message of the error for the argument `text`, given for the
/// coefficient `name`, that is not a number.
pub open spec fn not_a_number_message(text: Seq<char>, name: Seq<char>) -> Seq<char> {
    "Could not parse '"@ + text + "' as a number for coefficient "@ + name
}

/// What the arguments `args`, the program's name first, stand for: the three
/// coefficients in millionths, or the message of the error they are refused
/// with.  The first fault found decides: the number of arguments, then
/// `a`, `b` and `c` in turn, then a leading coefficient of zero.
pub open spec fn parsed_args(args: Seq<String>) -> Result<(int, int, int), Seq<char>> {
    if args.len() != 4 {
        Err(count_message())
    } else if decimal_micros(args[1]@) is None {
        Err(not_a_number_message(args[1]@, "a"@))
    } else if decimal_micros(args[2]@) is None {
        Err(not_a_number_message(args[2]@, "b"@))
    } else if decimal_micros(args[3]@) is None {
        Err(not_a_number_message(args[3]@, "c"@))
    } else if decimal_micros(args[1]@)->0 == 0 {
        Err(QuadraticEquation::zero_a_message())
    } else {
        Ok((decimal_micros(args[1]@)->0, decimal_micros(args[2]@)->0, decimal_micros(args[3]@)->0))
    }
}

/// The name that the program is spoken of by: its first argument, or
/// `program` where there is none.
pub open spec fn program_name(args: Seq<String>) -> Seq<char> {
    if args.len() > 0 {
        args[0]@
    } else {
        "program"@
    }
}

/// The line that says how the program is called.
pub open spec fn usage_text(args: Seq<String>) -> Seq<char> {
    "Usage: "@ + program_name(args) + " a b c"@
}

/// The line that says how the program is called.
pub fn usage_line(args: &Vec<String>) -> (line: String)
    ensures
        line@ == usage_text(args@),
{
    let mut line: String = String::from_str("Usage: ");
    if args.len() > 0 {
        line.append(args[0].as_str());
    } else {
        line.append("program");
    }
    line.append(" a b c");
    line
}

/// The coefficient named `name` that `text` stands for, or the error that
/// says that `text` is no number.
pub fn parse_coefficient(text: &str, name: &str) -> (r: Result<Decimal, QuadraticError>)
    ensures
        r is Ok <==> decimal_micros(text@) is Some,
        r matches Ok(d) ==> d.spec_micros() == decimal_micros(text@)->0,
        r matches Err(e) ==> e matches QuadraticError::InvalidArguments(msg) && msg@
            == not_a_number_message(text@, name@),
{
    match Decimal::parse(text) {
        Some(d) => Ok(d),
        None => {
            let mut msg: String = String::from_str("Could not parse '");
            msg.append(text);
            msg.append("' as a number for coefficient ");
            msg.append(name);
            Err(QuadraticError::InvalidArguments(msg))
        },
    }
}

/// The equation that the arguments `args` describe.  `args` holds the
/// program's name, then `a`, `b` and `c`.
pub fn parse_args(args: &Vec<String>) -> (r: Result<QuadraticEquation, QuadraticError>)
    ensures
        match parsed_args(args@) {
            Ok((a, b, c)) => r matches Ok(eq) && eq.spec_a().spec_micros() == a
                && eq.spec_b().spec_micros() == b && eq.spec_c().spec_micros() == c,
            Err(text) => r matches Err(QuadraticError::InvalidArguments(msg)) && msg@ == text,
        },
{
    if args.len() != 4 {
        return Err(
            QuadraticError::InvalidArguments(String::from_str("Expected 3 arguments: a, b, c")),
        );
    }
    let a: Decimal = match parse_coefficient(args[1].as_str(), "a") {
        Ok(d) => d,
        Err(e) => {
            return Err(e);
        },
    };
    let b: Decimal = match parse_coefficient(args[2].as_str(), "b") {
        Ok(d) => d,
        Err(e) => {
            return Err(e);
        },
    };
    let c: Decimal = match parse_coefficient(args[3].as_str(), "c") {
        Ok(d) => d,
        Err(e) => {
            return Err(e);
        },
    };
    QuadraticEquation::new(a, b, c)
}

} // verus!
