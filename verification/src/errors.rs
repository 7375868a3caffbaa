//! Diagnostics: every reported condition is a hard structural error carrying
//! the position of the offending form and a message. There is no severity or
//! kind distinction at this layer.

use vstd::prelude::*;

use crate::source_info::SourceInfo;
use crate::source_info::SpecPos;
use crate::strutil::dec_int;
use crate::strutil::format_i64;
use vstd::string::StringExecFns;

verus! {

#[derive(Clone, Debug)]
pub struct Error {
    pub si: SourceInfo,
    pub message: String,
}

impl Error {
    pub fn new(message: String, si: SourceInfo) -> (r: Self)
        ensures
            r.message == message,
            r.si == si,
    {
        Self { message, si }
    }

    /// Renders the diagnostic for display, tagged with the source name and
    /// the 1-based line and column where the offending form begins.
    pub fn to_string(&self, file_name: &str) -> (r: String)
        ensures
            r@ == "ERROR::"@ + file_name@ + "("@ + dec_int(self.si.line as int) + ":"@ + dec_int(
                self.si.column as int,
            ) + ") "@ + self.message@,
    {
        let mut s = String::from_str("ERROR::");
        s.append(file_name);
        s.append("(");
        let line_s = format_i64(self.si.line);
        s.append(line_s.as_str());
        s.append(":");
        let column_s = format_i64(self.si.column);
        s.append(column_s.as_str());
        s.append(") ");
        s.append(self.message.as_str());
        proof {
            assert(s@ =~= "ERROR::"@ + file_name@ + "("@ + dec_int(self.si.line as int) + ":"@
                + dec_int(self.si.column as int) + ") "@ + self.message@);
        }
        s
    }
}

/// The mathematical model of a diagnostic: the position as unbounded
/// integers and the message as a character sequence.
pub ghost struct SpecError {
    pub pos: SpecPos,
    pub msg: Seq<char>,
}

/// Whether an executable `Error` carries exactly the modelled diagnostic.
pub open spec fn error_matches(e: Error, g: SpecError) -> bool {
    &&& e.si@ == g.pos
    &&& e.message@ == g.msg
}

/// Whether a sequence of executable errors carries exactly the modelled ones,
/// in the same order.
pub open spec fn errors_match(es: Seq<Error>, gs: Seq<SpecError>) -> bool {
    &&& es.len() == gs.len()
    &&& forall|i: int| 0 <= i < es.len() ==> error_matches(#[trigger] es[i], gs[i])
}

/// A modelled diagnostic whose position is taken from an existing token's
/// `SourceInfo` rather than from the scanner.
pub open spec fn spec_error_at(si: SourceInfo, msg: Seq<char>) -> SpecError {
    SpecError { pos: si@, msg }
}

// The complete set of messages the lexer can report.

pub open spec fn msg_expected_open() -> Seq<char> {
    "Expected '{' to start an s-expression"@
}

pub open spec fn msg_expected_close() -> Seq<char> {
    "Expected '}' to end s-expression"@
}

pub open spec fn msg_unterminated_string() -> Seq<char> {
    "Unterminated string literal"@
}

pub open spec fn msg_digit_after_dot() -> Seq<char> {
    "Expected at least one digit after '.'"@
}

pub open spec fn msg_duplicate_decimal_point() -> Seq<char> {
    "Duplicate decimal point in float"@
}

pub open spec fn msg_integer_overflow() -> Seq<char> {
    "Integer literal exceeds maximum integer size"@
}

pub open spec fn msg_digit_after_base_prefix() -> Seq<char> {
    "Expected at least one digit after integer base prefix"@
}

pub open spec fn msg_unexpected_character() -> Seq<char> {
    "Unexpected character"@
}

// The complete set of messages the validator can report.

pub open spec fn msg_variable_name() -> Seq<char> {
    "Variables require a name"@
}

pub open spec fn msg_variable_value() -> Seq<char> {
    "Variables require an initial value"@
}

pub open spec fn msg_procedure_name() -> Seq<char> {
    "Procedures require a name"@
}

pub open spec fn msg_function_name() -> Seq<char> {
    "Functions require a name"@
}

pub open spec fn msg_function_params() -> Seq<char> {
    "Functions are required to have at least one parameter"@
}

pub open spec fn msg_function_params_idents() -> Seq<char> {
    "Function parameters have to be identifiers"@
}

pub open spec fn msg_lambda_params() -> Seq<char> {
    "Lambda functions require a parameter list"@
}

pub open spec fn msg_lambda_params_idents() -> Seq<char> {
    "Parameters need to be valid identifiers"@
}

pub open spec fn msg_lambda_body() -> Seq<char> {
    "Lambda functions require at least one expression in them"@
}

} // verus!
