//! The formatter's settings.
use crate::numbers::{decimal, push_decimal, push_truth, truth};
use vstd::prelude::*;
use vstd::string::StringExecFns;

verus! {

/// How the arguments of a function definition are broken over lines.
/// Single:
/// function(
///   a
/// ) {}
/// Double:
/// function(
///     a
/// ) {}
/// Hanging:
/// function(a,
///          b) {}
#[derive(Debug, Clone, Copy, PartialEq, Eq, Structural)]
pub enum FunctionLineBreaks {
    Hanging,
    Double,
    Single,
}

/// The settings a formatter reads. Users of the library may implement it for
/// their own configuration types.
pub trait FormattingConfig {
    /// The line length that the configuration holds.
    spec fn line_length_spec(&self) -> i32;

    /// The indentation that the configuration holds.
    spec fn indent_spec(&self) -> i32;

    fn line_length(&self) -> (r: i32)
        ensures
            r == self.line_length_spec(),
    ;

    fn indent(&self) -> (r: i32)
        ensures
            r == self.indent_spec(),
    ;

    /// Custom embracing behaviour: https://style.tidyverse.org/syntax.html#embracing
    fn embracing_op_no_nl(&self) -> bool;

    fn allow_nl_after_assignment(&self) -> bool;

    fn space_before_complex_rhs_in_formulas(&self) -> bool;

    fn strip_suffix_whitespace_in_function_defs(&self) -> bool;

    fn function_line_breaks(&self) -> FunctionLineBreaks;

    fn insert_newline_in_quote_call(&self) -> bool;
}

#[derive(Debug, Clone, Copy)]
pub struct Config {
    pub indent: i32,
    pub line_length: i32,
    /// Embracing operator {{ }} does not have line breaks
    pub embracing_op_no_nl: bool,
    /// To allow new lines after assignment or not
    /// Ex. a <-
    ///       TRUE
    /// or
    /// a <- TRUE
    pub allow_nl_after_assignment: bool,
    /// Whether to put a space before complex right hand sides of
    /// the formula operator. Example:
    /// ~ a + b, but ~a
    pub space_before_complex_rhs_in_formula: bool,
    /// Whether to keep the whitespace before the ending
    /// bracket of a function definition
    pub strip_suffix_whitespace_in_function_defs: bool,
    /// The type of line breaking inside function definitions' arguments.
    pub function_line_breaks: FunctionLineBreaks,
    /// Whether to insert the new line after
    /// the opening parenthesis of a call to quote
    /// for very long calls. Example:
    /// quote(a <- function(call) {
    ///   TRUE
    /// })
    /// vs
    /// quote(
    ///   a <- function(call) {
    ///     TRUE
    ///   }
    /// )
    pub insert_newline_in_quote_call: bool,
}

impl FormattingConfig for Config {
    open spec fn line_length_spec(&self) -> i32 {
        self.line_length
    }

    open spec fn indent_spec(&self) -> i32 {
        self.indent
    }

    fn line_length(&self) -> (r: i32)
        ensures
            r == self.line_length,
    {
        self.line_length
    }

    fn indent(&self) -> (r: i32)
        ensures
            r == self.indent,
    {
        self.indent
    }

    fn embracing_op_no_nl(&self) -> (r: bool)
        ensures
            r == self.embracing_op_no_nl,
    {
        self.embracing_op_no_nl
    }

    fn allow_nl_after_assignment(&self) -> (r: bool)
        ensures
            r == self.allow_nl_after_assignment,
    {
        self.allow_nl_after_assignment
    }

    fn space_before_complex_rhs_in_formulas(&self) -> (r: bool)
        ensures
            r == self.space_before_complex_rhs_in_formula,
    {
        self.space_before_complex_rhs_in_formula
    }

    fn strip_suffix_whitespace_in_function_defs(&self) -> (r: bool)
        ensures
            r == self.strip_suffix_whitespace_in_function_defs,
    {
        self.strip_suffix_whitespace_in_function_defs
    }

    fn function_line_breaks(&self) -> (r: FunctionLineBreaks)
        ensures
            r == self.function_line_breaks,
    {
        self.function_line_breaks
    }

    fn insert_newline_in_quote_call(&self) -> (r: bool)
        ensures
            r == self.insert_newline_in_quote_call,
    {
        self.insert_newline_in_quote_call
    }
}

impl Default for Config {
    fn default() -> (r: Self)
        ensures
            r.indent == 2,
            r.line_length == 120,
            r.embracing_op_no_nl,
            !r.allow_nl_after_assignment,
            r.space_before_complex_rhs_in_formula,
            r.strip_suffix_whitespace_in_function_defs,
            r.function_line_breaks == FunctionLineBreaks::Hanging,
            r.insert_newline_in_quote_call,
    {
        Config {
            indent: 2,
            line_length: 120,
            embracing_op_no_nl: true,
            allow_nl_after_assignment: false,
            space_before_complex_rhs_in_formula: true,
            strip_suffix_whitespace_in_function_defs: true,
            function_line_breaks: FunctionLineBreaks::Hanging,
            insert_newline_in_quote_call: true,
        }
    }
}

impl Config {
    pub fn new(
        indent: i32,
        line_length: i32,
        embracing_op_no_nl: bool,
        allow_nl_after_assignment: bool,
        space_before_complex_rhs_in_formula: bool,
        strip_suffix_whitespace_in_function_defs: bool,
        function_line_breaks: FunctionLineBreaks,
        insert_newline_in_quote_call: bool,
    ) -> (r: Self)
        ensures
            r.indent == indent,
            r.line_length == line_length,
            r.embracing_op_no_nl == embracing_op_no_nl,
            r.allow_nl_after_assignment == allow_nl_after_assignment,
            r.space_before_complex_rhs_in_formula == space_before_complex_rhs_in_formula,
            r.strip_suffix_whitespace_in_function_defs == strip_suffix_whitespace_in_function_defs,
            r.function_line_breaks == function_line_breaks,
            r.insert_newline_in_quote_call == insert_newline_in_quote_call,
    {
        Self {
            indent,
            line_length,
            embracing_op_no_nl,
            allow_nl_after_assignment,
            space_before_complex_rhs_in_formula,
            strip_suffix_whitespace_in_function_defs,
            function_line_breaks,
            insert_newline_in_quote_call,
        }
    }
}

impl Config {
    /// The settings as printed: the indentation, the line length and whether a
    /// line may break after an assignment.
    pub fn to_string(&self) -> (r: String)
        ensures
            r@ == "indent: "@ + decimal(self.indent as int) + " line_length: "@ + decimal(
                self.line_length as int,
            ) + " allow_nl_after_assignment: "@ + truth(self.allow_nl_after_assignment),
    {
        let mut out = String::from_str("indent: ");
        push_decimal(&mut out, self.indent as i64);
        out.append(" line_length: ");
        push_decimal(&mut out, self.line_length as i64);
        out.append(" allow_nl_after_assignment: ");
        push_truth(&mut out, self.allow_nl_after_assignment);
        out
    }
}

} // verus!
