//! Errors and diagnostics.
//!
//! Scanning and parsing report what they find to a `Diagnostics` value that
//! the caller owns and passes in; nothing here is shared or global.

use crate::text::{decimal_text, push_decimal, push_text};
use vstd::prelude::*;

verus! {

/// An error with the message that is shown for it.
#[derive(Debug, PartialEq)]
pub struct LoxError {
    pub message: String,
}

impl View for LoxError {
    type V = Seq<char>;

    open spec fn view(&self) -> Seq<char> {
        self.message@
    }
}

impl Clone for LoxError {
    fn clone(&self) -> (r: Self)
        ensures
            r@ == self@,
    {
        LoxError { message: self.message.clone() }
    }
}

impl LoxError {
    /// The error with the message `msg`.
    pub fn new(msg: &str) -> (r: Self)
        ensures
            r@ == msg@,
    {
        let mut message = String::new();
        push_text(&mut message, msg);
        proof {
            assert(Seq::<char>::empty() + msg@ =~= msg@);
        }
        LoxError { message }
    }

    /// The message, as it is shown.
    pub fn to_string(&self) -> (s: String)
        ensures
            s@ == self@,
    {
        self.message.clone()
    }
}

/// What scanning and parsing have reported so far.
pub struct Diagnostics {
    pub had_error: bool,
    pub had_runtime_error: bool,
    pub reports: Vec<String>,
}

/// What a `Diagnostics` is, as a mathematical value.
pub ghost struct DiagnosticsModel {
    pub had_error: bool,
    pub had_runtime_error: bool,
    pub reports: Seq<Seq<char>>,
}

impl View for Diagnostics {
    type V = DiagnosticsModel;

    open spec fn view(&self) -> DiagnosticsModel {
        DiagnosticsModel {
            had_error: self.had_error,
            had_runtime_error: self.had_runtime_error,
            reports: Seq::new(self.reports@.len(), |i: int| self.reports@[i]@),
        }
    }
}

impl Diagnostics {
    /// Nothing reported, no flag set.
    pub fn new() -> (r: Self)
        ensures
            r@ == (DiagnosticsModel {
                had_error: false,
                had_runtime_error: false,
                reports: Seq::empty(),
            }),
    {
        let r = Diagnostics { had_error: false, had_runtime_error: false, reports: Vec::new() };
        proof {
            assert(r@.reports =~= Seq::empty());
        }
        r
    }
}

/// The line of text that reports `message` for `line`, at `location`.
pub open spec fn report_text(line: usize, location: Seq<char>, message: Seq<char>) -> Seq<char> {
    "[line "@ + decimal_text(line as nat) + "] Error "@ + location + ": "@ + message
}

/// The model after `message` was reported for `line` at `location`: the
/// error flag is set, and one line of text is added.
pub open spec fn reported_at(
    d: DiagnosticsModel,
    line: usize,
    location: Seq<char>,
    message: Seq<char>,
) -> DiagnosticsModel {
    DiagnosticsModel {
        had_error: true,
        had_runtime_error: d.had_runtime_error,
        reports: d.reports.push(report_text(line, location, message)),
    }
}

/// The model after `message` was reported for `line`, with no location.
pub open spec fn reported(d: DiagnosticsModel, line: usize, message: Seq<char>) -> DiagnosticsModel {
    reported_at(d, line, Seq::empty(), message)
}

/// Reports `message` for `line` at `location`: adds the line of text that
/// says so to the reports, and sets the error flag.
pub fn report(diagnostics: &mut Diagnostics, line: usize, location: &str, message: &str)
    ensures
        final(diagnostics)@ == reported_at(old(diagnostics)@, line, location@, message@),
{
    let text = report_line(line, location, message);
    diagnostics.reports.push(text);
    diagnostics.had_error = true;
    proof {
        assert(final(diagnostics)@.reports =~= old(diagnostics)@.reports.push(
            report_text(line, location@, message@),
        ));
    }
}

/// Reports `message` for `line`, with no location, and sets the error flag.
pub fn error(diagnostics: &mut Diagnostics, line: usize, message: &str)
    ensures
        final(diagnostics)@ == reported(old(diagnostics)@, line, message@),
{
    proof {
        reveal_strlit("");
        assert(""@ =~= Seq::<char>::empty());
    }
    report(diagnostics, line, "", message);
    set_error(diagnostics, true);
}

/// The line of text that reports `message` for `line`, at `location`.
pub fn report_line(line: usize, location: &str, message: &str) -> (text: String)
    ensures
        text@ == report_text(line, location@, message@),
{
    let mut text = String::new();
    push_text(&mut text, "[line ");
    push_decimal(&mut text, line as u64);
    push_text(&mut text, "] Error ");
    push_text(&mut text, location);
    push_text(&mut text, ": ");
    push_text(&mut text, message);
    proof {
        assert(Seq::<char>::empty() + "[line "@ =~= "[line "@);
    }
    text
}

/// Whether an error was reported.
pub fn get_error(diagnostics: &Diagnostics) -> (r: bool)
    ensures
        r == diagnostics@.had_error,
{
    diagnostics.had_error
}

/// Whether the flag for a failed evaluation is set.
pub fn get_runtime_error(diagnostics: &Diagnostics) -> (r: bool)
    ensures
        r == diagnostics@.had_runtime_error,
{
    diagnostics.had_runtime_error
}

/// Sets or clears the error flag.
pub fn set_error(diagnostics: &mut Diagnostics, had_error: bool)
    ensures
        final(diagnostics)@ == (DiagnosticsModel { had_error, ..old(diagnostics)@ }),
{
    diagnostics.had_error = had_error;
}

/// Sets or clears the flag for a failed evaluation.
pub fn set_runtime_error(diagnostics: &mut Diagnostics, had_runtime_error: bool)
    ensures
        final(diagnostics)@ == (DiagnosticsModel { had_runtime_error, ..old(diagnostics)@ }),
{
    diagnostics.had_runtime_error = had_runtime_error;
}

} // verus!
