//! The optional log file: which records go into it, and as what lines.

use vstd::prelude::*;
use vstd::string::*;

use crate::text::{starts, starts_with};

verus! {

broadcast use vstd::string::group_string_axioms;

/// How much a record matters.
#[derive(Clone, Copy, Debug, PartialEq, Eq, Structural)]
pub enum Level {
    Error,
    Warn,
    Info,
    Debug,
    Trace,
}

impl Level {
    pub open spec fn word(self) -> Seq<char> {
        match self {
            Level::Error => "ERROR"@,
            Level::Warn => "WARN"@,
            Level::Info => "INFO"@,
            Level::Debug => "DEBUG"@,
            Level::Trace => "TRACE"@,
        }
    }

    /// The word for it.
    pub fn name(self) -> (name: &'static str)
        ensures
            name@ == self.word(),
    {
        match self {
            Level::Error => "ERROR",
            Level::Warn => "WARN",
            Level::Info => "INFO",
            Level::Debug => "DEBUG",
            Level::Trace => "TRACE",
        }
    }
}

/// Whether a record comes from this program, or from what runs language
/// servers and settings.
pub open spec fn watched(target: Seq<char>) -> bool {
    ||| starts(target, "zec"@)
    ||| starts(target, "project"@)
    ||| starts(target, "lsp"@)
    ||| starts(target, "language"@)
    ||| starts(target, "settings"@)
}

/// Whether a record is logged: all that is at least informative, and the rest
/// where it is watched.
pub open spec fn logged(level: Level, target: Seq<char>) -> bool {
    level == Level::Error || level == Level::Warn || level == Level::Info || watched(target)
}

/// Whether a record is logged.
pub fn enabled(level: Level, target: &str) -> (result: bool)
    ensures
        result == logged(level, target@),
{
    match level {
        Level::Error | Level::Warn | Level::Info => true,
        _ => starts_with(target, "zec") || starts_with(target, "project") || starts_with(
            target,
            "lsp",
        ) || starts_with(target, "language") || starts_with(target, "settings"),
    }
}

/// The line of a record, without its end; none for one that is not logged.
pub fn line(level: Level, target: &str, message: &str) -> (line: Option<String>)
    ensures
        line is Some <==> logged(level, target@),
        line is Some ==> line->0@ == level.word() + " "@ + target@ + " "@ + message@,
{
    if !enabled(level, target) {
        return None;
    }
    let mut text = level.name().to_string();
    text.append(" ");
    text.append(target);
    text.append(" ");
    text.append(message);
    Some(text)
}

} // verus!
