//! Laws of the log.

use vstd::prelude::*;

use crate::logging::{logged, Level};
use crate::text::starts;

verus! {

/// What is worth telling is logged whoever tells it; what only helps to find
/// faults is logged for the targets that are watched, and for all beneath them.
pub proof fn details_are_logged_for_watched_targets(level: Level, target: Seq<char>, rest: Seq<char>)
    ensures
        level is Error || level is Warn || level is Info ==> logged(level, target),
        logged(level, "zec"@ + rest),
        logged(level, "project"@ + rest),
        logged(level, "lsp"@ + rest),
        logged(level, "language"@ + rest),
        logged(level, "settings"@ + rest),
        logged(Level::Debug, target) == logged(Level::Trace, target),
        logged(Level::Debug, target) ==> starts(target, "zec"@) || starts(target, "project"@)
            || starts(target, "lsp"@) || starts(target, "language"@) || starts(target, "settings"@),
{
    assert(("zec"@ + rest).take("zec"@.len() as int) =~= "zec"@);
    assert(("project"@ + rest).take("project"@.len() as int) =~= "project"@);
    assert(("lsp"@ + rest).take("lsp"@.len() as int) =~= "lsp"@);
    assert(("language"@ + rest).take("language"@.len() as int) =~= "language"@);
    assert(("settings"@ + rest).take("settings"@.len() as int) =~= "settings"@);
}

/// A level is called by its name in capitals.
pub proof fn levels_are_called_by_their_names(level: Level)
    ensures
        level.word() == match level {
            Level::Error => "ERROR"@,
            Level::Warn => "WARN"@,
            Level::Info => "INFO"@,
            Level::Debug => "DEBUG"@,
            Level::Trace => "TRACE"@,
        },
{
}

} // verus!
