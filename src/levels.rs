use vstd::prelude::*;

verus! {

/// Severity of an event; `Off` is never produced by normal capture.
#[derive(Clone, Copy, Debug, PartialEq, Eq, Structural)]
pub enum Level {
    Off,
    Error,
    Warn,
    Info,
    Debug,
    Trace,
}

/// The display name of each severity, as the ingestion server names it.
pub open spec fn seq_level_name(level: Level) -> Seq<char> {
    match level {
        Level::Off => "Fatal"@,
        Level::Error => "Error"@,
        Level::Warn => "Warning"@,
        Level::Info => "Information"@,
        Level::Debug => "Debug"@,
        Level::Trace => "Verbose"@,
    }
}

/// Maps a severity to its display name; `Off` renders as the most severe name.
pub fn to_seq_level(level: Level) -> (r: &'static str)
    ensures
        r@ == seq_level_name(level),
{
    proof {
        reveal_strlit("Fatal");
        reveal_strlit("Error");
        reveal_strlit("Warning");
        reveal_strlit("Information");
        reveal_strlit("Debug");
        reveal_strlit("Verbose");
    }
    match level {
        Level::Off => "Fatal",
        Level::Error => "Error",
        Level::Warn => "Warning",
        Level::Info => "Information",
        Level::Debug => "Debug",
        Level::Trace => "Verbose",
    }
}

} // verus!
