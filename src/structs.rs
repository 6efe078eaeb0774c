use vstd::prelude::*;

verus! {

/// Target unit of the temperature statistics.
#[derive(Clone, Copy, Debug, PartialEq, Eq, Structural)]
pub enum TemperatureUnit {
    Celsius,
    Fahrenheit,
    Kelvin,
}

/// Console logger: every message is enabled and printed as `[LEVEL] message`.
#[derive(Clone, Copy, Debug, PartialEq, Eq, Structural)]
pub struct SimpleLogger;

/// The text of one log line.
pub open spec fn log_line(level: Seq<char>, message: Seq<char>) -> Seq<char> {
    seq!['['] + level + seq![']', ' '] + message
}

impl SimpleLogger {
    /// Whether messages are printed: always.
    pub fn enabled(&self) -> (r: bool)
        ensures
            r,
    {
        true
    }

    /// Formats one message with its level.
    pub fn line(&self, level: &str, message: &str) -> (r: String)
        ensures
            r@ == log_line(level@, message@),
    {
        let mut out = "[".to_owned();
        out.append(level);
        out.append("] ");
        out.append(message);
        proof {
            reveal_strlit("[");
            reveal_strlit("] ");
        }
        assert(out@ =~= log_line(level@, message@));
        out
    }
}

} // verus!
