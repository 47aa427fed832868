//! Severity levels and the thresholds that filter them.

use vstd::prelude::*;

verus! {

/// The severity of an event or span, from the most to the least urgent.
#[derive(Clone, Copy, Debug, PartialEq, Eq, Structural)]
pub enum Level {
    Error,
    Warn,
    Info,
    Debug,
    Trace,
}

/// The most verbose level that a directive lets through, or `Off` for none.
#[derive(Clone, Copy, Debug, PartialEq, Eq, Structural)]
pub enum LevelFilter {
    Off,
    Error,
    Warn,
    Info,
    Debug,
    Trace,
}

impl Level {
    /// How verbose the level is: 1 for `Error` up to 5 for `Trace`.
    pub open spec fn verbosity(self) -> nat {
        match self {
            Level::Error => 1,
            Level::Warn => 2,
            Level::Info => 3,
            Level::Debug => 4,
            Level::Trace => 5,
        }
    }

    /// The verbosity as a machine integer.
    pub fn rank(self) -> (r: u8)
        ensures
            r == self.verbosity(),
    {
        match self {
            Level::Error => 1,
            Level::Warn => 2,
            Level::Info => 3,
            Level::Debug => 4,
            Level::Trace => 5,
        }
    }
}

impl LevelFilter {
    /// The highest verbosity that passes: 0 for `Off` up to 5 for `Trace`.
    pub open spec fn ceiling(self) -> nat {
        match self {
            LevelFilter::Off => 0,
            LevelFilter::Error => 1,
            LevelFilter::Warn => 2,
            LevelFilter::Info => 3,
            LevelFilter::Debug => 4,
            LevelFilter::Trace => 5,
        }
    }

    /// Whether an event of `level` passes this threshold.
    pub open spec fn spec_permits(self, level: Level) -> bool {
        level.verbosity() <= self.ceiling()
    }

    /// The ceiling as a machine integer.
    pub fn rank(self) -> (r: u8)
        ensures
            r == self.ceiling(),
    {
        match self {
            LevelFilter::Off => 0,
            LevelFilter::Error => 1,
            LevelFilter::Warn => 2,
            LevelFilter::Info => 3,
            LevelFilter::Debug => 4,
            LevelFilter::Trace => 5,
        }
    }

    /// Whether an event of `level` passes this threshold.
    pub fn permits(self, level: Level) -> (r: bool)
        ensures
            r == self.spec_permits(level),
    {
        level.rank() <= self.rank()
    }

    /// The threshold that lets through `level` and everything more urgent.
    pub open spec fn spec_from_level(level: Level) -> LevelFilter {
        match level {
            Level::Error => LevelFilter::Error,
            Level::Warn => LevelFilter::Warn,
            Level::Info => LevelFilter::Info,
            Level::Debug => LevelFilter::Debug,
            Level::Trace => LevelFilter::Trace,
        }
    }

    /// The threshold that lets through `level` and everything more urgent.
    pub fn from_level(level: Level) -> (r: LevelFilter)
        ensures
            r == Self::spec_from_level(level),
            r.ceiling() == level.verbosity(),
    {
        match level {
            Level::Error => LevelFilter::Error,
            Level::Warn => LevelFilter::Warn,
            Level::Info => LevelFilter::Info,
            Level::Debug => LevelFilter::Debug,
            Level::Trace => LevelFilter::Trace,
        }
    }

    /// The threshold that a lower-case level name stands for.
    pub open spec fn spec_from_name(name: Seq<char>) -> Option<LevelFilter> {
        if name == "off"@ {
            Some(LevelFilter::Off)
        } else if name == "error"@ {
            Some(LevelFilter::Error)
        } else if name == "warn"@ {
            Some(LevelFilter::Warn)
        } else if name == "info"@ {
            Some(LevelFilter::Info)
        } else if name == "debug"@ {
            Some(LevelFilter::Debug)
        } else if name == "trace"@ {
            Some(LevelFilter::Trace)
        } else {
            None
        }
    }

    /// Reads one of the six lower-case level names; any other text is `None`.
    pub fn from_name(name: &str) -> (r: Option<LevelFilter>)
        ensures
            r == Self::spec_from_name(name@),
    {
        let given = String::from_str(name);
        if given == String::from_str("off") {
            Some(LevelFilter::Off)
        } else if given == String::from_str("error") {
            Some(LevelFilter::Error)
        } else if given == String::from_str("warn") {
            Some(LevelFilter::Warn)
        } else if given == String::from_str("info") {
            Some(LevelFilter::Info)
        } else if given == String::from_str("debug") {
            Some(LevelFilter::Debug)
        } else if given == String::from_str("trace") {
            Some(LevelFilter::Trace)
        } else {
            None
        }
    }
}

} // verus!
