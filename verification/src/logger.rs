//! Level filtering and rich-text rendering of log events.

use vstd::prelude::*;
use vstd::string::*;
use crate::text::{decimal, decimal_string, without_last, without_last_char};

verus! {

/// The severity of an event, from the most severe to the most verbose.
#[derive(Clone, Copy, Debug, PartialEq, Eq, Structural)]
pub enum Level {
    Error,
    Warn,
    Info,
    Debug,
    Trace,
}

/// The most verbose level that a logger lets through; `Off` lets nothing through.
#[derive(Clone, Copy, Debug, PartialEq, Eq, Structural)]
pub enum LevelFilter {
    Off,
    Error,
    Warn,
    Info,
    Debug,
    Trace,
}

impl Level {
    /// How verbose the level is: 1 for `Error` up to 5 for `Trace`.
    pub open spec fn verbosity(self) -> int {
        match self {
            Level::Error => 1,
            Level::Warn => 2,
            Level::Info => 3,
            Level::Debug => 4,
            Level::Trace => 5,
        }
    }

    /// The level's name in capitals.
    pub open spec fn name(self) -> Seq<char> {
        match self {
            Level::Error => "ERROR"@,
            Level::Warn => "WARN"@,
            Level::Info => "INFO"@,
            Level::Debug => "DEBUG"@,
            Level::Trace => "TRACE"@,
        }
    }

    /// The rich-text colour that the level is shown in.
    pub open spec fn color(self) -> Seq<char> {
        match self {
            Level::Error => "red"@,
            Level::Warn => "yellow"@,
            Level::Info => "green"@,
            Level::Debug => "blue"@,
            Level::Trace => "purple"@,
        }
    }

    /// The level's name in capitals.
    pub fn as_str(&self) -> (s: &'static str)
        ensures
            s@ == self.name(),
    {
        match self {
            Level::Error => "ERROR",
            Level::Warn => "WARN",
            Level::Info => "INFO",
            Level::Debug => "DEBUG",
            Level::Trace => "TRACE",
        }
    }

    /// The rich-text colour that the level is shown in.
    pub fn color_name(&self) -> (s: &'static str)
        ensures
            s@ == self.color(),
    {
        match self {
            Level::Error => "red",
            Level::Warn => "yellow",
            Level::Info => "green",
            Level::Debug => "blue",
            Level::Trace => "purple",
        }
    }
}

impl LevelFilter {
    /// The verbosity of the most verbose level let through: 0 for `Off`.
    pub open spec fn verbosity(self) -> int {
        match self {
            LevelFilter::Off => 0,
            LevelFilter::Error => 1,
            LevelFilter::Warn => 2,
            LevelFilter::Info => 3,
            LevelFilter::Debug => 4,
            LevelFilter::Trace => 5,
        }
    }

    /// Whether `level` is at most as verbose as this filter.
    pub open spec fn admits(self, level: Level) -> bool {
        level.verbosity() <= self.verbosity()
    }

    /// Whether `level` is at most as verbose as this filter.
    pub fn allows(&self, level: Level) -> (b: bool)
        ensures
            b == self.admits(level),
    {
        let limit: u8 = match self {
            LevelFilter::Off => 0,
            LevelFilter::Error => 1,
            LevelFilter::Warn => 2,
            LevelFilter::Info => 3,
            LevelFilter::Debug => 4,
            LevelFilter::Trace => 5,
        };
        let rank: u8 = match level {
            Level::Error => 1,
            Level::Warn => 2,
            Level::Info => 3,
            Level::Debug => 4,
            Level::Trace => 5,
        };
        rank <= limit
    }
}

/// What the fields of one event are turned into: the `message` field on its
/// own, and every other field as `name: value,` one after the other.
pub struct LoggerVisitor {
    pub rest: String,
    pub message: String,
}

/// `name: value,` as a non-message field is recorded.
pub open spec fn field_entry(name: Seq<char>, value: Seq<char>) -> Seq<char> {
    name + ": "@ + value + ","@
}

/// The rendered source location: `[code]path[/code]`, or nothing.
pub open spec fn target_text(target: Option<Seq<char>>) -> Seq<char> {
    match target {
        Some(m) => "[code]"@ + m + "[/code]"@,
        None => Seq::empty(),
    }
}

/// The rendered line number: `<[code]line[/code]>`, or nothing.
pub open spec fn line_text(line: Option<u32>) -> Seq<char> {
    match line {
        Some(l) => "<[code]"@ + decimal(l as nat) + "[/code]>"@,
        None => Seq::empty(),
    }
}

/// The coloured level tag: `[color=c]NAME[/color]`.
pub open spec fn level_tag(level: Level) -> Seq<char> {
    "[color="@ + level.color() + "]"@ + level.name() + "[/color]"@
}

/// The full rich-text line of an event:
/// `{target}{line} {tag}: [{rest}]: {message}`, where the trailing
/// separator of the other fields has been dropped.
pub open spec fn event_line(
    level: Level,
    target: Option<Seq<char>>,
    line: Option<u32>,
    rest: Seq<char>,
    message: Seq<char>,
) -> Seq<char> {
    target_text(target) + line_text(line) + " "@ + level_tag(level) + ": ["@ + without_last(
        rest,
    ) + "]: "@ + message
}

impl LoggerVisitor {
    /// A visitor that has recorded nothing yet.
    pub fn new() -> (v: Self)
        ensures
            v.rest@ == Seq::<char>::empty(),
            v.message@ == Seq::<char>::empty(),
    {
        LoggerVisitor { rest: String::new(), message: String::new() }
    }

    /// Records one field of an event, its value already rendered as text:
    /// the `message` field is appended to the message, any other field is
    /// appended to the rest as `name: value,`.
    pub fn record_field(&mut self, name: &str, value: &str)
        ensures
            name@ == "message"@ ==> final(self).message@ == old(self).message@ + value@
                && final(self).rest@ == old(self).rest@,
            name@ != "message"@ ==> final(self).rest@ == old(self).rest@ + field_entry(
                name@,
                value@,
            ) && final(self).message@ == old(self).message@,
    {
        let is_message = String::from_str(name) == String::from_str("message");
        if is_message {
            self.message.append(value);
        } else {
            self.rest.append(name);
            self.rest.append(": ");
            self.rest.append(value);
            self.rest.append(",");
            assert(self.rest@ =~= old(self).rest@ + field_entry(name@, value@));
        }
    }
}

/// A logger that shows the events up to its `max_level`.
pub struct Logger {
    pub max_level: LevelFilter,
}

impl Logger {
    /// Whether an event of `level` is shown.
    pub fn enabled(&self, level: Level) -> (b: bool)
        ensures
            b == self.max_level.admits(level),
    {
        self.max_level.allows(level)
    }

    /// The rich-text line for an event of `level`, with the source location it
    /// comes from and its recorded fields; `None` when the level is filtered out.
    pub fn event(
        &self,
        level: Level,
        target: Option<&str>,
        line: Option<u32>,
        fields: LoggerVisitor,
    ) -> (out: Option<String>)
        ensures
            out is Some <==> self.max_level.admits(level),
            out matches Some(s) ==> s@ == event_line(
                level,
                match target {
                    Some(m) => Some(m@),
                    None => None,
                },
                line,
                fields.rest@,
                fields.message@,
            ),
    {
        if !self.max_level.allows(level) {
            return None;
        }
        let rest = without_last_char(fields.rest.as_str());
        let mut out = String::new();
        match target {
            Some(m) => {
                out.append("[code]");
                out.append(m);
                out.append("[/code]");
            },
            None => {},
        }
        match line {
            Some(l) => {
                let digits = decimal_string(l);
                out.append("<[code]");
                out.append(digits.as_str());
                out.append("[/code]>");
            },
            None => {},
        }
        out.append(" ");
        out.append("[color=");
        out.append(level.color_name());
        out.append("]");
        out.append(level.as_str());
        out.append("[/color]");
        out.append(": [");
        out.append(rest.as_str());
        out.append("]: ");
        out.append(fields.message.as_str());
        let ghost mp = match target {
            Some(m) => Some(m@),
            None => None,
        };
        assert(out@ =~= event_line(level, mp, line, fields.rest@, fields.message@));
        Some(out)
    }
}

/// The filter is monotone: whatever a filter shows, it shows every less
/// verbose level too.
pub proof fn law_filter_is_monotone(filter: LevelFilter, shown: Level, quieter: Level)
    requires
        filter.admits(shown),
        quieter.verbosity() <= shown.verbosity(),
    ensures
        filter.admits(quieter),
{
}

/// `Off` shows nothing, and `Trace` shows everything.
pub proof fn law_filter_extremes(level: Level)
    ensures
        !LevelFilter::Off.admits(level),
        LevelFilter::Trace.admits(level),
{
}

/// Each filter shows exactly the levels up to its own: `Error` shows only
/// errors, `Warn` adds warnings, and so on.
pub proof fn law_filter_matches_its_level(level: Level)
    ensures
        LevelFilter::Error.admits(level) <==> level == Level::Error,
        LevelFilter::Warn.admits(level) <==> (level == Level::Error || level == Level::Warn),
        LevelFilter::Info.admits(level) <==> !(level == Level::Debug || level == Level::Trace),
        LevelFilter::Debug.admits(level) <==> level != Level::Trace,
{
}

/// A source location is shown before everything else, as `[code]path[/code]`,
/// whatever the line number is.
pub proof fn law_event_line_starts_with_target(
    level: Level,
    target: Seq<char>,
    line: Option<u32>,
    rest: Seq<char>,
    message: Seq<char>,
)
    ensures
        event_line(level, Some(target), line, rest, message) == "[code]"@ + target + "[/code]"@
            + event_line(level, None, line, rest, message),
{
    assert(event_line(level, Some(target), line, rest, message) =~= "[code]"@ + target + "[/code]"@
        + event_line(level, None, line, rest, message));
}

/// A line number is shown whether or not there is a source location, as
/// `<[code]n[/code]>` with `n` in decimal, right before the level tag.
pub proof fn law_event_line_shows_line_number(
    level: Level,
    target: Option<Seq<char>>,
    line: u32,
    rest: Seq<char>,
    message: Seq<char>,
)
    ensures
        event_line(level, None, Some(line), rest, message) == "<[code]"@ + decimal(line as nat)
            + "[/code]>"@ + event_line(level, None, None, rest, message),
        event_line(level, target, Some(line), rest, message).len() == event_line(
            level,
            target,
            None,
            rest,
            message,
        ).len() + "<[code]"@.len() + decimal(line as nat).len() + "[/code]>"@.len(),
{
    assert(event_line(level, None, Some(line), rest, message) =~= "<[code]"@ + decimal(line as nat)
        + "[/code]>"@ + event_line(level, None, None, rest, message));
}

/// Without location and line number, the line is the coloured level name,
/// the other fields without their last separator in brackets, and the
/// message; the message always comes last, unchanged.
pub proof fn law_event_line_body(
    level: Level,
    target: Option<Seq<char>>,
    line: Option<u32>,
    rest: Seq<char>,
    message: Seq<char>,
)
    ensures
        event_line(level, None, None, rest, message) == " "@ + "[color="@ + level.color() + "]"@
            + level.name() + "[/color]"@ + ": ["@ + without_last(rest) + "]: "@ + message,
        event_line(level, target, line, rest, message) == event_line(
            level,
            target,
            line,
            rest,
            Seq::empty(),
        ) + message,
{
    assert(event_line(level, None, None, rest, message) =~= " "@ + "[color="@ + level.color() + "]"@
        + level.name() + "[/color]"@ + ": ["@ + without_last(rest) + "]: "@ + message);
    assert(event_line(level, target, line, rest, message) =~= event_line(
        level,
        target,
        line,
        rest,
        Seq::empty(),
    ) + message);
}

} // verus!
