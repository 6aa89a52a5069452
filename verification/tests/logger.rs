use emillaris::text::decimal_string;
use emillaris::{Level, LevelFilter, Logger, LoggerVisitor};

const LEVELS: [Level; 5] = [Level::Error, Level::Warn, Level::Info, Level::Debug, Level::Trace];

fn visitor(fields: &[(&str, &str)]) -> LoggerVisitor {
    let mut v = LoggerVisitor::new();
    for (name, value) in fields {
        v.record_field(name, value);
    }
    v
}

#[test]
fn enabled_respects_max_level() {
    let logger = Logger { max_level: LevelFilter::Info };
    assert!(logger.enabled(Level::Error));
    assert!(logger.enabled(Level::Warn));
    assert!(logger.enabled(Level::Info));
    assert!(!logger.enabled(Level::Debug));
    assert!(!logger.enabled(Level::Trace));
}

#[test]
fn filter_off_shows_nothing_and_trace_everything() {
    for level in LEVELS {
        assert!(!Logger { max_level: LevelFilter::Off }.enabled(level));
        assert!(Logger { max_level: LevelFilter::Trace }.enabled(level));
    }
}

#[test]
fn filter_is_monotone() {
    let filters = [
        LevelFilter::Off,
        LevelFilter::Error,
        LevelFilter::Warn,
        LevelFilter::Info,
        LevelFilter::Debug,
        LevelFilter::Trace,
    ];
    for filter in filters {
        for (i, shown) in LEVELS.iter().enumerate() {
            if filter.allows(*shown) {
                for quieter in &LEVELS[..i] {
                    assert!(filter.allows(*quieter));
                }
            }
        }
    }
}

#[test]
fn debug_filter_hides_only_trace() {
    let logger = Logger { max_level: LevelFilter::Debug };
    assert!(logger.enabled(Level::Debug));
    assert!(!logger.enabled(Level::Trace));
}

#[test]
fn message_field_is_kept_apart() {
    let v = visitor(&[("message", "hello"), ("name", "\"Hiccu\""), ("id", "3")]);
    assert_eq!(v.message, "hello");
    assert_eq!(v.rest, "name: \"Hiccu\",id: 3,");
}

#[test]
fn repeated_message_fields_are_appended() {
    let v = visitor(&[("message", "a"), ("message", "b")]);
    assert_eq!(v.message, "ab");
    assert_eq!(v.rest, "");
}

#[test]
fn event_renders_full_line() {
    let logger = Logger { max_level: LevelFilter::Debug };
    let line = logger.event(Level::Warn, Some("m"), Some(42), visitor(&[("a", "1"), ("message", "hi")]));
    assert_eq!(
        line.as_deref(),
        Some("[code]m[/code]<[code]42[/code]> [color=yellow]WARN[/color]: [a: 1]: hi")
    );
}

#[test]
fn event_without_location_or_fields() {
    let logger = Logger { max_level: LevelFilter::Error };
    let line = logger.event(Level::Error, None, None, visitor(&[("message", "boom")]));
    assert_eq!(line.as_deref(), Some(" [color=red]ERROR[/color]: []: boom"));
}

#[test]
fn event_drops_only_the_last_separator() {
    let logger = Logger { max_level: LevelFilter::Trace };
    let line = logger.event(
        Level::Trace,
        Some("emillaris::websocket::server"),
        Some(7),
        visitor(&[("id", "1"), ("name", "x"), ("message", "connection pending")]),
    );
    assert_eq!(
        line.as_deref(),
        Some(
            "[code]emillaris::websocket::server[/code]<[code]7[/code]> \
             [color=purple]TRACE[/color]: [id: 1,name: x]: connection pending"
        )
    );
}

#[test]
fn filtered_event_renders_nothing() {
    let logger = Logger { max_level: LevelFilter::Info };
    assert_eq!(logger.event(Level::Debug, Some("m"), Some(1), visitor(&[("message", "x")])), None);
    let off = Logger { max_level: LevelFilter::Off };
    assert_eq!(off.event(Level::Error, None, None, visitor(&[])), None);
}

#[test]
fn level_names_and_colours() {
    let expected = [
        (Level::Error, "ERROR", "red"),
        (Level::Warn, "WARN", "yellow"),
        (Level::Info, "INFO", "green"),
        (Level::Debug, "DEBUG", "blue"),
        (Level::Trace, "TRACE", "purple"),
    ];
    for (level, name, colour) in expected {
        assert_eq!(level.as_str(), name);
        assert_eq!(level.color_name(), colour);
        let line = Logger { max_level: LevelFilter::Trace }.event(level, None, None, visitor(&[]));
        assert_eq!(line, Some(format!(" [color={}]{}[/color]: []: ", colour, name)));
    }
}

#[test]
fn decimal_rendering() {
    assert_eq!(decimal_string(0), "0");
    assert_eq!(decimal_string(7), "7");
    assert_eq!(decimal_string(10), "10");
    assert_eq!(decimal_string(1234), "1234");
    assert_eq!(decimal_string(u32::MAX), u32::MAX.to_string());
}

#[test]
fn last_separator_is_dropped_from_multibyte_fields() {
    let logger = Logger { max_level: LevelFilter::Info };
    let line = logger.event(Level::Info, None, None, visitor(&[("nom", "\"é\""), ("message", "ok")]));
    assert_eq!(line.as_deref(), Some(" [color=green]INFO[/color]: [nom: \"é\"]: ok"));
}
