use reload_filter::filter::{same_bytes, starts_with, Directive, FilterSpec};
use reload_filter::level::{Level, LevelFilter};

fn levels() -> [Level; 5] {
    [Level::Error, Level::Warn, Level::Info, Level::Debug, Level::Trace]
}

fn target(text: &str) -> Option<String> {
    Some(text.to_string())
}

#[test]
fn level_ranks_run_from_one_to_five() {
    assert_eq!(Level::Error.rank(), 1);
    assert_eq!(Level::Warn.rank(), 2);
    assert_eq!(Level::Info.rank(), 3);
    assert_eq!(Level::Debug.rank(), 4);
    assert_eq!(Level::Trace.rank(), 5);
}

#[test]
fn threshold_ranks_run_from_zero_to_five() {
    assert_eq!(LevelFilter::Off.rank(), 0);
    assert_eq!(LevelFilter::Error.rank(), 1);
    assert_eq!(LevelFilter::Warn.rank(), 2);
    assert_eq!(LevelFilter::Info.rank(), 3);
    assert_eq!(LevelFilter::Debug.rank(), 4);
    assert_eq!(LevelFilter::Trace.rank(), 5);
}

#[test]
fn threshold_permits_its_level_and_the_more_urgent() {
    assert!(LevelFilter::Warn.permits(Level::Error));
    assert!(LevelFilter::Warn.permits(Level::Warn));
    assert!(!LevelFilter::Warn.permits(Level::Info));
    assert!(!LevelFilter::Warn.permits(Level::Debug));
    assert!(!LevelFilter::Warn.permits(Level::Trace));
}

#[test]
fn off_permits_nothing_and_trace_everything() {
    for level in levels() {
        assert!(!LevelFilter::Off.permits(level));
        assert!(LevelFilter::Trace.permits(level));
    }
}

#[test]
fn from_level_gives_the_threshold_of_the_same_rank() {
    for level in levels() {
        assert_eq!(LevelFilter::from_level(level).rank(), level.rank());
    }
    assert_eq!(LevelFilter::from_level(Level::Info), LevelFilter::Info);
}

#[test]
fn from_name_reads_the_six_lower_case_names() {
    assert_eq!(LevelFilter::from_name("off"), Some(LevelFilter::Off));
    assert_eq!(LevelFilter::from_name("error"), Some(LevelFilter::Error));
    assert_eq!(LevelFilter::from_name("warn"), Some(LevelFilter::Warn));
    assert_eq!(LevelFilter::from_name("info"), Some(LevelFilter::Info));
    assert_eq!(LevelFilter::from_name("debug"), Some(LevelFilter::Debug));
    assert_eq!(LevelFilter::from_name("trace"), Some(LevelFilter::Trace));
}

#[test]
fn from_name_rejects_other_text() {
    assert_eq!(LevelFilter::from_name(""), None);
    assert_eq!(LevelFilter::from_name("WARN"), None);
    assert_eq!(LevelFilter::from_name("warning"), None);
    assert_eq!(LevelFilter::from_name("3"), None);
}

#[test]
fn starts_with_compares_bytes() {
    assert!(starts_with(b"mycrate::module", b"mycrate"));
    assert!(starts_with(b"mycrate", b"mycrate"));
    assert!(starts_with(b"mycrate", b""));
    assert!(!starts_with(b"mycrate", b"mycrate::module"));
    assert!(!starts_with(b"mycrate", b"other"));
    assert!(!starts_with(b"", b"a"));
}

#[test]
fn same_bytes_compares_whole_strings() {
    assert!(same_bytes(b"abc", b"abc"));
    assert!(same_bytes(b"", b""));
    assert!(!same_bytes(b"abc", b"abd"));
    assert!(!same_bytes(b"abc", b"ab"));
}

#[test]
fn directive_without_target_applies_everywhere() {
    let d = Directive { target: None, level: LevelFilter::Info };
    assert!(d.matches(b"anything"));
    assert!(d.matches(b""));
}

#[test]
fn directive_applies_to_targets_that_begin_with_its_prefix() {
    let d = Directive { target: target("app::db"), level: LevelFilter::Info };
    assert!(d.matches(b"app::db"));
    assert!(d.matches(b"app::db::pool"));
    assert!(!d.matches(b"app"));
    assert!(!d.matches(b"app::net"));
}

#[test]
fn directive_specificity_orders_by_prefix_length() {
    let none = Directive { target: None, level: LevelFilter::Info };
    let empty = Directive { target: target(""), level: LevelFilter::Info };
    let short = Directive { target: target("app"), level: LevelFilter::Info };
    let long = Directive { target: target("app::db"), level: LevelFilter::Info };
    assert!(empty.more_specific_than(&none));
    assert!(short.more_specific_than(&empty));
    assert!(long.more_specific_than(&short));
    assert!(!short.more_specific_than(&long));
    assert!(!none.more_specific_than(&none));
    assert!(!short.more_specific_than(&Directive { target: target("xyz"), level: LevelFilter::Off }));
}

#[test]
fn directive_names_compares_targets_exactly() {
    let d = Directive { target: target("app"), level: LevelFilter::Info };
    assert!(d.names(&target("app")));
    assert!(!d.names(&target("app::db")));
    assert!(!d.names(&None));
    let n = Directive { target: None, level: LevelFilter::Info };
    assert!(n.names(&None));
    assert!(!n.names(&target("")));
}

#[test]
fn new_filter_has_only_its_default() {
    let spec = FilterSpec::new(LevelFilter::Warn);
    assert_eq!(spec.len(), 0);
    assert_eq!(spec.default_level(), LevelFilter::Warn);
    assert_eq!(spec.threshold_for("anything"), LevelFilter::Warn);
}

#[test]
fn default_threshold_decides_where_no_directive_applies() {
    let spec = FilterSpec::new(LevelFilter::Warn).with_directive(target("app::db"), LevelFilter::Trace);
    assert_eq!(spec.threshold_for("other"), LevelFilter::Warn);
    assert!(spec.evaluate("other", Level::Error));
    assert!(spec.evaluate("other", Level::Warn));
    assert!(!spec.evaluate("other", Level::Info));
}

#[test]
fn longest_matching_prefix_decides() {
    let spec = FilterSpec::new(LevelFilter::Off)
        .with_directive(target("app"), LevelFilter::Info)
        .with_directive(target("app::db"), LevelFilter::Trace)
        .with_directive(target("app::db::pool"), LevelFilter::Error);
    assert_eq!(spec.threshold_for("app"), LevelFilter::Info);
    assert_eq!(spec.threshold_for("app::net"), LevelFilter::Info);
    assert_eq!(spec.threshold_for("app::db"), LevelFilter::Trace);
    assert_eq!(spec.threshold_for("app::db::query"), LevelFilter::Trace);
    assert_eq!(spec.threshold_for("app::db::pool::conn"), LevelFilter::Error);
    assert_eq!(spec.threshold_for("lib"), LevelFilter::Off);
}

#[test]
fn longest_prefix_decides_whatever_the_order() {
    let spec = FilterSpec::new(LevelFilter::Off)
        .with_directive(target("app::db"), LevelFilter::Trace)
        .with_directive(target("app"), LevelFilter::Info);
    assert_eq!(spec.threshold_for("app::db::query"), LevelFilter::Trace);
    assert_eq!(spec.threshold_for("app::net"), LevelFilter::Info);
}

#[test]
fn directive_without_target_overrides_the_default() {
    let spec = FilterSpec::new(LevelFilter::Off)
        .with_directive(None, LevelFilter::Warn)
        .with_directive(target("mycrate::module"), LevelFilter::Trace);
    assert_eq!(spec.threshold_for("elsewhere"), LevelFilter::Warn);
    assert_eq!(spec.threshold_for("mycrate::module::x"), LevelFilter::Trace);
}

#[test]
fn a_more_specific_directive_can_switch_a_target_off() {
    let spec = FilterSpec::new(LevelFilter::Trace).with_directive(target("noisy"), LevelFilter::Off);
    assert!(spec.evaluate("quiet", Level::Trace));
    for level in levels() {
        assert!(!spec.evaluate("noisy::inner", level));
    }
}

#[test]
fn with_directive_replaces_a_directive_of_the_same_target() {
    let spec = FilterSpec::new(LevelFilter::Off)
        .with_directive(target("app"), LevelFilter::Info)
        .with_directive(target("lib"), LevelFilter::Warn)
        .with_directive(target("app"), LevelFilter::Debug);
    assert_eq!(spec.len(), 2);
    assert_eq!(spec.threshold_for("app::x"), LevelFilter::Debug);
    assert_eq!(spec.threshold_for("lib"), LevelFilter::Warn);
}

#[test]
fn with_directive_appends_a_new_target() {
    let spec = FilterSpec::new(LevelFilter::Off)
        .with_directive(target("app"), LevelFilter::Info)
        .with_directive(None, LevelFilter::Error)
        .with_directive(target(""), LevelFilter::Warn);
    assert_eq!(spec.len(), 3);
    assert_eq!(spec.threshold_for("zzz"), LevelFilter::Warn);
}

#[test]
fn evaluate_is_threshold_permits() {
    let spec = FilterSpec::new(LevelFilter::Info).with_directive(target("app"), LevelFilter::Debug);
    for level in levels() {
        assert_eq!(spec.evaluate("app", level), spec.threshold_for("app").permits(level));
        assert_eq!(spec.evaluate("x", level), LevelFilter::Info.permits(level));
    }
}

#[test]
fn prefixes_are_compared_as_utf8_bytes() {
    let spec = FilterSpec::new(LevelFilter::Off).with_directive(target("caf\u{e9}"), LevelFilter::Info);
    assert!(spec.evaluate("caf\u{e9}::bar", Level::Info));
    assert!(!spec.evaluate("cafe::bar", Level::Info));
}
