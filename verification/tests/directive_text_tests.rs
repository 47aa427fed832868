use reload_filter::directive_text::DirectiveError;
use reload_filter::filter::FilterSpec;
use reload_filter::level::{Level, LevelFilter};
use tracing_subscriber::filter::Targets;

fn levels() -> [Level; 5] {
    [Level::Error, Level::Warn, Level::Info, Level::Debug, Level::Trace]
}

fn outside_level(level: Level) -> tracing_core::Level {
    match level {
        Level::Error => tracing_core::Level::ERROR,
        Level::Warn => tracing_core::Level::WARN,
        Level::Info => tracing_core::Level::INFO,
        Level::Debug => tracing_core::Level::DEBUG,
        Level::Trace => tracing_core::Level::TRACE,
    }
}

fn pair(target: Option<&str>, level: &str) -> (Option<String>, String) {
    (target.map(|t| t.to_string()), level.to_string())
}

#[test]
fn parse_bare_level_sets_the_threshold_everywhere() {
    let spec = FilterSpec::parse("warn").unwrap();
    assert_eq!(spec.len(), 1);
    assert_eq!(spec.default_level(), LevelFilter::Off);
    assert_eq!(spec.threshold_for("anything"), LevelFilter::Warn);
    assert!(spec.evaluate("anything", Level::Warn));
    assert!(!spec.evaluate("anything", Level::Info));
}

#[test]
fn parse_trace_enables_every_level() {
    let spec = FilterSpec::parse("trace").unwrap();
    for level in levels() {
        assert!(spec.evaluate("min_repr", level));
    }
}

#[test]
fn parse_target_and_default() {
    let spec = FilterSpec::parse("mycrate::module=trace,warn").unwrap();
    assert_eq!(spec.len(), 2);
    assert_eq!(spec.threshold_for("mycrate::module"), LevelFilter::Trace);
    assert_eq!(spec.threshold_for("mycrate::module::inner"), LevelFilter::Trace);
    assert_eq!(spec.threshold_for("mycrate"), LevelFilter::Warn);
    assert_eq!(spec.threshold_for("other"), LevelFilter::Warn);
}

#[test]
fn parse_without_default_leaves_other_targets_off() {
    let spec = FilterSpec::parse("app=info").unwrap();
    assert_eq!(spec.len(), 1);
    assert_eq!(spec.threshold_for("app::x"), LevelFilter::Info);
    assert_eq!(spec.threshold_for("lib"), LevelFilter::Off);
}

#[test]
fn parse_bare_target_means_trace() {
    let spec = FilterSpec::parse("app").unwrap();
    assert_eq!(spec.threshold_for("app"), LevelFilter::Trace);
    assert_eq!(spec.threshold_for("lib"), LevelFilter::Off);
}

#[test]
fn parse_later_directive_of_a_target_wins() {
    let spec = FilterSpec::parse("app=info,app=debug").unwrap();
    assert_eq!(spec.len(), 1);
    assert_eq!(spec.threshold_for("app"), LevelFilter::Debug);
}

#[test]
fn parse_reads_levels_in_any_case_and_by_number() {
    let spec = FilterSpec::parse("a=INFO,b=5,OFF").unwrap();
    assert_eq!(spec.threshold_for("a"), LevelFilter::Info);
    assert_eq!(spec.threshold_for("b"), LevelFilter::Trace);
    assert_eq!(spec.threshold_for("c"), LevelFilter::Off);
}

#[test]
fn parse_rejects_two_equal_signs() {
    assert_eq!(FilterSpec::parse("a=b=c").err(), Some(DirectiveError::Malformed));
}

#[test]
fn parse_rejects_an_unknown_level() {
    assert_eq!(FilterSpec::parse("app=loud").err(), Some(DirectiveError::Malformed));
    assert_eq!(FilterSpec::parse("app=info,lib=7").err(), Some(DirectiveError::Malformed));
}

#[test]
fn parse_agrees_with_the_parsed_filter_on_every_level() {
    let texts = [
        "warn",
        "trace",
        "off",
        "",
        "app=info",
        "app=info,app::db=trace,lib=error,warn",
        "app::db::pool=off,app::db=debug,app=warn,info",
        "mycrate::module=trace,warn",
    ];
    let targets = ["app", "app::db", "app::db::pool", "app::dbx", "lib", "mycrate::module::f", ""];
    for text in texts {
        let spec = FilterSpec::parse(text).unwrap();
        let outside: Targets = text.parse().unwrap();
        for target in targets {
            for level in levels() {
                assert_eq!(
                    spec.evaluate(target, level),
                    outside.would_enable(target, &outside_level(level)),
                );
            }
        }
    }
}

#[test]
fn from_pairs_builds_the_directives_in_order() {
    let pairs = vec![pair(None, "warn"), pair(Some("app"), "debug"), pair(Some("app::db"), "off")];
    let spec = FilterSpec::from_pairs(&pairs).unwrap();
    assert_eq!(spec.len(), 3);
    assert_eq!(spec.default_level(), LevelFilter::Off);
    assert_eq!(spec.threshold_for("lib"), LevelFilter::Warn);
    assert_eq!(spec.threshold_for("app::net"), LevelFilter::Debug);
    assert_eq!(spec.threshold_for("app::db::x"), LevelFilter::Off);
}

#[test]
fn from_pairs_of_nothing_is_all_off() {
    let spec = FilterSpec::from_pairs(&Vec::new()).unwrap();
    assert_eq!(spec.len(), 0);
    assert_eq!(spec.default_level(), LevelFilter::Off);
    assert!(!spec.evaluate("app", Level::Error));
}

#[test]
fn from_pairs_replaces_a_repeated_target() {
    let pairs = vec![pair(Some("app"), "info"), pair(Some("app"), "trace")];
    let spec = FilterSpec::from_pairs(&pairs).unwrap();
    assert_eq!(spec.len(), 1);
    assert_eq!(spec.threshold_for("app"), LevelFilter::Trace);
}

#[test]
fn from_pairs_rejects_an_unknown_level_name() {
    let pairs = vec![pair(Some("app"), "info"), pair(Some("lib"), "INFO")];
    assert!(FilterSpec::from_pairs(&pairs).is_none());
    let pairs = vec![pair(None, "loud"), pair(Some("lib"), "info")];
    assert!(FilterSpec::from_pairs(&pairs).is_none());
}
