//! Diagnostics rendering, configuration defaults, and the execution-mode
//! continuation policy.

use numbat::config::{
    Config, ExchangeRateFetchingPolicy, ExecutionMode, ExitStatus, IntroBanner, PrettyPrintMode,
    RunControl,
};
use numbat::report::{extract_line, format_diagnostic};
use numbat::span::{SourceCodePositition, Span};

#[test]
fn extract_line_returns_the_requested_line() {
    let src = "first\nsecond line\nthird";
    assert_eq!(extract_line(src, 1), "first");
    assert_eq!(extract_line(src, 2), "second line");
    assert_eq!(extract_line(src, 3), "third");
    assert_eq!(extract_line(src, 4), "");
}

#[test]
fn format_diagnostic_renders_line_caret_and_message() {
    let src = "1 + x\nsecond";
    let span = Span {
        start: SourceCodePositition { byte: 4, line: 1, position: 5 },
        end: SourceCodePositition { byte: 5, line: 1, position: 6 },
        code_source_id: 0,
    };
    let rendered = format_diagnostic(src, span, "unknown identifier");
    assert_eq!(rendered, "    1 + x\n        ^\nunknown identifier");
}

#[test]
fn config_default_matches_the_documented_values() {
    let c = Config::default();
    assert_eq!(c.prompt, ">>> ");
    assert_eq!(c.intro_banner, IntroBanner::Long);
    assert_eq!(c.pretty_print, PrettyPrintMode::Auto);
    assert!(c.load_prelude);
    assert!(c.load_user_init);
    assert!(c.enter_repl);
    assert_eq!(
        c.exchange_rates.fetching_policy,
        ExchangeRateFetchingPolicy::OnStartup
    );
}

#[test]
fn batch_runs_stop_on_error_interactive_sessions_continue() {
    assert_eq!(
        ExecutionMode::Normal.exit_status_in_case_of_error(),
        RunControl::Break(ExitStatus::Error)
    );
    assert_eq!(
        ExecutionMode::Interactive.exit_status_in_case_of_error(),
        RunControl::Continue
    );
}
