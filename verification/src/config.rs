//! Configuration of the embedding application, and the execution-mode
//! policy that decides whether an error ends a run.

use vstd::prelude::*;

verus! {

/// Which banner an interactive session prints on startup.
#[derive(Debug, Clone, Copy, PartialEq, Eq, Structural)]
pub enum IntroBanner {
    Long,
    Short,
    Off,
}

/// Whether every input expression is echoed back pretty-printed.
#[derive(Debug, Clone, Copy, PartialEq, Eq, Structural)]
pub enum PrettyPrintMode {
    Always,
    Never,
    Auto,
}

/// When exchange rates are fetched.
#[derive(Debug, Clone, Copy, PartialEq, Eq, Structural)]
pub enum ExchangeRateFetchingPolicy {
    /// Always fetch exchange rates in the background when the application
    /// is started.
    OnStartup,
    /// Fetch exchange rates when a currency symbol is used.
    OnFirstUse,
    /// Never fetch exchange rates.
    Never,
}

/// Exchange-rate behaviour.
#[derive(Debug, Clone, Copy, PartialEq, Eq, Structural)]
pub struct ExchangeRateConfig {
    pub fetching_policy: ExchangeRateFetchingPolicy,
}

impl Default for ExchangeRateConfig {
    fn default() -> (r: Self)
        ensures
            r.fetching_policy == ExchangeRateFetchingPolicy::OnStartup,
    {
        ExchangeRateConfig { fetching_policy: ExchangeRateFetchingPolicy::OnStartup }
    }
}

/// The application configuration.
#[derive(Debug, Clone, PartialEq)]
pub struct Config {
    pub intro_banner: IntroBanner,
    pub prompt: String,
    pub pretty_print: PrettyPrintMode,
    pub enter_repl: bool,
    pub load_prelude: bool,
    pub load_user_init: bool,
    pub exchange_rates: ExchangeRateConfig,
}

impl Default for Config {
    fn default() -> (r: Self)
        ensures
            r.prompt@ == ">>> "@,
            r.intro_banner == IntroBanner::Long,
            r.pretty_print == PrettyPrintMode::Auto,
            r.load_prelude,
            r.load_user_init,
            r.enter_repl,
            r.exchange_rates.fetching_policy == ExchangeRateFetchingPolicy::OnStartup,
    {
        Config {
            prompt: ">>> ".to_owned(),
            intro_banner: IntroBanner::Long,
            pretty_print: PrettyPrintMode::Auto,
            load_prelude: true,
            load_user_init: true,
            exchange_rates: ExchangeRateConfig {
                fetching_policy: ExchangeRateFetchingPolicy::OnStartup,
            },
            enter_repl: true,
        }
    }
}

/// How a run ended.
#[derive(Debug, Clone, Copy, PartialEq, Eq, Structural)]
pub enum ExitStatus {
    Success,
    Error,
}

/// What the embedding loop should do next.
#[derive(Debug, Clone, Copy, PartialEq, Eq, Structural)]
pub enum RunControl {
    Continue,
    Break(ExitStatus),
}

/// Whether a run is a batch execution or an interactive session.
#[derive(Debug, Clone, Copy, PartialEq, Eq, Structural)]
pub enum ExecutionMode {
    Normal,
    Interactive,
}

impl ExecutionMode {
    /// The continuation policy on an error: a batch run stops with an error
    /// status; an interactive session carries on.
    pub fn exit_status_in_case_of_error(&self) -> (r: RunControl)
        ensures
            *self == ExecutionMode::Normal ==> r == RunControl::Break(ExitStatus::Error),
            *self == ExecutionMode::Interactive ==> r == RunControl::Continue,
    {
        if matches!(self, ExecutionMode::Normal) {
            RunControl::Break(ExitStatus::Error)
        } else {
            RunControl::Continue
        }
    }
}

} // verus!
