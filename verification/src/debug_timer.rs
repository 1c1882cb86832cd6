//! Durations of scopes, in the log of a server that is asked for them.

use vstd::prelude::*;

use crate::text::{copy_str, decimal, str_eq, to_decimal};

verus! {

/// The variable that switches the durations on.
pub const TIMING_ENV: &'static str = "MIMIR_DEBUG_TIMING";

/// Whether durations are logged, when [`TIMING_ENV`] has this value: it is `1`.
pub open spec fn switched_on(value: Option<&str>) -> bool {
    value matches Some(v) && v@ == "1"@
}

/// Whether durations are logged, when [`TIMING_ENV`] has this value.
pub fn enabled(value: Option<&str>) -> (r: bool)
    ensures
        r == switched_on(value),
{
    match value {
        Some(v) => str_eq(v, "1"),
        None => false,
    }
}

/// A scope whose duration is logged when it ends.
#[derive(Debug, Clone, Copy)]
pub struct ScopeTimer {
    /// The name of the scope.
    pub name: &'static str,
    /// Whether durations are logged.
    pub on: bool,
}

/// What is logged of a scope that took `ms` milliseconds.
pub open spec fn duration_line(name: Seq<char>, ms: u64) -> Seq<char> {
    "debug_timer scope="@ + name + " ms="@ + decimal(ms as nat)
}

impl ScopeTimer {
    /// The scope `name`.
    #[must_use]
    pub fn new(name: &'static str, on: bool) -> (r: Self)
        ensures
            r.name == name,
            r.on == on,
    {
        ScopeTimer { name, on }
    }

    /// What is logged when the scope ends after `ms` milliseconds, if durations
    /// are logged.
    pub fn line(&self, ms: u64) -> (r: Option<String>)
        ensures
            match r {
                Some(l) => self.on && l@ == duration_line(self.name@, ms),
                None => !self.on,
            },
    {
        if !self.on {
            return None;
        }
        let mut out = copy_str("debug_timer scope=");
        out.push_str(self.name);
        out.push_str(" ms=");
        out.push_str(to_decimal(ms).as_str());
        Some(out)
    }
}

} // verus!
