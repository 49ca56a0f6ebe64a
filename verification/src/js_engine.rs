//! The choice of the script engine.

use crate::text::text_eq;
use vstd::prelude::*;

verus! {

/// A script engine.
#[derive(Clone, Copy, Debug, PartialEq, Eq, Structural)]
pub enum EngineKind {
    V8,
}

impl EngineKind {
    /// The engine to use, given the value of `AURORA_JS_ENGINE`, and whether
    /// that value asks for one that is not supported. Everything falls back to
    /// V8.
    pub fn from_env(value: Option<&str>) -> (res: (EngineKind, bool))
        ensures
            res.0 == EngineKind::V8,
            res.1 == (value matches Some(v) && v@ != "v8"@),
    {
        match value {
            Some(v) => (EngineKind::V8, !text_eq(v, "v8")),
            None => (EngineKind::default_compiled(), false),
        }
    }

    /// The engine to use when none is asked for.
    pub fn default_compiled() -> (res: EngineKind)
        ensures
            res == EngineKind::V8,
    {
        EngineKind::V8
    }
}

} // verus!
