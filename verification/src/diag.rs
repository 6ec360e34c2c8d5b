//! Diagnostics the resolvers hand back instead of printing: recoverable
//! warnings, and the one fatal error the core itself can raise.

use vstd::prelude::*;

verus! {

/// A recoverable gap met while resolving an operation's security
/// requirements. The conversion proceeds without authentication.
#[derive(Debug, Clone, PartialEq, Eq)]
pub enum Warning {
    /// A requirement referenced this scheme name, but the document's scheme
    /// table does not declare it.
    SecurityLookup(String),
    /// No requirement named any scheme at all.
    NoSecurityMatch,
}

/// An endpoint path reduced to zero usable segments, so no file name can be
/// derived for it. Fatal for the run.
#[derive(Debug, Clone, PartialEq, Eq)]
pub struct PathResolutionError {
    /// The raw endpoint path that could not be resolved.
    pub path: String,
}

/// A warning by the characters of its payload: the form contracts compare.
pub enum WarningView {
    SecurityLookup(Seq<char>),
    NoSecurityMatch,
}

/// The view of one warning.
pub open spec fn warning_view(w: Warning) -> WarningView {
    match w {
        Warning::SecurityLookup(n) => WarningView::SecurityLookup(n@),
        Warning::NoSecurityMatch => WarningView::NoSecurityMatch,
    }
}

/// The views of a warning list.
pub open spec fn warning_views(ws: Seq<Warning>) -> Seq<WarningView> {
    ws.map_values(|w: Warning| warning_view(w))
}

} // verus!
