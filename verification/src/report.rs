//! Resolve options, the validation report, and the identity helpers the resolver keys on.
use vstd::prelude::*;
use crate::diag::{any_error, has_errors, Diagnostic};
use crate::dto::Node;
use crate::text::{after_last_in, tail_after_last_in};

verus! {

/// The import mode. Only `Ground` exists: every parameter binding is evaluated to a ground
/// literal.
#[derive(Clone, Copy, PartialEq, Eq, Debug, Default, Structural)]
#[non_exhaustive]
pub enum ImportMode {
    /// Evaluate all parameter bindings to ground literals (the executable mode).
    #[default]
    Ground,
}

/// Options for an import.
#[derive(Clone, Debug, Default)]
#[non_exhaustive]
pub struct ResolveOptions {
    /// Import mode (Ground only).
    pub mode: ImportMode,
    /// If `true`, any `Warning` also fails the load.
    pub deny_warnings: bool,
}

/// The resolver's diagnostics in deterministic order, and the top-composite model `@id`.
#[derive(Clone, Debug, Default)]
pub struct ValidationReport {
    /// The top-composite `@id` that names the CXF model, as authored.
    pub model_iri: Option<String>,
    /// The diagnostics (error-free on the success path).
    pub diagnostics: Vec<Diagnostic>,
}

impl ValidationReport {
    /// Whether the report carries no diagnostics at all.
    pub fn is_empty(&self) -> (b: bool)
        ensures
            b == (self.diagnostics@.len() == 0),
    {
        self.diagnostics.len() == 0
    }

    /// Whether any diagnostic is an error.
    pub fn has_errors(&self) -> (b: bool)
        ensures
            b == any_error(self.diagnostics@),
    {
        has_errors(self.diagnostics.as_slice())
    }
}

/// The local member name of a dotted instance-member `@id`: the segment after the last `.`
/// (`http://example.org#MinLoop.con.k` → `k`).
pub fn local_name(iri: &str) -> (r: &str)
    ensures
        r@ == after_last_in(iri@, seq!['.']),
{
    let dot = ['.'];
    let r = tail_after_last_in(iri, dot.as_slice());
    assert(dot@ =~= seq!['.']);
    r
}

/// The trailing term of a `prefix:Local` / `…#Local` / `…/Local` IRI.
pub fn term_of(iri: &str) -> (r: &str)
    ensures
        r@ == after_last_in(iri@, seq![':', '#', '/']),
{
    let seps = [':', '#', '/'];
    let r = tail_after_last_in(iri, seps.as_slice());
    assert(seps@ =~= seq![':', '#', '/']);
    r
}

/// The first `@type` term of a node, if any.
pub fn first_type(node: &Node) -> (r: Option<&str>)
    ensures
        match r {
            Some(t) => node.types matches Some(ts) && ts.items().len() > 0 && t@ == ts.items()[0]@,
            None => node.types is None || node.types->0.items().len() == 0,
        },
{
    match &node.types {
        Some(ts) => {
            let s = ts.as_slice();
            if s.len() > 0 {
                Some(s[0].as_str())
            } else {
                None
            }
        },
        None => None,
    }
}

} // verus!
