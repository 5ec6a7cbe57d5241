//! The IRI → canonical class-path bridge.
//!
//! A CXF instance node's `@type` is a full class IRI, e.g.
//! `http://example.org#Buildings.Controls.OBC.CDL.Reals.Add`. The native block registry is keyed on
//! the **canonical class path** `CDL.Reals.Add`. This module is the single, pure, total mapping:
//!
//! 1. take the fragment after the last `#` (or the whole string if there is no `#`);
//! 2. if it begins with the OBC namespace prefix `Buildings.Controls.OBC.`, strip that prefix;
//! 3. the remainder is the candidate class path.
//!
//! It does not itself decide validity: the caller checks the registry. It never panics.
use vstd::prelude::*;
use crate::text::{after_last, chars_of, lemma_rfind, rfind_char, seq_starts_with, starts_with, tail};

verus! {

/// The OBC namespace prefix stripped from a class IRI fragment to obtain the canonical class path.
pub const OBC_PREFIX: &'static str = "Buildings.Controls.OBC.";

/// The fragment of a class IRI: everything after its last `#`.
pub open spec fn fragment_of(iri: Seq<char>) -> Seq<char> {
    after_last(iri, '#')
}

/// The candidate class path a class IRI names.
pub open spec fn class_path_spec(iri: Seq<char>, prefix: Seq<char>) -> Seq<char> {
    let fragment = fragment_of(iri);
    if seq_starts_with(fragment, prefix) {
        fragment.subrange(prefix.len() as int, fragment.len() as int)
    } else {
        fragment
    }
}

/// Map a CXF `@type` class IRI to its candidate canonical class path (the registry key).
///
/// Pure and total; returns a borrowed slice of `type_iri`.
pub fn class_path_of(type_iri: &str) -> (r: &str)
    ensures
        r@ == class_path_spec(type_iri@, OBC_PREFIX@),
{
    let chars = chars_of(type_iri);
    proof {
        lemma_rfind(chars@, '#');
    }
    let start = match rfind_char(chars.as_slice(), '#') {
        Some(i) => i + 1,
        None => 0,
    };
    let fragment = tail(type_iri, start);
    let fragment_chars = chars_of(fragment);
    let prefix = chars_of(OBC_PREFIX);
    if starts_with(fragment_chars.as_slice(), prefix.as_slice()) {
        tail(fragment, prefix.len())
    } else {
        fragment
    }
}

} // verus!
