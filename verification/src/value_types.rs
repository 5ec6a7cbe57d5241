//! A connector's value type, from its `isOfDataType` term or, failing that, its port `@type`.
use vstd::prelude::*;
use crate::diag::{DiagCode, Diagnostic, Severity};
use crate::dto::Node;
use crate::model::ValueType;
use crate::port_binding::str_eq;
use crate::report::{first_type, term_of};
use crate::text::{after_last_in, chars_of, owned, seq_starts_with, starts_with};

verus! {

/// The trailing term of an IRI: what follows its last `:`, `#` or `/`.
pub open spec fn term_spec(iri: Seq<char>) -> Seq<char> {
    after_last_in(iri, seq![':', '#', '/'])
}

/// The value type an `isOfDataType` term names, if it names one.
pub open spec fn datatype_value_type(iri: Seq<char>) -> Option<ValueType> {
    let t = term_spec(iri);
    if t == "Real"@ {
        Some(ValueType::Real)
    } else if t == "Integer"@ {
        Some(ValueType::Integer)
    } else if t == "Boolean"@ {
        Some(ValueType::Boolean)
    } else {
        None
    }
}

/// Map an `isOfDataType` term (`S231:Real` → Real, and Integer, Boolean); anything else is
/// unrecognized.
pub fn value_type_of_datatype(iri: &str) -> (r: Option<ValueType>)
    ensures
        r == datatype_value_type(iri@),
{
    let t = term_of(iri);
    if str_eq(t, "Real") {
        Some(ValueType::Real)
    } else if str_eq(t, "Integer") {
        Some(ValueType::Integer)
    } else if str_eq(t, "Boolean") {
        Some(ValueType::Boolean)
    } else {
        None
    }
}

/// The diagnostic a type derivation raises: its severity, code, message and subject.
pub type TypeNote = (Severity, DiagCode, Seq<char>, Seq<char>);

/// The term of a node's first `@type`, if it has one.
pub open spec fn port_term(node: Node) -> Option<Seq<char>> {
    match node.types {
        Some(ts) => if ts.items().len() > 0 {
            Some(term_spec(ts.items()[0]@))
        } else {
            None
        },
        None => None,
    }
}

/// A connector's value type and the diagnostic its derivation raises. The `isOfDataType` term
/// decides when present (an unrecognized term is an unresolved reference); otherwise the port
/// term's prefix decides: `Real`, `Integer`, `Boolean`; `Analog` is coerced to Real with a
/// warning; `String` and anything else are malformed. Every failure leaves a Real placeholder.
pub open spec fn derived_type(node: Node) -> (ValueType, Option<TypeNote>) {
    match node.is_of_data_type {
        Some(dt) => match datatype_value_type(dt.id@) {
            Some(v) => (v, None),
            None => (
                ValueType::Real,
                Some((Severity::Error, DiagCode::UnresolvedReference, "unresolved isOfDataType"@, dt.id@)),
            ),
        },
        None => match port_term(node) {
            Some(t) => if seq_starts_with(t, "Real"@) {
                (ValueType::Real, None)
            } else if seq_starts_with(t, "Integer"@) {
                (ValueType::Integer, None)
            } else if seq_starts_with(t, "Boolean"@) {
                (ValueType::Boolean, None)
            } else if seq_starts_with(t, "Analog"@) {
                (
                    ValueType::Real,
                    Some((Severity::Warning, DiagCode::AnalogCoercedToReal, "Analog connector coerced to Real"@, node.id@)),
                )
            } else if seq_starts_with(t, "String"@) {
                (
                    ValueType::Real,
                    Some(
                        (Severity::Error, DiagCode::MalformedDocument, "String connector not permitted (§7.8)"@, node.id@),
                    ),
                )
            } else {
                (ValueType::Real, Some(unrecognized_note(node)))
            },
            None => (ValueType::Real, Some(unrecognized_note(node))),
        },
    }
}

/// The refusal of a connector without a recognized data type.
pub open spec fn unrecognized_note(node: Node) -> TypeNote {
    (Severity::Error, DiagCode::MalformedDocument, "connector lacks a recognized data type"@, node.id@)
}

/// `d` is the diagnostic `n`.
pub open spec fn note_is(d: Diagnostic, n: TypeNote) -> bool {
    &&& d.severity == n.0
    &&& d.code == n.1
    &&& d.message@ == n.2
    &&& d.subject matches Some(s) && s@ == n.3
}

fn note(severity: Severity, code: DiagCode, message: &str, subject: &str) -> (d: Diagnostic)
    ensures
        note_is(d, (severity, code, message@, subject@)),
{
    let d = match severity {
        Severity::Error => Diagnostic::error(code, owned(message)),
        Severity::Warning => Diagnostic::warning(code, owned(message)),
        Severity::Info => Diagnostic { severity: Severity::Info, code, message: owned(message), subject: None },
    };
    d.with_subject(owned(subject))
}

fn term_starts(t: &str, p: &str) -> (b: bool)
    ensures
        b == seq_starts_with(t@, p@),
{
    let tc = chars_of(t);
    let pc = chars_of(p);
    starts_with(tc.as_slice(), pc.as_slice())
}

/// Derive a connector's value type, appending the diagnostic its derivation raises; a failure
/// returns a Real placeholder so the connector list stays dense while the load still fails.
pub fn derive_value_type(node: &Node, diags: &mut Vec<Diagnostic>) -> (vt: ValueType)
    ensures
        vt == derived_type(*node).0,
        match derived_type(*node).1 {
            Some(n) => final(diags)@.len() == old(diags)@.len() + 1 && final(diags)@.drop_last() == old(diags)@
                && note_is(final(diags)@.last(), n),
            None => final(diags)@ == old(diags)@,
        },
{
    if let Some(dt) = &node.is_of_data_type {
        return match value_type_of_datatype(dt.id.as_str()) {
            Some(v) => v,
            None => {
                diags.push(note(Severity::Error, DiagCode::UnresolvedReference, "unresolved isOfDataType", dt.id.as_str()));
                ValueType::Real
            },
        };
    }
    let t = match first_type(node) {
        Some(ty) => Some(term_of(ty)),
        None => None,
    };
    let subject = node.id.as_str();
    match t {
        Some(t) => {
            if term_starts(t, "Real") {
                ValueType::Real
            } else if term_starts(t, "Integer") {
                ValueType::Integer
            } else if term_starts(t, "Boolean") {
                ValueType::Boolean
            } else if term_starts(t, "Analog") {
                diags.push(note(Severity::Warning, DiagCode::AnalogCoercedToReal, "Analog connector coerced to Real", subject));
                ValueType::Real
            } else if term_starts(t, "String") {
                diags.push(note(Severity::Error, DiagCode::MalformedDocument, "String connector not permitted (§7.8)", subject));
                ValueType::Real
            } else {
                diags.push(note(Severity::Error, DiagCode::MalformedDocument, "connector lacks a recognized data type", subject));
                ValueType::Real
            }
        },
        None => {
            diags.push(note(Severity::Error, DiagCode::MalformedDocument, "connector lacks a recognized data type", subject));
            ValueType::Real
        },
    }
}

} // verus!
