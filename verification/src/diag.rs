//! The diagnostic vocabulary shared by resolve, expansion and export: a code, a severity, a
//! human-readable message and an optional subject IRI.
use vstd::prelude::*;

verus! {

/// How serious a diagnostic is.
#[derive(Clone, Copy, Debug, PartialEq, Eq, Structural)]
pub enum Severity {
    /// Fails the load or export.
    Error,
    /// Reported but non-aborting.
    Warning,
    /// Informational.
    Info,
}

/// The machine-readable diagnostic code.
#[derive(Clone, Copy, Debug, PartialEq, Eq, Structural)]
pub enum DiagCode {
    MalformedDocument,
    UnresolvedReference,
    GroundingFailed,
    ExportUnsupported,
    NonSubsetConstruct,
    DirectionMismatch,
    TypeMismatch,
    SingleAssignment,
    RelativeIri,
    ConditionalGuardUnsupported,
    UnknownEnumLiteral,
    ExportDeferred,
    ClassNotFound,
    InactiveConditionalNode,
    UnknownEnumType,
    ConflictingInterfaceDeclaration,
    PortNameMismatch,
    EnumIntegerStandin,
    DuplicateId,
    ArrayFlattenCollision,
    UnresolvedPolymorphism,
    UndrivenBoundaryOutput,
    MissingConnectorId,
    ConditionalGuardUnknownParameter,
    BoundaryOutputShadowsConnector,
    AnalogCoercedToReal,
}

/// The published name of a diagnostic code: its variant name.
pub open spec fn code_name(code: DiagCode) -> Seq<char> {
    match code {
        DiagCode::MalformedDocument => "MalformedDocument"@,
        DiagCode::UnresolvedReference => "UnresolvedReference"@,
        DiagCode::GroundingFailed => "GroundingFailed"@,
        DiagCode::ExportUnsupported => "ExportUnsupported"@,
        DiagCode::NonSubsetConstruct => "NonSubsetConstruct"@,
        DiagCode::DirectionMismatch => "DirectionMismatch"@,
        DiagCode::TypeMismatch => "TypeMismatch"@,
        DiagCode::SingleAssignment => "SingleAssignment"@,
        DiagCode::RelativeIri => "RelativeIri"@,
        DiagCode::ConditionalGuardUnsupported => "ConditionalGuardUnsupported"@,
        DiagCode::UnknownEnumLiteral => "UnknownEnumLiteral"@,
        DiagCode::ExportDeferred => "ExportDeferred"@,
        DiagCode::ClassNotFound => "ClassNotFound"@,
        DiagCode::InactiveConditionalNode => "InactiveConditionalNode"@,
        DiagCode::UnknownEnumType => "UnknownEnumType"@,
        DiagCode::ConflictingInterfaceDeclaration => "ConflictingInterfaceDeclaration"@,
        DiagCode::PortNameMismatch => "PortNameMismatch"@,
        DiagCode::EnumIntegerStandin => "EnumIntegerStandin"@,
        DiagCode::DuplicateId => "DuplicateId"@,
        DiagCode::ArrayFlattenCollision => "ArrayFlattenCollision"@,
        DiagCode::UnresolvedPolymorphism => "UnresolvedPolymorphism"@,
        DiagCode::UndrivenBoundaryOutput => "UndrivenBoundaryOutput"@,
        DiagCode::MissingConnectorId => "MissingConnectorId"@,
        DiagCode::ConditionalGuardUnknownParameter => "ConditionalGuardUnknownParameter"@,
        DiagCode::BoundaryOutputShadowsConnector => "BoundaryOutputShadowsConnector"@,
        DiagCode::AnalogCoercedToReal => "AnalogCoercedToReal"@,
    }
}

impl DiagCode {
    /// The published name of this code.
    pub fn as_str(&self) -> (r: &'static str)
        ensures
            r@ == code_name(*self),
    {
        match self {
            DiagCode::MalformedDocument => "MalformedDocument",
            DiagCode::UnresolvedReference => "UnresolvedReference",
            DiagCode::GroundingFailed => "GroundingFailed",
            DiagCode::ExportUnsupported => "ExportUnsupported",
            DiagCode::NonSubsetConstruct => "NonSubsetConstruct",
            DiagCode::DirectionMismatch => "DirectionMismatch",
            DiagCode::TypeMismatch => "TypeMismatch",
            DiagCode::SingleAssignment => "SingleAssignment",
            DiagCode::RelativeIri => "RelativeIri",
            DiagCode::ConditionalGuardUnsupported => "ConditionalGuardUnsupported",
            DiagCode::UnknownEnumLiteral => "UnknownEnumLiteral",
            DiagCode::ExportDeferred => "ExportDeferred",
            DiagCode::ClassNotFound => "ClassNotFound",
            DiagCode::InactiveConditionalNode => "InactiveConditionalNode",
            DiagCode::UnknownEnumType => "UnknownEnumType",
            DiagCode::ConflictingInterfaceDeclaration => "ConflictingInterfaceDeclaration",
            DiagCode::PortNameMismatch => "PortNameMismatch",
            DiagCode::EnumIntegerStandin => "EnumIntegerStandin",
            DiagCode::DuplicateId => "DuplicateId",
            DiagCode::ArrayFlattenCollision => "ArrayFlattenCollision",
            DiagCode::UnresolvedPolymorphism => "UnresolvedPolymorphism",
            DiagCode::UndrivenBoundaryOutput => "UndrivenBoundaryOutput",
            DiagCode::MissingConnectorId => "MissingConnectorId",
            DiagCode::ConditionalGuardUnknownParameter => "ConditionalGuardUnknownParameter",
            DiagCode::BoundaryOutputShadowsConnector => "BoundaryOutputShadowsConnector",
            DiagCode::AnalogCoercedToReal => "AnalogCoercedToReal",
        }
    }
}

/// One diagnostic.
#[derive(Clone, Debug, PartialEq, Eq)]
pub struct Diagnostic {
    /// How serious it is.
    pub severity: Severity,
    /// Its machine-readable code.
    pub code: DiagCode,
    /// The human-readable message.
    pub message: String,
    /// The IRI (or synthetic position tag) the diagnostic is about, when there is one.
    pub subject: Option<String>,
}

/// `d` is an error with `code`, `message` and `subject`.
pub open spec fn is_error_about(d: Diagnostic, code: DiagCode, message: Seq<char>, subject: Seq<char>) -> bool {
    &&& d.severity == Severity::Error
    &&& d.code == code
    &&& d.message@ == message
    &&& d.subject matches Some(s) && s@ == subject
}

/// The subject of a diagnostic, as characters.
pub open spec fn subject_view(s: Option<String>) -> Option<Seq<char>> {
    match s {
        Some(x) => Some(x@),
        None => None,
    }
}

/// `d` is the error `f`: its code, its message, and its subject when it has one.
pub open spec fn is_finding(d: Diagnostic, f: (DiagCode, Seq<char>, Option<Seq<char>>)) -> bool {
    &&& d.severity == Severity::Error
    &&& d.code == f.0
    &&& d.message@ == f.1
    &&& subject_view(d.subject) == f.2
}

/// `a` and `b` carry the same severity, code, message and subject.
pub open spec fn same_diag(a: Diagnostic, b: Diagnostic) -> bool {
    &&& a.severity == b.severity
    &&& a.code == b.code
    &&& a.message@ == b.message@
    &&& subject_view(a.subject) == subject_view(b.subject)
}

/// `a` and `b` are the same diagnostics, in the same order.
pub open spec fn same_diags(a: Seq<Diagnostic>, b: Seq<Diagnostic>) -> bool {
    &&& a.len() == b.len()
    &&& forall|i: int| 0 <= i < a.len() ==> same_diag(#[trigger] a[i], b[i])
}

/// `new` is `old` followed by exactly the errors `f`.
pub open spec fn appends(
    old: Seq<Diagnostic>,
    new: Seq<Diagnostic>,
    f: Seq<(DiagCode, Seq<char>, Option<Seq<char>>)>,
) -> bool {
    &&& new.len() == old.len() + f.len()
    &&& new.take(old.len() as int) == old
    &&& forall|k: int| 0 <= k < f.len() ==> is_finding(#[trigger] new[old.len() + k], f[k])
}

/// Appending in two steps appends the concatenation.
pub proof fn lemma_appends_trans(
    a: Seq<Diagnostic>,
    b: Seq<Diagnostic>,
    c: Seq<Diagnostic>,
    f1: Seq<(DiagCode, Seq<char>, Option<Seq<char>>)>,
    f2: Seq<(DiagCode, Seq<char>, Option<Seq<char>>)>,
)
    requires
        appends(a, b, f1),
        appends(b, c, f2),
    ensures
        appends(a, c, f1 + f2),
{
    assert(c.take(a.len() as int) =~= b.take(a.len() as int)) by {
        assert forall|k: int| 0 <= k < a.len() implies c.take(a.len() as int)[k] == b.take(a.len() as int)[k] by {
            assert(c.take(b.len() as int)[k] == b[k]);
        }
    }
    assert forall|k: int| 0 <= k < (f1 + f2).len() implies is_finding(#[trigger] c[a.len() + k], (f1 + f2)[k]) by {
        if k < f1.len() {
            assert(c.take(b.len() as int)[a.len() + k] == b[a.len() + k]);
            assert(is_finding(b[a.len() + k], f1[k]));
        } else {
            assert(is_finding(c[b.len() + (k - f1.len())], f2[k - f1.len()]));
        }
    }
}

/// Nothing appended.
pub proof fn lemma_appends_none(a: Seq<Diagnostic>)
    ensures
        appends(a, a, seq![]),
{
    assert(a.take(a.len() as int) =~= a);
}

/// One error appended.
pub proof fn lemma_appends_one(a: Seq<Diagnostic>, d: Diagnostic, f: (DiagCode, Seq<char>, Option<Seq<char>>))
    requires
        is_finding(d, f),
    ensures
        appends(a, a.push(d), seq![f]),
{
    assert(a.push(d).take(a.len() as int) =~= a);
    assert(a.push(d)[a.len() + 0int] == d);
}

/// A diagnostic of any severity as a specification value: severity, code, message, subject.
pub type Note = (Severity, DiagCode, Seq<char>, Option<Seq<char>>);

/// `d` is the note `n`.
pub open spec fn is_note(d: Diagnostic, n: Note) -> bool {
    &&& d.severity == n.0
    &&& d.code == n.1
    &&& d.message@ == n.2
    &&& subject_view(d.subject) == n.3
}

/// `new` is `old` followed by exactly the notes `ns`.
pub open spec fn appends_notes(old: Seq<Diagnostic>, new: Seq<Diagnostic>, ns: Seq<Note>) -> bool {
    &&& new.len() == old.len() + ns.len()
    &&& new.take(old.len() as int) == old
    &&& forall|k: int| 0 <= k < ns.len() ==> is_note(#[trigger] new[old.len() + k], ns[k])
}

/// Errors as notes.
pub open spec fn errors_of(f: Seq<(DiagCode, Seq<char>, Option<Seq<char>>)>) -> Seq<Note> {
    f.map_values(|x: (DiagCode, Seq<char>, Option<Seq<char>>)| (Severity::Error, x.0, x.1, x.2))
}

/// Appended errors are appended notes.
pub proof fn lemma_appends_errors(a: Seq<Diagnostic>, b: Seq<Diagnostic>, f: Seq<(DiagCode, Seq<char>, Option<Seq<char>>)>)
    requires
        appends(a, b, f),
    ensures
        appends_notes(a, b, errors_of(f)),
{
    assert forall|k: int| 0 <= k < f.len() implies is_note(#[trigger] b[a.len() + k], errors_of(f)[k]) by {
        assert(is_finding(b[a.len() + k], f[k]));
    }
}

/// Appending notes in two steps appends the concatenation.
pub proof fn lemma_notes_trans(a: Seq<Diagnostic>, b: Seq<Diagnostic>, c: Seq<Diagnostic>, n1: Seq<Note>, n2: Seq<Note>)
    requires
        appends_notes(a, b, n1),
        appends_notes(b, c, n2),
    ensures
        appends_notes(a, c, n1 + n2),
{
    assert(c.take(a.len() as int) =~= b.take(a.len() as int)) by {
        assert forall|k: int| 0 <= k < a.len() implies c.take(a.len() as int)[k] == b.take(a.len() as int)[k] by {
            assert(c.take(b.len() as int)[k] == b[k]);
        }
    }
    assert forall|k: int| 0 <= k < (n1 + n2).len() implies is_note(#[trigger] c[a.len() + k], (n1 + n2)[k]) by {
        if k < n1.len() {
            assert(c.take(b.len() as int)[a.len() + k] == b[a.len() + k]);
            assert(is_note(b[a.len() + k], n1[k]));
        } else {
            assert(is_note(c[b.len() + (k - n1.len())], n2[k - n1.len()]));
        }
    }
}

/// No note appended.
pub proof fn lemma_notes_none(a: Seq<Diagnostic>)
    ensures
        appends_notes(a, a, seq![]),
{
    assert(a.take(a.len() as int) =~= a);
}

/// One note appended.
pub proof fn lemma_notes_one(a: Seq<Diagnostic>, d: Diagnostic, n: Note)
    requires
        is_note(d, n),
    ensures
        appends_notes(a, a.push(d), seq![n]),
{
    assert(a.push(d).take(a.len() as int) =~= a);
    assert(a.push(d)[a.len() + 0int] == d);
}

impl Diagnostic {
    /// An error-severity diagnostic without a subject.
    pub fn error(code: DiagCode, message: String) -> (d: Diagnostic)
        ensures
            d.severity == Severity::Error,
            d.code == code,
            d.message@ == message@,
            d.subject is None,
    {
        Diagnostic { severity: Severity::Error, code, message, subject: None }
    }

    /// A warning-severity diagnostic without a subject.
    pub fn warning(code: DiagCode, message: String) -> (d: Diagnostic)
        ensures
            d.severity == Severity::Warning,
            d.code == code,
            d.message@ == message@,
            d.subject is None,
    {
        Diagnostic { severity: Severity::Warning, code, message, subject: None }
    }

    /// The same diagnostic, about `subject`.
    pub fn with_subject(self, subject: String) -> (d: Diagnostic)
        ensures
            d.severity == self.severity,
            d.code == self.code,
            d.message@ == self.message@,
            d.subject matches Some(s) && s@ == subject@,
    {
        Diagnostic { subject: Some(subject), ..self }
    }
}

/// Whether any diagnostic in `diags` is an error.
pub open spec fn any_error(diags: Seq<Diagnostic>) -> bool {
    exists|i: int| 0 <= i < diags.len() && diags[i].severity == Severity::Error
}

/// Whether any diagnostic in `diags` is an error.
pub fn has_errors(diags: &[Diagnostic]) -> (b: bool)
    ensures
        b == any_error(diags@),
{
    let mut i: usize = 0;
    while i < diags.len()
        invariant
            i <= diags@.len(),
            forall|j: int| 0 <= j < i ==> diags@[j].severity != Severity::Error,
        decreases diags@.len() - i,
    {
        if diags[i].severity == Severity::Error {
            return true;
        }
        i += 1;
    }
    false
}

} // verus!
