//! The minimal CXF exporter: a flat, ground, single-root, scalar-parameter model graph planned
//! and rendered as a CXF JSON-LD document.
//!
//! Planning validates the export subset and mints every `@id`; rendering is infallible. Block
//! nodes are named by their instance IRI, parameter nodes `<instance>.<name>`, ports keep their
//! own IRI (minted `<instance>.in<k>` / `<instance>.out<k>` only when they have none usable),
//! boundary inputs keep their stored boundary IRI, and the root is a fixed synthetic URN.
//! Emission order comes from the graph's vectors alone. Enumeration-bearing blocks and the
//! blocks their absence starves are deferred: omitted with a warning, and never the source of an
//! error. Everything else outside the subset is an `ExportUnsupported` error naming the owning
//! block, and any error refuses the whole export.
use vstd::prelude::*;
use crate::bridge::{class_path_of, class_path_spec, OBC_PREFIX};
use crate::composite::{copy_strings, make_refs, refs_match, Finding};
use crate::diag::{
    any_error, appends, has_errors, is_finding, lemma_appends_none, lemma_appends_one, lemma_appends_trans, same_diags, DiagCode, Diagnostic,
    Severity,
};
use crate::dto::{Context, CxfDocument, CxfValue, IriRef, JsonValue, Node, OneOrMany};
use crate::export_defer::{
    block_subject_spec, closed_under_cascade, deferral_order, deferral_set, entry_ok, is_deferral, lemma_deferral_is_least,
    lemma_deferral_warnings_determined, is_enum_block,
};
use crate::export_pass_through::{
    boundary_iris_ok, endpoint_shape_ok, finite_bits, has_plannable_shape, is_finite_bits, is_pass_through_class, pass_through_type,
    wiring_shape_ok,
};
use crate::model::{attrs_match, Attrs, BlockInstance, Connector, ConnectorId, Dir, ModelGraph, Value, ValueType};
use crate::port_binding::str_eq;
use crate::specialize::{contains_str, names};
use crate::text::{chars_of, decimal, decimal_string, owned, push_char, push_str, seq_starts_with, starts_with};

verus! {

// ---- messages ----

/// The export rejections that carry fixed text.
#[derive(Clone, Copy, Debug, PartialEq, Eq, Structural)]
pub enum ExportMsg {
    Empty,
    TotalDeferral,
    NoInstanceIri,
    ClassBridge,
    Structure,
    AttrNominal,
    AttrUnbounded,
    AttrNonfiniteBound,
    StringConnector,
    EnumConnector,
    ExternalIri,
    DuplicateExternalInput,
    BoundaryTypeMismatch,
    MultiplyDriven,
    DuplicateId,
}

/// The text of a fixed rejection.
pub open spec fn msg_spec(m: ExportMsg) -> Seq<char> {
    match m {
        ExportMsg::Empty => "CXF export requires at least one block: an empty ModelGraph has no runtime composite to emit"@,
        ExportMsg::TotalDeferral => "CXF export requires at least one emitted runtime block: all blocks were deferred or reserved lowering-only, leaving no runtime composite to emit"@,
        ExportMsg::NoInstanceIri => "export subset: block has no instance_iri to name its CXF node"@,
        ExportMsg::ClassBridge => "export subset: class path does not survive the class-IRI bridge round-trip"@,
        ExportMsg::Structure => "export subset: block/connector wiring is structurally inconsistent"@,
        ExportMsg::AttrNominal => "export subset: connector carries a non-default §7.4.1 nominal attribute, which is outside the canonical (bare-scalar) export subset"@,
        ExportMsg::AttrUnbounded => "export subset: connector carries a non-default §7.4.1 unbounded attribute, which is outside the canonical (bare-scalar) export subset"@,
        ExportMsg::AttrNonfiniteBound => "export subset: connector carries a non-finite §7.4.1 min/max bound, which is outside the canonical (bare-scalar) export subset"@,
        ExportMsg::StringConnector => "export subset: String connectors are not permitted in CXF (§7.8)"@,
        ExportMsg::EnumConnector => "export subset: enumeration-typed connectors are outside the minimal export subset"@,
        ExportMsg::ExternalIri => "export subset: external input carries no boundary IRI to rebuild the root hasInput"@,
        ExportMsg::DuplicateExternalInput => "export subset: a connector is listed more than once in external_inputs, and re-import deduplicates the repeat away"@,
        ExportMsg::BoundaryTypeMismatch => "export subset: one boundary input drives child inputs with different value types"@,
        ExportMsg::MultiplyDriven => "export subset: input connector is driven by more than one surviving output, and the emitted document fails re-import with a single-assignment error (§7.10)"@,
        ExportMsg::DuplicateId => "export subset: emitted node @id collides with another emitted node @id"@,
    }
}

/// The text of a fixed rejection.
pub fn msg_text(m: ExportMsg) -> (r: &'static str)
    ensures
        r@ == msg_spec(m),
{
    match m {
        ExportMsg::Empty => "CXF export requires at least one block: an empty ModelGraph has no runtime composite to emit",
        ExportMsg::TotalDeferral => "CXF export requires at least one emitted runtime block: all blocks were deferred or reserved lowering-only, leaving no runtime composite to emit",
        ExportMsg::NoInstanceIri => "export subset: block has no instance_iri to name its CXF node",
        ExportMsg::ClassBridge => "export subset: class path does not survive the class-IRI bridge round-trip",
        ExportMsg::Structure => "export subset: block/connector wiring is structurally inconsistent",
        ExportMsg::AttrNominal => "export subset: connector carries a non-default §7.4.1 nominal attribute, which is outside the canonical (bare-scalar) export subset",
        ExportMsg::AttrUnbounded => "export subset: connector carries a non-default §7.4.1 unbounded attribute, which is outside the canonical (bare-scalar) export subset",
        ExportMsg::AttrNonfiniteBound => "export subset: connector carries a non-finite §7.4.1 min/max bound, which is outside the canonical (bare-scalar) export subset",
        ExportMsg::StringConnector => "export subset: String connectors are not permitted in CXF (§7.8)",
        ExportMsg::EnumConnector => "export subset: enumeration-typed connectors are outside the minimal export subset",
        ExportMsg::ExternalIri => "export subset: external input carries no boundary IRI to rebuild the root hasInput",
        ExportMsg::DuplicateExternalInput => "export subset: a connector is listed more than once in external_inputs, and re-import deduplicates the repeat away",
        ExportMsg::BoundaryTypeMismatch => "export subset: one boundary input drives child inputs with different value types",
        ExportMsg::MultiplyDriven => "export subset: input connector is driven by more than one surviving output, and the emitted document fails re-import with a single-assignment error (§7.10)",
        ExportMsg::DuplicateId => "export subset: emitted node @id collides with another emitted node @id",
    }
}

/// An `ExportUnsupported` rejection about `subject`.
pub open spec fn reject_v(message: Seq<char>, subject: Seq<char>) -> Finding {
    (DiagCode::ExportUnsupported, message, Some(subject))
}

/// An `ExportUnsupported` rejection with a subject.
pub fn reject(message: &str, subject: &str) -> (d: Diagnostic)
    ensures
        is_finding(d, reject_v(message@, subject@)),
{
    Diagnostic::error(DiagCode::ExportUnsupported, owned(message)).with_subject(owned(subject))
}

/// A whole-operation `ExportUnsupported` rejection.
pub open spec fn whole_v(message: Seq<char>) -> Finding {
    (DiagCode::ExportUnsupported, message, None)
}

fn reject_whole(message: &str) -> (d: Diagnostic)
    ensures
        is_finding(d, whole_v(message@)),
{
    Diagnostic::error(DiagCode::ExportUnsupported, owned(message))
}

// ---- subjects ----

/// `block#<position>`.
pub open spec fn block_tag(bi: int) -> Seq<char> {
    "block#"@ + decimal(bi as nat)
}

/// A connector's diagnostic subject: its owning block's instance IRI, else `connector#<position>`.
pub open spec fn owner_subject_v(g: ModelGraph, c: Connector, position: int) -> Seq<char> {
    if (c.block.0 as int) < g.blocks@.len() && g.blocks@[c.block.0 as int].instance_iri is Some {
        g.blocks@[c.block.0 as int].instance_iri->0@
    } else {
        "connector#"@ + decimal(position as nat)
    }
}

/// A connector's diagnostic subject.
pub fn owner_subject(g: &ModelGraph, c: &Connector, position: usize) -> (r: String)
    ensures
        r@ == owner_subject_v(*g, *c, position as int),
{
    let bi = c.block.0 as usize;
    if bi < g.blocks.len() {
        if let Some(iri) = &g.blocks[bi].instance_iri {
            return owned(iri.as_str());
        }
    }
    let mut s = owned("connector#");
    push_str(&mut s, decimal_string(position).as_str());
    s
}

// ---- parameter bindings ----

/// A parameter binding as a specification value.
pub enum BindingV {
    Bool(bool),
    Int(i64),
    Float(u64),
    Expr(Seq<char>),
}

/// What a binding is, when it is one of the shapes the exporter emits.
pub open spec fn binding_view(v: CxfValue) -> Option<BindingV> {
    match v {
        CxfValue::Bool(b) => Some(BindingV::Bool(b)),
        CxfValue::Int(i) => Some(BindingV::Int(i)),
        CxfValue::Float(f) => Some(BindingV::Float(f)),
        CxfValue::Expr(e) => Some(BindingV::Expr(e@)),
        _ => None,
    }
}

/// A string payload quoted as a CDL string-literal expression: `\` and `"` are escaped.
pub open spec fn quoted_v(s: Seq<char>) -> Seq<char>
    decreases s.len(),
{
    if s.len() == 0 {
        seq![]
    } else {
        quoted_v(s.drop_last()) + if s.last() == '"' || s.last() == '\\' {
            seq!['\\', s.last()]
        } else {
            seq![s.last()]
        }
    }
}

/// Quote a string payload as a CDL string-literal expression.
pub fn string_literal(s: &str) -> (r: String)
    ensures
        r@ == seq!['"'] + quoted_v(s@) + seq!['"'],
{
    let chars = chars_of(s);
    let mut out = String::new();
    push_char(&mut out, '"');
    let mut i: usize = 0;
    while i < chars.len()
        invariant
            chars@ == s@,
            i <= chars@.len(),
            out@ == seq!['"'] + quoted_v(s@.take(i as int)),
        decreases chars@.len() - i,
    {
        let ch = chars[i];
        assert(s@.take(i + 1).drop_last() =~= s@.take(i as int));
        if ch == '"' || ch == '\\' {
            push_char(&mut out, '\\');
        }
        push_char(&mut out, ch);
        assert(out@ =~= seq!['"'] + quoted_v(s@.take(i + 1)));
        i += 1;
    }
    assert(s@.take(chars@.len() as int) =~= s@);
    push_char(&mut out, '"');
    out
}

/// The rejection of a non-finite Real parameter.
pub open spec fn nonfinite_param_message(name: Seq<char>) -> Seq<char> {
    "export subset: parameter `"@ + name + "` is a non-finite Real, which cannot round-trip through JSON"@
}

/// The rejection of an enumeration-valued parameter.
pub open spec fn enum_param_message(name: Seq<char>) -> Seq<char> {
    "export subset: parameter `"@ + name + "` is enumeration-valued, which has no CXF literal form in the minimal export subset"@
}

/// The canonical binding of a ground parameter value, or the rejection's message.
pub open spec fn binding_v(name: Seq<char>, value: Value) -> Result<BindingV, Seq<char>> {
    match value {
        Value::Real(bits) => if finite_bits(bits) {
            Ok(BindingV::Float(bits))
        } else {
            Err(nonfinite_param_message(name))
        },
        Value::Integer(i) => Ok(BindingV::Int(i)),
        Value::Boolean(b) => Ok(BindingV::Bool(b)),
        Value::String(s) => Ok(BindingV::Expr(seq!['"'] + quoted_v(s@) + seq!['"'])),
        Value::Enum { .. } => Err(enum_param_message(name)),
    }
}

/// Convert one ground parameter value to its canonical binding, or reject it: an enumeration
/// value has no literal form here and a non-finite Real would serialize as JSON `null`.
pub fn param_binding(name: &str, value: &Value, subject: &str, diags: &mut Vec<Diagnostic>) -> (r: Option<CxfValue>)
    ensures
        match binding_v(name@, *value) {
            Ok(b) => r matches Some(v) && binding_view(v) == Some(b) && final(diags)@ == old(diags)@,
            Err(m) => r is None && appends(old(diags)@, final(diags)@, seq![reject_v(m, subject@)]),
        },
{
    match value {
        Value::Real(bits) => {
            if is_finite_bits(*bits) {
                Some(CxfValue::Float(*bits))
            } else {
                let mut m = owned("export subset: parameter `");
                push_str(&mut m, name);
                push_str(&mut m, "` is a non-finite Real, which cannot round-trip through JSON");
                let d = reject(m.as_str(), subject);
                proof {
                    lemma_appends_one(diags@, d, reject_v(nonfinite_param_message(name@), subject@));
                }
                diags.push(d);
                None
            }
        },
        Value::Integer(i) => Some(CxfValue::Int(*i)),
        Value::Boolean(b) => Some(CxfValue::Bool(*b)),
        Value::String(s) => Some(CxfValue::Expr(string_literal(s.as_str()))),
        Value::Enum { .. } => {
            let mut m = owned("export subset: parameter `");
            push_str(&mut m, name);
            push_str(&mut m, "` is enumeration-valued, which has no CXF literal form in the minimal export subset");
            let d = reject(m.as_str(), subject);
            proof {
                lemma_appends_one(diags@, d, reject_v(enum_param_message(name@), subject@));
            }
            diags.push(d);
            None
        },
    }
}

// ---- connector attributes ----

/// The classified attributes of one emitted port; a Real bound is carried by its bits.
#[derive(Clone, Debug)]
pub enum PortAttrs {
    Real {
        unit: Option<String>,
        quantity: Option<String>,
        display_unit: Option<String>,
        min: Option<u64>,
        max: Option<u64>,
    },
    Integer { min: Option<i64>, max: Option<i64> },
    /// No attributes are emitted.
    Empty,
}

/// A Real bound kept when finite; its rejection otherwise.
pub open spec fn bound_findings(v: Option<u64>, subject: Seq<char>) -> Seq<Finding> {
    match v {
        Some(b) if !finite_bits(b) => seq![reject_v(msg_spec(ExportMsg::AttrNonfiniteBound), subject)],
        _ => seq![],
    }
}

/// The rejections classifying `attrs` raises, in order: a nominal, an unbounded, a non-finite
/// minimum, a non-finite maximum.
pub open spec fn attr_findings(attrs: Attrs, subject: Seq<char>) -> Seq<Finding> {
    match attrs {
        Attrs::Real(a) => (if a.nominal is Some {
            seq![reject_v(msg_spec(ExportMsg::AttrNominal), subject)]
        } else {
            seq![]
        }) + (if a.unbounded is Some {
            seq![reject_v(msg_spec(ExportMsg::AttrUnbounded), subject)]
        } else {
            seq![]
        }) + bound_findings(a.min, subject) + bound_findings(a.max, subject),
        _ => seq![],
    }
}

/// The kept part of a bound: finite values only.
pub open spec fn kept_bound(v: Option<u64>) -> Option<u64> {
    match v {
        Some(b) if finite_bits(b) => Some(b),
        _ => None,
    }
}

/// `p` carries what classification keeps of `attrs`.
pub open spec fn classified_ok(attrs: Attrs, p: PortAttrs) -> bool {
    match attrs {
        Attrs::Real(a) => p matches PortAttrs::Real { unit, quantity, display_unit, min, max } && opt_view(unit)
            == opt_view(a.unit) && opt_view(quantity) == opt_view(a.quantity) && opt_view(display_unit) == opt_view(
            a.display_unit,
        ) && min == kept_bound(a.min) && max == kept_bound(a.max),
        Attrs::Integer(a) => p matches PortAttrs::Integer { min, max } && min == a.min && max == a.max,
        _ => p is Empty,
    }
}

/// An optional string as characters.
pub open spec fn opt_view(s: Option<String>) -> Option<Seq<char>> {
    match s {
        Some(x) => Some(x@),
        None => None,
    }
}

fn copy_opt(s: &Option<String>) -> (r: Option<String>)
    ensures
        opt_view(r) == opt_view(*s),
{
    match s {
        Some(x) => Some(owned(x.as_str())),
        None => None,
    }
}

fn finite_real_bound(v: Option<u64>, subject: &str, diags: &mut Vec<Diagnostic>) -> (r: Option<u64>)
    ensures
        r == kept_bound(v),
        appends(old(diags)@, final(diags)@, bound_findings(v, subject@)),
{
    match v {
        Some(b) => {
            if is_finite_bits(b) {
                proof {
                    lemma_appends_none(diags@);
                }
                Some(b)
            } else {
                let d = reject(msg_text(ExportMsg::AttrNonfiniteBound), subject);
                proof {
                    lemma_appends_one(diags@, d, reject_v(msg_spec(ExportMsg::AttrNonfiniteBound), subject@));
                }
                diags.push(d);
                None
            }
        },
        None => {
            proof {
                lemma_appends_none(diags@);
            }
            None
        },
    }
}

/// Classify a type-matched connector's attributes into the emit subset, rejecting a nominal,
/// an unbounded, and a non-finite bound.
pub fn classify_attrs(attrs: &Attrs, subject: &str, diags: &mut Vec<Diagnostic>) -> (p: PortAttrs)
    ensures
        classified_ok(*attrs, p),
        appends(old(diags)@, final(diags)@, attr_findings(*attrs, subject@)),
{
    match attrs {
        Attrs::Real(a) => {
            let ghost d0 = diags@;
            let ghost f1: Seq<Finding> = if a.nominal is Some {
                seq![reject_v(msg_spec(ExportMsg::AttrNominal), subject@)]
            } else {
                seq![]
            };
            let ghost f2: Seq<Finding> = if a.unbounded is Some {
                seq![reject_v(msg_spec(ExportMsg::AttrUnbounded), subject@)]
            } else {
                seq![]
            };
            if a.nominal.is_some() {
                let d = reject(msg_text(ExportMsg::AttrNominal), subject);
                proof {
                    lemma_appends_one(diags@, d, reject_v(msg_spec(ExportMsg::AttrNominal), subject@));
                }
                diags.push(d);
            } else {
                proof {
                    lemma_appends_none(diags@);
                }
            }
            let ghost d1 = diags@;
            if a.unbounded.is_some() {
                let d = reject(msg_text(ExportMsg::AttrUnbounded), subject);
                proof {
                    lemma_appends_one(diags@, d, reject_v(msg_spec(ExportMsg::AttrUnbounded), subject@));
                }
                diags.push(d);
            } else {
                proof {
                    lemma_appends_none(diags@);
                }
            }
            let ghost d2 = diags@;
            let min = finite_real_bound(a.min, subject, diags);
            let ghost d3 = diags@;
            let max = finite_real_bound(a.max, subject, diags);
            proof {
                lemma_appends_trans(d0, d1, d2, f1, f2);
                lemma_appends_trans(d0, d2, d3, f1 + f2, bound_findings(a.min, subject@));
                lemma_appends_trans(d0, d3, diags@, f1 + f2 + bound_findings(a.min, subject@), bound_findings(a.max, subject@));
            }
            PortAttrs::Real {
                unit: copy_opt(&a.unit),
                quantity: copy_opt(&a.quantity),
                display_unit: copy_opt(&a.display_unit),
                min,
                max,
            }
        },
        Attrs::Integer(a) => {
            proof {
                lemma_appends_none(diags@);
            }
            PortAttrs::Integer { min: a.min, max: a.max }
        },
        _ => {
            proof {
                lemma_appends_none(diags@);
            }
            PortAttrs::Empty
        },
    }
}


// ---- the plan ----

/// `@id` of the synthesized root composite.
pub open spec fn export_root_iri() -> Seq<char> {
    "urn:open-control:cxf-export:root"@
}

/// The base of emitted instance `@type`s, the inverse of the class-IRI bridge.
pub open spec fn class_iri_base() -> Seq<char> {
    "http://example.org#"@
}

/// One planned block node with its parameter nodes.
pub struct PlannedBlock {
    pub iri: String,
    pub type_iri: String,
    /// `(node @id, binding)` in parameter-table order.
    pub params: Vec<(String, CxfValue)>,
    pub input_ports: Vec<String>,
    pub output_ports: Vec<String>,
}

/// A planned block as a specification value.
pub struct BlockV {
    pub iri: Seq<char>,
    pub type_iri: Seq<char>,
    pub params: Seq<(Seq<char>, BindingV)>,
    pub input_ports: Seq<Seq<char>>,
    pub output_ports: Seq<Seq<char>>,
}

/// The parameter bindings of a planned block, as specification values.
pub open spec fn params_view(p: Seq<(String, CxfValue)>) -> Seq<(Seq<char>, Option<BindingV>)> {
    p.map_values(|x: (String, CxfValue)| (x.0@, binding_view(x.1)))
}

/// The bindings of a block view, each present.
pub open spec fn params_some(p: Seq<(Seq<char>, BindingV)>) -> Seq<(Seq<char>, Option<BindingV>)> {
    p.map_values(|x: (Seq<char>, BindingV)| (x.0, Some(x.1)))
}

/// `b` is the block `v`.
pub open spec fn block_is(b: PlannedBlock, v: BlockV) -> bool {
    &&& b.iri@ == v.iri
    &&& b.type_iri@ == v.type_iri
    &&& params_view(b.params@) == params_some(v.params)
    &&& names(b.input_ports@) == v.input_ports
    &&& names(b.output_ports@) == v.output_ports
}

/// The planning state: every `@id` the document will carry, each connector's claimed port
/// `@id`, and the blocks planned so far.
pub struct PlanS {
    pub seen: Seq<Seq<char>>,
    pub port_iri: Seq<Option<Seq<char>>>,
    pub blocks: Seq<BlockV>,
}

/// The planning state, held in executable form.
pub struct PlanState {
    pub seen: Vec<String>,
    pub port_iri: Vec<Option<String>>,
    pub blocks: Vec<PlannedBlock>,
}

impl PlanState {
    /// The state is `s`.
    pub open spec fn is(&self, s: PlanS) -> bool {
        &&& names(self.seen@) == s.seen
        &&& self.port_iri@.map_values(|o: Option<String>| opt_view(o)) == s.port_iri
        &&& self.blocks@.len() == s.blocks.len()
        &&& forall|i: int| 0 <= i < s.blocks.len() ==> block_is(#[trigger] self.blocks@[i], s.blocks[i])
    }
}

/// Record an `@id` the document will emit; a repeat is rejected about `subject`.
pub open spec fn claim_v(seen: Seq<Seq<char>>, id: Seq<char>, subject: Seq<char>) -> (Seq<Seq<char>>, Seq<Finding>) {
    if seen.contains(id) {
        (seen, seq![reject_v(msg_spec(ExportMsg::DuplicateId), subject)])
    } else {
        (seen.push(id), seq![])
    }
}

/// Record an emitted `@id`.
fn claim_emitted_id(seen: &mut Vec<String>, id: &str, subject: &str, diags: &mut Vec<Diagnostic>)
    ensures
        ({
            let r = claim_v(names(old(seen)@), id@, subject@);
            &&& names(final(seen)@) == r.0
            &&& appends(old(diags)@, final(diags)@, r.1)
        }),
{
    if contains_str(seen, id) {
        let d = reject(msg_text(ExportMsg::DuplicateId), subject);
        proof {
            lemma_appends_one(diags@, d, reject_v(msg_spec(ExportMsg::DuplicateId), subject@));
        }
        diags.push(d);
    } else {
        let ghost v0 = seen@;
        seen.push(owned(id));
        proof {
            assert(names(seen@) =~= names(v0).push(id@));
            lemma_appends_none(diags@);
        }
    }
}


/// The rejection of a parameter name that is not a bare member name.
pub open spec fn param_name_message(name: Seq<char>) -> Seq<char> {
    "export subset: parameter name `"@ + name + "` is not a bare member name (re-import recovers the name after the last `.`)"@
}

/// Plan the first `k` parameters of a block named `subject`: a name that is empty or holds a
/// `.` is rejected; a value without a binding is rejected; every other parameter becomes the
/// node `<subject>.<name>`, whose `@id` is claimed.
pub open spec fn params_v(seen: Seq<Seq<char>>, ps: Seq<(String, Value)>, k: nat, subject: Seq<char>) -> (
    Seq<Seq<char>>,
    Seq<(Seq<char>, BindingV)>,
    Seq<Finding>,
)
    decreases k,
{
    if k == 0 || k > ps.len() {
        (seen, seq![], seq![])
    } else {
        let (s1, out, f) = params_v(seen, ps, (k - 1) as nat, subject);
        let name = ps[k - 1].0@;
        if name.len() == 0 || name.contains('.') {
            (s1, out, f.push(reject_v(param_name_message(name), subject)))
        } else {
            match binding_v(name, ps[k - 1].1) {
                Err(m) => (s1, out, f.push(reject_v(m, subject))),
                Ok(b) => {
                    let pid = subject + "."@ + name;
                    let (s2, f2) = claim_v(s1, pid, subject);
                    (s2, out.push((pid, b)), f + f2)
                },
            }
        }
    }
}

fn has_dot(s: &str) -> (b: bool)
    ensures
        b == s@.contains('.'),
{
    let chars = chars_of(s);
    let mut i: usize = 0;
    while i < chars.len()
        invariant
            chars@ == s@,
            i <= chars@.len(),
            forall|j: int| 0 <= j < i ==> chars@[j] != '.',
        decreases chars@.len() - i,
    {
        if chars[i] == '.' {
            return true;
        }
        i += 1;
    }
    false
}

fn plan_params(ps: &Vec<(String, Value)>, subject: &str, seen: &mut Vec<String>, diags: &mut Vec<Diagnostic>) -> (r: Vec<
    (String, CxfValue),
>)
    ensures
        ({
            let v = params_v(names(old(seen)@), ps@, ps@.len(), subject@);
            &&& names(final(seen)@) == v.0
            &&& params_view(r@) == params_some(v.1)
            &&& appends(old(diags)@, final(diags)@, v.2)
        }),
{
    let mut out: Vec<(String, CxfValue)> = Vec::new();
    proof {
        lemma_appends_none(diags@);
    }
    let mut k: usize = 0;
    while k < ps.len()
        invariant
            k <= ps@.len(),
            ({
                let v = params_v(names(old(seen)@), ps@, k as nat, subject@);
                &&& names(seen@) == v.0
                &&& params_view(out@) == params_some(v.1)
                &&& appends(old(diags)@, diags@, v.2)
            }),
        decreases ps@.len() - k,
    {
        let ghost prev = params_v(names(old(seen)@), ps@, k as nat, subject@);
        let ghost dk = diags@;
        let name = ps[k].0.as_str();
        if chars_of(name).len() == 0 || has_dot(name) {
            let mut m = owned("export subset: parameter name `");
            push_str(&mut m, name);
            push_str(&mut m, "` is not a bare member name (re-import recovers the name after the last `.`)");
            let d = reject(m.as_str(), subject);
            proof {
                lemma_appends_one(diags@, d, reject_v(param_name_message(name@), subject@));
                lemma_appends_trans(old(diags)@, dk, diags@.push(d), prev.2, seq![reject_v(param_name_message(name@), subject@)]);
                assert(prev.2 + seq![reject_v(param_name_message(name@), subject@)] =~= prev.2.push(reject_v(param_name_message(name@), subject@)));
            }
            diags.push(d);
        } else {
            let ghost dm = diags@;
            match param_binding(name, &ps[k].1, subject, diags) {
                None => {
                    proof {
                        let f = reject_v(binding_v(name@, ps@[k as int].1)->Err_0, subject@);
                        lemma_appends_trans(old(diags)@, dk, diags@, prev.2, seq![f]);
                        assert(prev.2 + seq![f] =~= prev.2.push(f));
                    }
                },
                Some(binding) => {
                    let mut pid = owned(subject);
                    push_str(&mut pid, ".");
                    push_str(&mut pid, name);
                    let ghost dc = diags@;
                    claim_emitted_id(seen, pid.as_str(), subject, diags);
                    proof {
                        let c = claim_v(prev.0, pid@, subject@);
                        lemma_appends_trans(old(diags)@, dk, diags@, prev.2, c.1);
                    }
                    let ghost o0 = params_view(out@);
                    let ghost b = binding_view(binding);
                    out.push((pid, binding));
                    proof {
                        assert(params_view(out@) =~= o0.push((pid@, b)));
                        let v1 = params_v(names(old(seen)@), ps@, (k + 1) as nat, subject@);
                        assert(params_some(v1.1) =~= params_some(prev.1).push((pid@, b)));
                    }
                },
            }
        }
        k += 1;
    }
    out
}

/// The connector at `idx` can be claimed for block `bi` in direction `dir`: it exists, is owned
/// by `bi`, points that way, and is not claimed yet.
pub open spec fn claimable(g: ModelGraph, port_iri: Seq<Option<Seq<char>>>, bi: int, idx: int, dir: Dir) -> bool {
    &&& 0 <= idx < g.connectors@.len()
    &&& g.connectors@[idx].block.0 as int == bi
    &&& g.connectors@[idx].dir == dir
    &&& port_iri[idx] is None
}

/// The `@id` of a block's `k`-th port: its own IRI, minted `<subject>.in<k>` or
/// `<subject>.out<k>` when it has none; an input driven from the root boundary is always minted,
/// since its stored IRI is the boundary's.
pub open spec fn minted_v(g: ModelGraph, subject: Seq<char>, cid: ConnectorId, k: int, dir: Dir) -> Seq<char> {
    let tag = if dir == Dir::In {
        ".in"@
    } else {
        ".out"@
    };
    if dir == Dir::In && g.external_inputs@.contains(cid) {
        subject + tag + decimal(k as nat)
    } else {
        match g.connectors@[cid.0 as int].iri {
            Some(i) => i@,
            None => subject + tag + decimal(k as nat),
        }
    }
}

/// Plan the first `k` ports `ids` of block `bi` named `subject`: each claimable connector gets
/// its `@id` recorded and claimed; any other is rejected as structurally inconsistent.
pub open spec fn ports_v(
    g: ModelGraph,
    seen: Seq<Seq<char>>,
    port_iri: Seq<Option<Seq<char>>>,
    bi: int,
    subject: Seq<char>,
    ids: Seq<ConnectorId>,
    k: nat,
    dir: Dir,
) -> (Seq<Seq<char>>, Seq<Option<Seq<char>>>, Seq<Seq<char>>, Seq<Finding>)
    decreases k,
{
    if k == 0 || k > ids.len() {
        (seen, port_iri, seq![], seq![])
    } else {
        let (s1, p1, out, f) = ports_v(g, seen, port_iri, bi, subject, ids, (k - 1) as nat, dir);
        let cid = ids[k - 1];
        let minted = minted_v(g, subject, cid, k - 1, dir);
        if claimable(g, p1, bi, cid.0 as int, dir) {
            let (s2, f2) = claim_v(s1, minted, subject);
            (s2, p1.update(cid.0 as int, Some(minted)), out.push(minted), f + f2)
        } else {
            (s1, p1, out, f.push(reject_v(msg_spec(ExportMsg::Structure), subject)))
        }
    }
}

fn contains_cid(ids: &Vec<ConnectorId>, id: ConnectorId) -> (b: bool)
    ensures
        b == ids@.contains(id),
{
    let mut i: usize = 0;
    while i < ids.len()
        invariant
            i <= ids@.len(),
            forall|j: int| 0 <= j < i ==> ids@[j] != id,
        decreases ids@.len() - i,
    {
        if ids[i].0 == id.0 {
            assert(ids@[i as int] == id);
            return true;
        }
        i += 1;
    }
    false
}

fn plan_ports(
    g: &ModelGraph,
    bi: usize,
    subject: &str,
    ids: &Vec<ConnectorId>,
    dir: Dir,
    seen: &mut Vec<String>,
    port_iri: &mut Vec<Option<String>>,
    diags: &mut Vec<Diagnostic>,
) -> (r: Vec<String>)
    requires
        old(port_iri)@.len() == g.connectors@.len(),
    ensures
        ({
            let v = ports_v(
                *g,
                names(old(seen)@),
                old(port_iri)@.map_values(|o: Option<String>| opt_view(o)),
                bi as int,
                subject@,
                ids@,
                ids@.len(),
                dir,
            );
            &&& names(final(seen)@) == v.0
            &&& final(port_iri)@.map_values(|o: Option<String>| opt_view(o)) == v.1
            &&& names(r@) == v.2
            &&& appends(old(diags)@, final(diags)@, v.3)
        }),
        final(port_iri)@.len() == g.connectors@.len(),
{
    let mut out: Vec<String> = Vec::new();
    proof {
        lemma_appends_none(diags@);
    }
    let mut k: usize = 0;
    while k < ids.len()
        invariant
            k <= ids@.len(),
            port_iri@.len() == g.connectors@.len(),
            ({
                let v = ports_v(
                    *g,
                    names(old(seen)@),
                    old(port_iri)@.map_values(|o: Option<String>| opt_view(o)),
                    bi as int,
                    subject@,
                    ids@,
                    k as nat,
                    dir,
                );
                &&& names(seen@) == v.0
                &&& port_iri@.map_values(|o: Option<String>| opt_view(o)) == v.1
                &&& names(out@) == v.2
                &&& appends(old(diags)@, diags@, v.3)
            }),
        decreases ids@.len() - k,
    {
        let ghost prev = ports_v(
            *g,
            names(old(seen)@),
            old(port_iri)@.map_values(|o: Option<String>| opt_view(o)),
            bi as int,
            subject@,
            ids@,
            k as nat,
            dir,
        );
        let ghost dk = diags@;
        let cid = ids[k];
        let idx = cid.0 as usize;
        let ok = idx < g.connectors.len() && g.connectors[idx].block.0 as usize == bi && g.connectors[idx].dir == dir
            && port_iri[idx].is_none();
        proof {
            if idx < g.connectors@.len() {
                assert(port_iri@.map_values(|o: Option<String>| opt_view(o))[idx as int] == opt_view(port_iri@[idx as int]));
            }
        }
        if ok {
        let minted: String = if dir == Dir::In && contains_cid(&g.external_inputs, cid) {
            let mut m = owned(subject);
            push_str(&mut m, ".in");
            push_str(&mut m, decimal_string(k).as_str());
            m
        } else {
            assert(idx < g.connectors@.len());
            match &g.connectors[idx].iri {
                Some(i) => owned(i.as_str()),
                None => {
                    let mut m = owned(subject);
                    push_str(&mut m, if dir == Dir::In {
                        ".in"
                    } else {
                        ".out"
                    });
                    push_str(&mut m, decimal_string(k).as_str());
                    m
                },
            }
        };
        assert(minted@ == minted_v(*g, subject@, cid, k as int, dir));
            let ghost p0 = port_iri@;
            port_iri.set(idx, Some(owned(minted.as_str())));
            proof {
                assert(port_iri@.map_values(|o: Option<String>| opt_view(o)) =~= prev.1.update(idx as int, Some(minted@)));
            }
            claim_emitted_id(seen, minted.as_str(), subject, diags);
            proof {
                let c = claim_v(prev.0, minted@, subject@);
                lemma_appends_trans(old(diags)@, dk, diags@, prev.3, c.1);
            }
            let ghost o0 = names(out@);
            out.push(minted);
            assert(names(out@) =~= o0.push(minted_v(*g, subject@, cid, k as int, dir)));
        } else {
            let d = reject(msg_text(ExportMsg::Structure), subject);
            proof {
                let f = reject_v(msg_spec(ExportMsg::Structure), subject@);
                lemma_appends_one(diags@, d, f);
                lemma_appends_trans(old(diags)@, dk, diags@.push(d), prev.3, seq![f]);
                assert(prev.3 + seq![f] =~= prev.3.push(f));
            }
            diags.push(d);
        }
        k += 1;
    }
    out
}


/// The class IRI emitted as a block's `@type`.
pub open spec fn type_iri_v(class: Seq<char>) -> Seq<char> {
    class_iri_base() + OBC_PREFIX@ + class
}

/// The class path cannot round-trip through the class-IRI bridge: it already carries the OBC
/// prefix, or the bridge reads the emitted `@type` back as another path.
pub open spec fn bridge_broken(class: Seq<char>) -> bool {
    seq_starts_with(class, OBC_PREFIX@) || class_path_spec(type_iri_v(class), OBC_PREFIX@) != class
}

/// A block's diagnostic subject when planning: its instance IRI, else `block#<position>`.
pub open spec fn plan_subject(b: BlockInstance, bi: int) -> Seq<char> {
    match b.instance_iri {
        Some(i) => i@,
        None => block_tag(bi),
    }
}

/// Plan block `bi`: a deferred or reserved pass-through block contributes nothing. Otherwise
/// its `@id` is claimed, its class must survive the bridge, and its parameters, inputs and
/// outputs are planned in turn.
pub open spec fn block_step_v(g: ModelGraph, deferred: Seq<usize>, s: PlanS, bi: int) -> (PlanS, Seq<Finding>) {
    let b = g.blocks@[bi];
    if deferred.contains(bi as usize) || pass_through_type(b.class_iri@) is Some {
        (s, seq![])
    } else {
        let subject = plan_subject(b, bi);
        let f0: Seq<Finding> = if b.instance_iri is None {
            seq![reject_v(msg_spec(ExportMsg::NoInstanceIri), subject)]
        } else {
            seq![]
        };
        let (seen1, f1) = claim_v(s.seen, subject, subject);
        let type_iri = type_iri_v(b.class_iri@);
        let f2: Seq<Finding> = if bridge_broken(b.class_iri@) {
            seq![reject_v(msg_spec(ExportMsg::ClassBridge), subject)]
        } else {
            seq![]
        };
        let (seen3, params, f3) = params_v(seen1, b.params.values@, b.params.values@.len(), subject);
        let (seen4, pi4, ins, f4) = ports_v(g, seen3, s.port_iri, bi, subject, b.inputs@, b.inputs@.len(), Dir::In);
        let (seen5, pi5, outs, f5) = ports_v(g, seen4, pi4, bi, subject, b.outputs@, b.outputs@.len(), Dir::Out);
        (
            PlanS {
                seen: seen5,
                port_iri: pi5,
                blocks: s.blocks.push(
                    BlockV { iri: subject, type_iri, params, input_ports: ins, output_ports: outs },
                ),
            },
            f0 + f1 + f2 + f3 + f4 + f5,
        )
    }
}

/// The planning state before any block: only the root's `@id` is claimed.
pub open spec fn initial_plan(g: ModelGraph) -> PlanS {
    PlanS {
        seen: seq![export_root_iri()],
        port_iri: Seq::new(g.connectors@.len(), |i: int| None::<Seq<char>>),
        blocks: seq![],
    }
}

/// Plan the first `k` blocks in order.
pub open spec fn blocks_v(g: ModelGraph, deferred: Seq<usize>, k: nat) -> (PlanS, Seq<Finding>)
    decreases k,
{
    if k == 0 || k > g.blocks@.len() {
        (initial_plan(g), seq![])
    } else {
        let (s, f) = blocks_v(g, deferred, (k - 1) as nat);
        let (s2, f2) = block_step_v(g, deferred, s, k - 1);
        (s2, f + f2)
    }
}

fn contains_usize(v: &Vec<usize>, x: usize) -> (b: bool)
    ensures
        b == v@.contains(x),
{
    let mut i: usize = 0;
    while i < v.len()
        invariant
            i <= v@.len(),
            forall|j: int| 0 <= j < i ==> v@[j] != x,
        decreases v@.len() - i,
    {
        if v[i] == x {
            return true;
        }
        i += 1;
    }
    false
}

fn plan_block(
    g: &ModelGraph,
    deferred: &Vec<usize>,
    bi: usize,
    st: &mut PlanState,
    diags: &mut Vec<Diagnostic>,
)
    requires
        bi < g.blocks@.len(),
        old(st).port_iri@.len() == g.connectors@.len(),
    ensures
        final(st).port_iri@.len() == g.connectors@.len(),
        forall|s: PlanS|
            old(st).is(s) ==> ({
                let r = block_step_v(*g, deferred@, s, bi as int);
                &&& final(st).is(r.0)
                &&& appends(old(diags)@, final(diags)@, r.1)
            }),
{
    let block = &g.blocks[bi];
    if contains_usize(deferred, bi) || is_pass_through_class(block.class_iri.as_str()) {
        proof {
            lemma_appends_none(diags@);
        }
        return;
    }
    let ghost d0 = diags@;
    let subject: String = match &block.instance_iri {
        Some(iri) => {
            proof {
                lemma_appends_none(diags@);
            }
            owned(iri.as_str())
        },
        None => {
            let mut t = owned("block#");
            push_str(&mut t, decimal_string(bi).as_str());
            let d = reject(msg_text(ExportMsg::NoInstanceIri), t.as_str());
            proof {
                lemma_appends_one(diags@, d, reject_v(msg_spec(ExportMsg::NoInstanceIri), t@));
            }
            diags.push(d);
            t
        },
    };
    let ghost d1 = diags@;
    let ghost seen0 = names(st.seen@);
    claim_emitted_id(&mut st.seen, subject.as_str(), subject.as_str(), diags);
    let ghost d2 = diags@;
    let mut type_iri = owned("http://example.org#");
    push_str(&mut type_iri, OBC_PREFIX);
    push_str(&mut type_iri, block.class_iri.as_str());
    let class_chars = chars_of(block.class_iri.as_str());
    let prefix_chars = chars_of(OBC_PREFIX);
    let broken = starts_with(class_chars.as_slice(), prefix_chars.as_slice()) || !str_eq(
        class_path_of(type_iri.as_str()),
        block.class_iri.as_str(),
    );
    proof {
        reveal_strlit("http://example.org#");
    }
    if broken {
        let d = reject(msg_text(ExportMsg::ClassBridge), subject.as_str());
        proof {
            lemma_appends_one(diags@, d, reject_v(msg_spec(ExportMsg::ClassBridge), subject@));
        }
        diags.push(d);
    } else {
        proof {
            lemma_appends_none(diags@);
        }
    }
    let ghost d3 = diags@;
    let params = plan_params(&block.params.values, subject.as_str(), &mut st.seen, diags);
    let ghost d4 = diags@;
    let ghost pi0 = st.port_iri@.map_values(|o: Option<String>| opt_view(o));
    let inputs = plan_ports(g, bi, subject.as_str(), &block.inputs, Dir::In, &mut st.seen, &mut st.port_iri, diags);
    let ghost d5 = diags@;
    let outputs = plan_ports(g, bi, subject.as_str(), &block.outputs, Dir::Out, &mut st.seen, &mut st.port_iri, diags);
    let ghost d6 = diags@;
    let ghost b = g.blocks@[bi as int];
    let ghost nb = BlockV {
        iri: subject@,
        type_iri: type_iri@,
        params: params_v(
            claim_v(seen0, subject@, subject@).0,
            b.params.values@,
            b.params.values@.len(),
            subject@,
        ).1,
        input_ports: names(inputs@),
        output_ports: names(outputs@),
    };
    let ghost nblocks = st.blocks@;
    st.blocks.push(PlannedBlock { iri: subject, type_iri, params, input_ports: inputs, output_ports: outputs });
    proof {
        assert(st.blocks@.last() == st.blocks@[st.blocks@.len() - 1]);
        assert forall|s: PlanS| old(st).is(s) implies ({
            let r = block_step_v(*g, deferred@, s, bi as int);
            &&& st.is(r.0)
            &&& appends(old(diags)@, diags@, r.1)
        }) by {
            let r = block_step_v(*g, deferred@, s, bi as int);
            let subj = plan_subject(b, bi as int);
            assert(subj == subject@);
            let f0: Seq<Finding> = if b.instance_iri is None {
                seq![reject_v(msg_spec(ExportMsg::NoInstanceIri), subj)]
            } else {
                seq![]
            };
            let (seen1, f1) = claim_v(s.seen, subj, subj);
            let f2: Seq<Finding> = if bridge_broken(b.class_iri@) {
                seq![reject_v(msg_spec(ExportMsg::ClassBridge), subj)]
            } else {
                seq![]
            };
            let (seen3, ps, f3) = params_v(seen1, b.params.values@, b.params.values@.len(), subj);
            let (seen4, pi4, ins, f4) = ports_v(*g, seen3, s.port_iri, bi as int, subj, b.inputs@, b.inputs@.len(), Dir::In);
            let (seen5, pi5, outs, f5) = ports_v(*g, seen4, pi4, bi as int, subj, b.outputs@, b.outputs@.len(), Dir::Out);
            lemma_appends_trans(old(diags)@, d1, d2, f0, f1);
            lemma_appends_trans(old(diags)@, d2, d3, f0 + f1, f2);
            lemma_appends_trans(old(diags)@, d3, d4, f0 + f1 + f2, f3);
            lemma_appends_trans(old(diags)@, d4, d5, f0 + f1 + f2 + f3, f4);
            lemma_appends_trans(old(diags)@, d5, d6, f0 + f1 + f2 + f3 + f4, f5);
            assert(st.blocks@ == nblocks.push(st.blocks@.last()));
            assert forall|i: int| 0 <= i < r.0.blocks.len() implies block_is(#[trigger] st.blocks@[i], r.0.blocks[i]) by {
                if i < nblocks.len() {
                    assert(st.blocks@[i] == old(st).blocks@[i]);
                }
            }
        }
    }
}


fn plan_blocks(g: &ModelGraph, deferred: &Vec<usize>, diags: &mut Vec<Diagnostic>) -> (st: PlanState)
    ensures
        st.port_iri@.len() == g.connectors@.len(),
        st.is(blocks_v(*g, deferred@, g.blocks@.len()).0),
        appends(old(diags)@, final(diags)@, blocks_v(*g, deferred@, g.blocks@.len()).1),
{
    let mut seen: Vec<String> = Vec::new();
    seen.push(owned("urn:open-control:cxf-export:root"));
    let mut port_iri: Vec<Option<String>> = Vec::new();
    let mut i: usize = 0;
    while i < g.connectors.len()
        invariant
            i <= g.connectors@.len(),
            port_iri@.len() == i,
            forall|j: int| 0 <= j < i ==> (#[trigger] port_iri@[j]) is None,
        decreases g.connectors@.len() - i,
    {
        port_iri.push(None);
        i += 1;
    }
    let mut st = PlanState { seen, port_iri, blocks: Vec::new() };
    proof {
        reveal_strlit("urn:open-control:cxf-export:root");
        assert(names(st.seen@) =~= seq![export_root_iri()]);
        assert(st.port_iri@.map_values(|o: Option<String>| opt_view(o)) =~= initial_plan(*g).port_iri);
        assert(st.is(initial_plan(*g)));
        lemma_appends_none(diags@);
    }
    let mut bi: usize = 0;
    while bi < g.blocks.len()
        invariant
            bi <= g.blocks@.len(),
            st.port_iri@.len() == g.connectors@.len(),
            st.is(blocks_v(*g, deferred@, bi as nat).0),
            appends(old(diags)@, diags@, blocks_v(*g, deferred@, bi as nat).1),
        decreases g.blocks@.len() - bi,
    {
        let ghost prev = blocks_v(*g, deferred@, bi as nat);
        let ghost dk = diags@;
        plan_block(g, deferred, bi, &mut st, diags);
        proof {
            let r = block_step_v(*g, deferred@, prev.0, bi as int);
            lemma_appends_trans(old(diags)@, dk, diags@, prev.1, r.1);
        }
        bi += 1;
    }
    st
}

/// A reserved pass-through block that cannot be planned is rejected about itself.
pub open spec fn reserved_findings(g: ModelGraph, k: nat) -> Seq<Finding>
    decreases k,
{
    if k == 0 || k > g.blocks@.len() {
        seq![]
    } else {
        reserved_findings(g, (k - 1) as nat) + if pass_through_type(g.blocks@[k - 1].class_iri@) is Some
            && !(wiring_shape_ok(g, k - 1) && endpoint_shape_ok(g, k - 1) && boundary_iris_ok(g, k - 1)) {
            seq![reject_v(msg_spec(ExportMsg::Structure), block_subject_spec(g, k - 1))]
        } else {
            seq![]
        }
    }
}

/// The block a connector names is a reserved pass-through block.
pub open spec fn owner_reserved(g: ModelGraph, c: Connector) -> bool {
    (c.block.0 as int) < g.blocks@.len() && pass_through_type(g.blocks@[c.block.0 as int].class_iri@) is Some
}

/// Every connector of a surviving, ordinary block that no block claimed is rejected about
/// its owner.
pub open spec fn orphan_findings(g: ModelGraph, deferred: Seq<usize>, port_iri: Seq<Option<Seq<char>>>, k: nat) -> Seq<
    Finding,
>
    decreases k,
{
    if k == 0 || k > g.connectors@.len() {
        seq![]
    } else {
        let c = g.connectors@[k - 1];
        orphan_findings(g, deferred, port_iri, (k - 1) as nat) + if !deferred.contains(c.block.0 as usize)
            && !owner_reserved(g, c) && port_iri[k - 1] is None {
            seq![reject_v(msg_spec(ExportMsg::Structure), owner_subject_v(g, c, k - 1))]
        } else {
            seq![]
        }
    }
}

fn plan_reserved(g: &ModelGraph, diags: &mut Vec<Diagnostic>)
    ensures
        appends(old(diags)@, final(diags)@, reserved_findings(*g, g.blocks@.len())),
{
    proof {
        lemma_appends_none(diags@);
    }
    let mut bi: usize = 0;
    while bi < g.blocks.len()
        invariant
            bi <= g.blocks@.len(),
            appends(old(diags)@, diags@, reserved_findings(*g, bi as nat)),
        decreases g.blocks@.len() - bi,
    {
        if is_pass_through_class(g.blocks[bi].class_iri.as_str()) && !has_plannable_shape(g, bi) {
            let subject = export_block_subject(g, bi);
            let d = reject(msg_text(ExportMsg::Structure), subject.as_str());
            proof {
                let f = reject_v(msg_spec(ExportMsg::Structure), block_subject_spec(*g, bi as int));
                lemma_appends_one(diags@, d, f);
                lemma_appends_trans(old(diags)@, diags@, diags@.push(d), reserved_findings(*g, bi as nat), seq![f]);
            }
            diags.push(d);
        }
        bi += 1;
    }
}

fn plan_orphans(g: &ModelGraph, deferred: &Vec<usize>, port_iri: &Vec<Option<String>>, diags: &mut Vec<Diagnostic>)
    requires
        port_iri@.len() == g.connectors@.len(),
    ensures
        appends(
            old(diags)@,
            final(diags)@,
            orphan_findings(*g, deferred@, port_iri@.map_values(|o: Option<String>| opt_view(o)), g.connectors@.len()),
        ),
{
    let ghost pv = port_iri@.map_values(|o: Option<String>| opt_view(o));
    proof {
        lemma_appends_none(diags@);
    }
    let mut i: usize = 0;
    while i < g.connectors.len()
        invariant
            i <= g.connectors@.len(),
            port_iri@.len() == g.connectors@.len(),
            pv == port_iri@.map_values(|o: Option<String>| opt_view(o)),
            appends(old(diags)@, diags@, orphan_findings(*g, deferred@, pv, i as nat)),
        decreases g.connectors@.len() - i,
    {
        let c = &g.connectors[i];
        let bi = c.block.0 as usize;
        let reserved = bi < g.blocks.len() && is_pass_through_class(g.blocks[bi].class_iri.as_str());
        assert(pv[i as int] == opt_view(port_iri@[i as int]));
        if !contains_usize(deferred, bi) && !reserved && port_iri[i].is_none() {
            let subject = owner_subject(g, c, i);
            let d = reject(msg_text(ExportMsg::Structure), subject.as_str());
            proof {
                let f = reject_v(msg_spec(ExportMsg::Structure), owner_subject_v(*g, *c, i as int));
                lemma_appends_one(diags@, d, f);
                lemma_appends_trans(old(diags)@, diags@, diags@.push(d), orphan_findings(*g, deferred@, pv, i as nat), seq![f]);
            }
            diags.push(d);
        }
        i += 1;
    }
}

fn export_block_subject(g: &ModelGraph, bi: usize) -> (r: String)
    ensures
        r@ == block_subject_spec(*g, bi as int),
{
    if bi < g.blocks.len() {
        if let Some(iri) = &g.blocks[bi].instance_iri {
            return owned(iri.as_str());
        }
    }
    let mut s = owned("block#");
    push_str(&mut s, decimal_string(bi).as_str());
    s
}

// ---- connector-level checks ----

/// The `isOfDataType` term of a value type; an out-of-subset type takes the Real placeholder.
pub open spec fn datatype_v(vt: ValueType) -> Seq<char> {
    match vt {
        ValueType::Integer => "S231:Integer"@,
        ValueType::Boolean => "S231:Boolean"@,
        _ => "S231:Real"@,
    }
}

/// The rejections of connector `i`: a String or enumeration type, then its attributes (a tag
/// that does not match the type is structural); none on a deferred block.
pub open spec fn connector_findings_v(g: ModelGraph, deferred: Seq<usize>, i: int) -> Seq<Finding> {
    let c = g.connectors@[i];
    let subject = owner_subject_v(g, c, i);
    if deferred.contains(c.block.0 as usize) {
        seq![]
    } else {
        (match c.value_type {
            ValueType::String => seq![reject_v(msg_spec(ExportMsg::StringConnector), subject)],
            ValueType::Enum(_) => seq![reject_v(msg_spec(ExportMsg::EnumConnector), subject)],
            _ => seq![],
        }) + if attrs_match(c.attrs, c.value_type) {
            attr_findings(c.attrs, subject)
        } else {
            seq![reject_v(msg_spec(ExportMsg::Structure), subject)]
        }
    }
}

/// The rejections of the first `k` connectors.
pub open spec fn connectors_findings(g: ModelGraph, deferred: Seq<usize>, k: nat) -> Seq<Finding>
    decreases k,
{
    if k == 0 || k > g.connectors@.len() {
        seq![]
    } else {
        connectors_findings(g, deferred, (k - 1) as nat) + connector_findings_v(g, deferred, k - 1)
    }
}

/// `p` is what classification keeps of connector `i`'s attributes: nothing on a deferred block
/// or for a mismatched tag.
pub open spec fn port_attrs_ok(g: ModelGraph, deferred: Seq<usize>, i: int, p: PortAttrs) -> bool {
    let c = g.connectors@[i];
    if !deferred.contains(c.block.0 as usize) && attrs_match(c.attrs, c.value_type) {
        classified_ok(c.attrs, p)
    } else {
        p is Empty
    }
}

fn datatype_text(vt: ValueType) -> (r: &'static str)
    ensures
        r@ == datatype_v(vt),
{
    match vt {
        ValueType::Integer => "S231:Integer",
        ValueType::Boolean => "S231:Boolean",
        _ => "S231:Real",
    }
}

fn attrs_match_exec(a: &Attrs, vt: ValueType) -> (b: bool)
    ensures
        b == attrs_match(*a, vt),
{
    match (a, vt) {
        (Attrs::Real(_), ValueType::Real) => true,
        (Attrs::Integer(_), ValueType::Integer) => true,
        (Attrs::Boolean, ValueType::Boolean) => true,
        (Attrs::String, ValueType::String) => true,
        (Attrs::Enum, ValueType::Enum(_)) => true,
        _ => false,
    }
}

/// Check every connector: its datatype term and its classified attributes, by position.
fn plan_connectors(g: &ModelGraph, deferred: &Vec<usize>, diags: &mut Vec<Diagnostic>) -> (r: (Vec<&'static str>, Vec<PortAttrs>))
    ensures
        r.0@.len() == g.connectors@.len(),
        r.1@.len() == g.connectors@.len(),
        forall|i: int| 0 <= i < g.connectors@.len() ==> (#[trigger] r.0@[i])@ == datatype_v(g.connectors@[i].value_type),
        forall|i: int| 0 <= i < g.connectors@.len() ==> port_attrs_ok(*g, deferred@, i, #[trigger] r.1@[i]),
        appends(old(diags)@, final(diags)@, connectors_findings(*g, deferred@, g.connectors@.len())),
{
    let mut datatypes: Vec<&'static str> = Vec::new();
    let mut classified: Vec<PortAttrs> = Vec::new();
    proof {
        lemma_appends_none(diags@);
    }
    let mut i: usize = 0;
    while i < g.connectors.len()
        invariant
            i <= g.connectors@.len(),
            datatypes@.len() == i,
            classified@.len() == i,
            forall|j: int| 0 <= j < i ==> (#[trigger] datatypes@[j])@ == datatype_v(g.connectors@[j].value_type),
            forall|j: int| 0 <= j < i ==> port_attrs_ok(*g, deferred@, j, #[trigger] classified@[j]),
            appends(old(diags)@, diags@, connectors_findings(*g, deferred@, i as nat)),
        decreases g.connectors@.len() - i,
    {
        let c = &g.connectors[i];
        let subject = owner_subject(g, c, i);
        let is_deferred = contains_usize(deferred, c.block.0 as usize);
        let ghost d0 = diags@;
        let ghost tf: Seq<Finding> = match c.value_type {
            ValueType::String => seq![reject_v(msg_spec(ExportMsg::StringConnector), subject@)],
            ValueType::Enum(_) => seq![reject_v(msg_spec(ExportMsg::EnumConnector), subject@)],
            _ => seq![],
        };
        match c.value_type {
            ValueType::String => {
                if !is_deferred {
                    let d = reject(msg_text(ExportMsg::StringConnector), subject.as_str());
                    proof {
                        lemma_appends_one(diags@, d, reject_v(msg_spec(ExportMsg::StringConnector), subject@));
                    }
                    diags.push(d);
                } else {
                    proof {
                        lemma_appends_none(diags@);
                    }
                }
            },
            ValueType::Enum(_) => {
                if !is_deferred {
                    let d = reject(msg_text(ExportMsg::EnumConnector), subject.as_str());
                    proof {
                        lemma_appends_one(diags@, d, reject_v(msg_spec(ExportMsg::EnumConnector), subject@));
                    }
                    diags.push(d);
                } else {
                    proof {
                        lemma_appends_none(diags@);
                    }
                }
            },
            _ => {
                proof {
                    lemma_appends_none(diags@);
                }
            },
        }
        datatypes.push(datatype_text(c.value_type));
        let ghost d1 = diags@;
        let attrs = if is_deferred {
            proof {
                lemma_appends_none(diags@);
            }
            PortAttrs::Empty
        } else if attrs_match_exec(&c.attrs, c.value_type) {
            classify_attrs(&c.attrs, subject.as_str(), diags)
        } else {
            let d = reject(msg_text(ExportMsg::Structure), subject.as_str());
            proof {
                lemma_appends_one(diags@, d, reject_v(msg_spec(ExportMsg::Structure), subject@));
            }
            diags.push(d);
            PortAttrs::Empty
        };
        classified.push(attrs);
        proof {
            let af: Seq<Finding> = if is_deferred {
                seq![]
            } else if attrs_match(c.attrs, c.value_type) {
                attr_findings(c.attrs, subject@)
            } else {
                seq![reject_v(msg_spec(ExportMsg::Structure), subject@)]
            };
            let tf2: Seq<Finding> = if is_deferred { seq![] } else { tf };
            lemma_appends_trans(d0, d1, diags@, tf2, af);
            if is_deferred {
                assert(tf2 + af =~= seq![]);
            }
            assert(connector_findings_v(*g, deferred@, i as int) == tf2 + af);
            lemma_appends_trans(old(diags)@, d0, diags@, connectors_findings(*g, deferred@, i as nat), tf2 + af);
            assert(classified@[i as int] == attrs);
        }
        i += 1;
    }
    (datatypes, classified)
}


// ---- connections ----

/// The per-connector edge state: the target `@id`s each output drives, and which inputs are
/// driven once and which more than once.
pub struct EdgeS {
    pub targets: Seq<Seq<Seq<char>>>,
    pub driven: Seq<bool>,
    pub multiply: Seq<bool>,
}

/// The edge state before any connection.
pub open spec fn initial_edges(n: nat) -> EdgeS {
    EdgeS {
        targets: Seq::new(n, |i: int| Seq::<Seq<char>>::empty()),
        driven: Seq::new(n, |i: int| false),
        multiply: Seq::new(n, |i: int| false),
    }
}

/// The subject of a misdirected connection: its source's owner when the source exists, else
/// its target's, else none.
pub open spec fn edge_subject(g: ModelGraph, f: int, t: int) -> Option<Seq<char>> {
    let n = g.connectors@.len();
    if f < n {
        Some(owner_subject_v(g, g.connectors@[f], f))
    } else if t < n {
        Some(owner_subject_v(g, g.connectors@[t], t))
    } else {
        None
    }
}

/// Record the first `k` connections: one that is not output→input is rejected; one whose
/// source's owner is deferred is dropped; one whose target was never claimed is dropped;
/// every other adds its target's `@id` to the source and marks the target driven (twice
/// driven from the second arrival on).
pub open spec fn edges_v(g: ModelGraph, deferred: Seq<usize>, port_iri: Seq<Option<Seq<char>>>, k: nat) -> (EdgeS, Seq<Finding>)
    decreases k,
{
    if k == 0 || k > g.connections@.len() {
        (initial_edges(g.connectors@.len()), seq![])
    } else {
        let (e, fs) = edges_v(g, deferred, port_iri, (k - 1) as nat);
        let conn = g.connections@[k - 1];
        let f = conn.from.0 as int;
        let t = conn.to.0 as int;
        let n = g.connectors@.len();
        if !(f < n && g.connectors@[f].dir == Dir::Out && t < n && g.connectors@[t].dir == Dir::In) {
            (e, fs.push((DiagCode::ExportUnsupported, msg_spec(ExportMsg::Structure), edge_subject(g, f, t))))
        } else if deferred.contains(g.connectors@[f].block.0 as usize) {
            (e, fs)
        } else {
            match port_iri[t] {
                Some(to) => (
                    EdgeS {
                        targets: e.targets.update(f, e.targets[f].push(to)),
                        driven: e.driven.update(t, true),
                        multiply: if e.driven[t] {
                            e.multiply.update(t, true)
                        } else {
                            e.multiply
                        },
                    },
                    fs,
                ),
                None => (e, fs),
            }
        }
    }
}

/// The edge state, held in executable form.
pub open spec fn edges_is(targets: Seq<Vec<String>>, driven: Seq<bool>, multiply: Seq<bool>, e: EdgeS) -> bool {
    &&& targets.len() == e.targets.len()
    &&& forall|i: int| 0 <= i < targets.len() ==> names(#[trigger] targets[i]@) == e.targets[i]
    &&& driven == e.driven
    &&& multiply == e.multiply
}

fn plan_edges(g: &ModelGraph, deferred: &Vec<usize>, port_iri: &Vec<Option<String>>, diags: &mut Vec<Diagnostic>) -> (r: (
    Vec<Vec<String>>,
    Vec<bool>,
    Vec<bool>,
))
    requires
        port_iri@.len() == g.connectors@.len(),
    ensures
        ({
            let v = edges_v(*g, deferred@, port_iri@.map_values(|o: Option<String>| opt_view(o)), g.connections@.len());
            &&& edges_is(r.0@, r.1@, r.2@, v.0)
            &&& appends(old(diags)@, final(diags)@, v.1)
        }),
{
    let n = g.connectors.len();
    let ghost pv = port_iri@.map_values(|o: Option<String>| opt_view(o));
    let mut targets: Vec<Vec<String>> = Vec::new();
    let mut driven: Vec<bool> = Vec::new();
    let mut multiply: Vec<bool> = Vec::new();
    let mut i: usize = 0;
    while i < n
        invariant
            n == g.connectors@.len(),
            i <= n,
            targets@.len() == i,
            driven@.len() == i,
            multiply@.len() == i,
            forall|j: int| 0 <= j < i ==> (#[trigger] targets@[j])@.len() == 0,
            forall|j: int| 0 <= j < i ==> !(#[trigger] driven@[j]),
            forall|j: int| 0 <= j < i ==> !(#[trigger] multiply@[j]),
        decreases n - i,
    {
        targets.push(Vec::new());
        driven.push(false);
        multiply.push(false);
        i += 1;
    }
    proof {
        let e = initial_edges(n as nat);
        assert forall|j: int| 0 <= j < targets@.len() implies names(#[trigger] targets@[j]@) == e.targets[j] by {
            assert(names(targets@[j]@) =~= seq![]);
        }
        assert(driven@ =~= e.driven);
        assert(multiply@ =~= e.multiply);
        lemma_appends_none(diags@);
    }
    let mut k: usize = 0;
    while k < g.connections.len()
        invariant
            n == g.connectors@.len(),
            port_iri@.len() == n,
            pv == port_iri@.map_values(|o: Option<String>| opt_view(o)),
            k <= g.connections@.len(),
            targets@.len() == n,
            driven@.len() == n,
            multiply@.len() == n,
            ({
                let v = edges_v(*g, deferred@, pv, k as nat);
                &&& edges_is(targets@, driven@, multiply@, v.0)
                &&& appends(old(diags)@, diags@, v.1)
            }),
        decreases g.connections@.len() - k,
    {
        let ghost prev = edges_v(*g, deferred@, pv, k as nat);
        let conn = g.connections[k];
        let f = conn.from.0 as usize;
        let t = conn.to.0 as usize;
        let ok = f < n && g.connectors[f].dir == Dir::Out && t < n && g.connectors[t].dir == Dir::In;
        if !ok {
            let d = if f < n {
                let subject = owner_subject(g, &g.connectors[f], f);
                reject(msg_text(ExportMsg::Structure), subject.as_str())
            } else if t < n {
                let subject = owner_subject(g, &g.connectors[t], t);
                reject(msg_text(ExportMsg::Structure), subject.as_str())
            } else {
                reject_whole(msg_text(ExportMsg::Structure))
            };
            proof {
                let fd = (DiagCode::ExportUnsupported, msg_spec(ExportMsg::Structure), edge_subject(*g, f as int, t as int));
                lemma_appends_one(diags@, d, fd);
                lemma_appends_trans(old(diags)@, diags@, diags@.push(d), prev.1, seq![fd]);
                assert(prev.1 + seq![fd] =~= prev.1.push(fd));
            }
            diags.push(d);
        } else if contains_usize(deferred, g.connectors[f].block.0 as usize) {
        } else {
            assert(pv[t as int] == opt_view(port_iri@[t as int]));
            match &port_iri[t] {
                Some(to) => {
                    let ghost t0 = targets@;
                    let ghost l0 = targets@[f as int]@;
                    targets[f].push(owned(to.as_str()));
                    let was = driven[t];
                    driven.set(t, true);
                    if was {
                        multiply.set(t, true);
                    }
                    proof {
                        let v = edges_v(*g, deferred@, pv, (k + 1) as nat);
                        assert forall|j: int| 0 <= j < targets@.len() implies names(#[trigger] targets@[j]@) == v.0.targets[j] by {
                            if j == f as int {
                                assert(names(targets@[j]@) =~= names(l0).push(to@));
                            } else {
                                assert(targets@[j] == t0[j]);
                            }
                        }
                    }
                },
                None => {},
            }
        }
        k += 1;
    }
    (targets, driven, multiply)
}

/// A root boundary output, planned.
pub struct PlannedBoundaryOutput {
    pub iri: String,
    pub datatype: String,
}

/// Plan the first `k` root boundary outputs: a source out of range is rejected; a source that
/// is not an output is rejected about its owner; a deferred or unclaimed source drops the
/// entry; any other claims the boundary `@id`, adds it to its source's targets, and is emitted
/// with its source's datatype.
pub open spec fn bouts_v(
    g: ModelGraph,
    deferred: Seq<usize>,
    port_iri: Seq<Option<Seq<char>>>,
    seen: Seq<Seq<char>>,
    targets: Seq<Seq<Seq<char>>>,
    k: nat,
) -> (Seq<Seq<char>>, Seq<Seq<Seq<char>>>, Seq<(Seq<char>, Seq<char>)>, Seq<Finding>)
    decreases k,
{
    if k == 0 || k > g.boundary_outputs@.len() {
        (seen, targets, seq![], seq![])
    } else {
        let (s1, t1, outs, fs) = bouts_v(g, deferred, port_iri, seen, targets, (k - 1) as nat);
        let output = g.boundary_outputs@[k - 1];
        let idx = output.source.0 as int;
        if idx >= g.connectors@.len() {
            (s1, t1, outs, fs.push(whole_v(msg_spec(ExportMsg::Structure))))
        } else {
            let source = g.connectors@[idx];
            let subject = owner_subject_v(g, source, idx);
            if source.dir != Dir::Out {
                (s1, t1, outs, fs.push(reject_v(msg_spec(ExportMsg::Structure), subject)))
            } else if deferred.contains(source.block.0 as usize) || port_iri[idx] is None {
                (s1, t1, outs, fs)
            } else {
                let (s2, f2) = claim_v(s1, output.iri@, subject);
                (
                    s2,
                    t1.update(idx, t1[idx].push(output.iri@)),
                    outs.push((output.iri@, datatype_v(source.value_type))),
                    fs + f2,
                )
            }
        }
    }
}

fn plan_boundary_outputs(
    g: &ModelGraph,
    deferred: &Vec<usize>,
    port_iri: &Vec<Option<String>>,
    seen: &mut Vec<String>,
    targets: &mut Vec<Vec<String>>,
    diags: &mut Vec<Diagnostic>,
) -> (r: Vec<PlannedBoundaryOutput>)
    requires
        port_iri@.len() == g.connectors@.len(),
        old(targets)@.len() == g.connectors@.len(),
    ensures
        final(targets)@.len() == g.connectors@.len(),
        ({
            let v = bouts_v(
                *g,
                deferred@,
                port_iri@.map_values(|o: Option<String>| opt_view(o)),
                names(old(seen)@),
                old(targets)@.map_values(|l: Vec<String>| names(l@)),
                g.boundary_outputs@.len(),
            );
            &&& names(final(seen)@) == v.0
            &&& final(targets)@.map_values(|l: Vec<String>| names(l@)) == v.1
            &&& r@.map_values(|b: PlannedBoundaryOutput| (b.iri@, b.datatype@)) == v.2
            &&& appends(old(diags)@, final(diags)@, v.3)
        }),
{
    let ghost pv = port_iri@.map_values(|o: Option<String>| opt_view(o));
    let ghost t0 = old(targets)@.map_values(|l: Vec<String>| names(l@));
    let mut out: Vec<PlannedBoundaryOutput> = Vec::new();
    proof {
        lemma_appends_none(diags@);
    }
    let mut k: usize = 0;
    while k < g.boundary_outputs.len()
        invariant
            port_iri@.len() == g.connectors@.len(),
            targets@.len() == g.connectors@.len(),
            pv == port_iri@.map_values(|o: Option<String>| opt_view(o)),
            t0 == old(targets)@.map_values(|l: Vec<String>| names(l@)),
            k <= g.boundary_outputs@.len(),
            ({
                let v = bouts_v(*g, deferred@, pv, names(old(seen)@), t0, k as nat);
                &&& names(seen@) == v.0
                &&& targets@.map_values(|l: Vec<String>| names(l@)) == v.1
                &&& out@.map_values(|b: PlannedBoundaryOutput| (b.iri@, b.datatype@)) == v.2
                &&& appends(old(diags)@, diags@, v.3)
            }),
        decreases g.boundary_outputs@.len() - k,
    {
        let ghost prev = bouts_v(*g, deferred@, pv, names(old(seen)@), t0, k as nat);
        let ghost dk = diags@;
        let output = &g.boundary_outputs[k];
        let idx = output.source.0 as usize;
        if idx >= g.connectors.len() {
            let d = reject_whole(msg_text(ExportMsg::Structure));
            proof {
                let f = whole_v(msg_spec(ExportMsg::Structure));
                lemma_appends_one(diags@, d, f);
                lemma_appends_trans(old(diags)@, dk, diags@.push(d), prev.3, seq![f]);
                assert(prev.3 + seq![f] =~= prev.3.push(f));
            }
            diags.push(d);
        } else {
            let source = &g.connectors[idx];
            let subject = owner_subject(g, source, idx);
            assert(pv[idx as int] == opt_view(port_iri@[idx as int]));
            if source.dir != Dir::Out {
                let d = reject(msg_text(ExportMsg::Structure), subject.as_str());
                proof {
                    let f = reject_v(msg_spec(ExportMsg::Structure), subject@);
                    lemma_appends_one(diags@, d, f);
                    lemma_appends_trans(old(diags)@, dk, diags@.push(d), prev.3, seq![f]);
                    assert(prev.3 + seq![f] =~= prev.3.push(f));
                }
                diags.push(d);
            } else if contains_usize(deferred, source.block.0 as usize) || port_iri[idx].is_none() {
            } else {
                claim_emitted_id(seen, output.iri.as_str(), subject.as_str(), diags);
                proof {
                    let c = claim_v(prev.0, output.iri@, subject@);
                    lemma_appends_trans(old(diags)@, dk, diags@, prev.3, c.1);
                }
                let ghost tv = targets@;
                let ghost l0 = targets@[idx as int]@;
                targets[idx].push(owned(output.iri.as_str()));
                proof {
                    assert(targets@.map_values(|l: Vec<String>| names(l@)) =~= prev.1.update(
                        idx as int,
                        prev.1[idx as int].push(output.iri@),
                    )) by {
                        assert(names(l0) == prev.1[idx as int]);
                        assert forall|j: int| 0 <= j < targets@.len() implies #[trigger] names(targets@[j]@) == prev.1.update(
                            idx as int,
                            prev.1[idx as int].push(output.iri@),
                        )[j] by {
                            if j == idx as int {
                                assert(names(targets@[j]@) =~= names(l0).push(output.iri@));
                            } else {
                                assert(targets@[j] == tv[j]);
                            }
                        }
                    }
                }
                let ghost o0 = out@.map_values(|b: PlannedBoundaryOutput| (b.iri@, b.datatype@));
                out.push(PlannedBoundaryOutput { iri: owned(output.iri.as_str()), datatype: owned(datatype_text(source.value_type)) });
                assert(out@.map_values(|b: PlannedBoundaryOutput| (b.iri@, b.datatype@)) =~= o0.push(
                    (output.iri@, datatype_v(source.value_type)),
                ));
            }
        }
        k += 1;
    }
    out
}

/// One rejection per connector driven more than once, in connector order.
pub open spec fn multiply_findings(g: ModelGraph, multiply: Seq<bool>, k: nat) -> Seq<Finding>
    decreases k,
{
    if k == 0 || k > g.connectors@.len() {
        seq![]
    } else {
        multiply_findings(g, multiply, (k - 1) as nat) + if multiply[k - 1] {
            seq![reject_v(msg_spec(ExportMsg::MultiplyDriven), owner_subject_v(g, g.connectors@[k - 1], k - 1))]
        } else {
            seq![]
        }
    }
}

fn plan_multiply(g: &ModelGraph, multiply: &Vec<bool>, diags: &mut Vec<Diagnostic>)
    requires
        multiply@.len() == g.connectors@.len(),
    ensures
        appends(old(diags)@, final(diags)@, multiply_findings(*g, multiply@, g.connectors@.len())),
{
    proof {
        lemma_appends_none(diags@);
    }
    let mut i: usize = 0;
    while i < g.connectors.len()
        invariant
            multiply@.len() == g.connectors@.len(),
            i <= g.connectors@.len(),
            appends(old(diags)@, diags@, multiply_findings(*g, multiply@, i as nat)),
        decreases g.connectors@.len() - i,
    {
        if multiply[i] {
            let subject = owner_subject(g, &g.connectors[i], i);
            let d = reject(msg_text(ExportMsg::MultiplyDriven), subject.as_str());
            proof {
                let f = reject_v(msg_spec(ExportMsg::MultiplyDriven), subject@);
                lemma_appends_one(diags@, d, f);
                lemma_appends_trans(old(diags)@, diags@, diags@.push(d), multiply_findings(*g, multiply@, i as nat), seq![f]);
            }
            diags.push(d);
        }
        i += 1;
    }
}


// ---- boundary inputs ----

/// A planned boundary-input node: its stored IRI, datatype, and the ports it drives.
pub struct PlannedBoundary {
    pub iri: String,
    pub datatype: String,
    pub targets: Vec<String>,
}

/// A planned boundary input as a specification value.
pub struct BoundaryV {
    pub iri: Seq<char>,
    pub datatype: Seq<char>,
    pub targets: Seq<Seq<char>>,
}

/// Planned boundary inputs as specification values.
pub open spec fn boundaries_view(b: Seq<PlannedBoundary>) -> Seq<BoundaryV> {
    b.map_values(|x: PlannedBoundary| BoundaryV { iri: x.iri@, datatype: x.datatype@, targets: names(x.targets@) })
}

/// Planned boundary outputs as specification values.
pub open spec fn bouts_view(b: Seq<PlannedBoundaryOutput>) -> Seq<(Seq<char>, Seq<char>)> {
    b.map_values(|x: PlannedBoundaryOutput| (x.iri@, x.datatype@))
}

/// The position of the first boundary named `iri`, or `-1`.
pub open spec fn boundary_index(bs: Seq<BoundaryV>, iri: Seq<char>) -> int
    decreases bs.len(),
{
    if bs.len() == 0 {
        -1
    } else if boundary_index(bs.drop_last(), iri) >= 0 {
        boundary_index(bs.drop_last(), iri)
    } else if bs.last().iri == iri {
        bs.len() - 1
    } else {
        -1
    }
}

/// The output of the reserved pass-through block whose only input is `cid`, if `c`'s owner is
/// such a block with one output.
pub open spec fn pt_output(g: ModelGraph, c: Connector, cid: ConnectorId) -> Option<ConnectorId> {
    let bi = c.block.0 as int;
    if bi < g.blocks@.len() && pass_through_type(g.blocks@[bi].class_iri@) is Some && g.blocks@[bi].inputs@ == seq![cid]
        && g.blocks@[bi].outputs@.len() == 1 {
        Some(g.blocks@[bi].outputs@[0])
    } else {
        None
    }
}

/// The boundary-input planning state.
pub struct ExtS {
    pub seen: Seq<Seq<char>>,
    pub bouts: Seq<(Seq<char>, Seq<char>)>,
    pub boundaries: Seq<BoundaryV>,
    pub listed: Seq<usize>,
}

/// Where one boundary entry's driven target comes from, and what planning it raised.
pub open spec fn ext_target(g: ModelGraph, port_iri: Seq<Option<Seq<char>>>, st: ExtS, c: Connector, cid: ConnectorId, subject: Seq<char>) -> (
    ExtS,
    Option<Seq<char>>,
    Seq<Finding>,
) {
    let idx = cid.0 as int;
    let dt = datatype_v(c.value_type);
    match pt_output(g, c, cid) {
        Some(oid) => {
            let oi = oid.0 as int;
            if oi >= g.connectors@.len() {
                (st, None, seq![reject_v(msg_spec(ExportMsg::Structure), subject)])
            } else {
                let output = g.connectors@[oi];
                if output.dir != Dir::Out || output.block != c.block || datatype_v(output.value_type) != dt {
                    (st, None, seq![reject_v(msg_spec(ExportMsg::Structure), subject)])
                } else {
                    match output.iri {
                        None => (st, None, seq![reject_v(msg_spec(ExportMsg::ExternalIri), subject)]),
                        Some(o) => {
                            let (seen2, fc) = claim_v(st.seen, o@, subject);
                            (ExtS { seen: seen2, bouts: st.bouts.push((o@, dt)), ..st }, Some(o@), fc)
                        },
                    }
                }
            }
        },
        None => (st, port_iri[idx], seq![]),
    }
}

/// Plan one `external_inputs` entry: out of range, it is rejected; on a deferred block, it is
/// dropped; a repeat of a listed connector, a non-input, and an input without a boundary IRI
/// are rejected. Its target is the reserved block's output (emitted as a boundary output) or
/// its own claimed port; the entry joins the first boundary with its IRI when the datatypes
/// agree (a disagreement is rejected), or starts a new boundary whose `@id` is claimed.
pub open spec fn ext_step(g: ModelGraph, deferred: Seq<usize>, port_iri: Seq<Option<Seq<char>>>, st: ExtS, cid: ConnectorId) -> (
    ExtS,
    Seq<Finding>,
) {
    let idx = cid.0 as int;
    if idx >= g.connectors@.len() {
        (st, seq![whole_v(msg_spec(ExportMsg::Structure))])
    } else {
        let c = g.connectors@[idx];
        let subject = owner_subject_v(g, c, idx);
        if deferred.contains(c.block.0 as usize) {
            (st, seq![])
        } else if st.listed.contains(cid.0 as usize) {
            (st, seq![reject_v(msg_spec(ExportMsg::DuplicateExternalInput), subject)])
        } else {
            let st1 = ExtS { listed: st.listed.push(cid.0 as usize), ..st };
            if c.dir != Dir::In {
                (st1, seq![reject_v(msg_spec(ExportMsg::Structure), subject)])
            } else {
                match c.iri {
                    None => (st1, seq![reject_v(msg_spec(ExportMsg::ExternalIri), subject)]),
                    Some(b) => {
                        let dt = datatype_v(c.value_type);
                        let (st2, target, f2) = ext_target(g, port_iri, st1, c, cid, subject);
                        match target {
                            None => (st2, f2),
                            Some(t) => {
                                let j = boundary_index(st2.boundaries, b@);
                                if j >= 0 {
                                    if st2.boundaries[j].datatype != dt {
                                        (st2, f2.push(reject_v(msg_spec(ExportMsg::BoundaryTypeMismatch), subject)))
                                    } else {
                                        let pb = st2.boundaries[j];
                                        (
                                            ExtS {
                                                boundaries: st2.boundaries.update(
                                                    j,
                                                    BoundaryV { targets: pb.targets.push(t), ..pb },
                                                ),
                                                ..st2
                                            },
                                            f2,
                                        )
                                    }
                                } else {
                                    let (seen3, fc) = claim_v(st2.seen, b@, subject);
                                    (
                                        ExtS {
                                            seen: seen3,
                                            boundaries: st2.boundaries.push(
                                                BoundaryV { iri: b@, datatype: dt, targets: seq![t] },
                                            ),
                                            ..st2
                                        },
                                        f2 + fc,
                                    )
                                }
                            },
                        }
                    },
                }
            }
        }
    }
}

/// Plan the first `k` boundary-input entries in order.
pub open spec fn externals_v(g: ModelGraph, deferred: Seq<usize>, port_iri: Seq<Option<Seq<char>>>, st: ExtS, k: nat) -> (
    ExtS,
    Seq<Finding>,
)
    decreases k,
{
    if k == 0 || k > g.external_inputs@.len() {
        (st, seq![])
    } else {
        let (s1, f1) = externals_v(g, deferred, port_iri, st, (k - 1) as nat);
        let (s2, f2) = ext_step(g, deferred, port_iri, s1, g.external_inputs@[k - 1]);
        (s2, f1 + f2)
    }
}

fn find_boundary(bs: &Vec<PlannedBoundary>, iri: &str) -> (r: Option<usize>)
    ensures
        match r {
            Some(j) => j < bs@.len() && j as int == boundary_index(boundaries_view(bs@), iri@),
            None => boundary_index(boundaries_view(bs@), iri@) == -1,
        },
{
    let ghost bv = boundaries_view(bs@);
    let mut j: usize = 0;
    while j < bs.len()
        invariant
            bv == boundaries_view(bs@),
            j <= bs@.len(),
            boundary_index(bv.take(j as int), iri@) == -1,
        decreases bs@.len() - j,
    {
        assert(bv.take(j + 1).drop_last() =~= bv.take(j as int));
        if str_eq(bs[j].iri.as_str(), iri) {
            proof {
                lemma_boundary_index_prefix(bv, j + 1, iri@);
            }
            return Some(j);
        }
        j += 1;
    }
    assert(bv.take(bv.len() as int) =~= bv);
    None
}

proof fn lemma_boundary_index_prefix(bs: Seq<BoundaryV>, m: int, iri: Seq<char>)
    requires
        0 <= m <= bs.len(),
        boundary_index(bs.take(m), iri) >= 0,
    ensures
        boundary_index(bs, iri) == boundary_index(bs.take(m), iri),
    decreases bs.len() - m,
{
    if m < bs.len() {
        assert(bs.drop_last().take(m) =~= bs.take(m));
        lemma_boundary_index_prefix(bs.drop_last(), m, iri);
    } else {
        assert(bs.take(m) =~= bs);
    }
}

/// The boundary-input planning state, held in executable form.
pub open spec fn ext_is(
    seen: Seq<String>,
    bouts: Seq<PlannedBoundaryOutput>,
    boundaries: Seq<PlannedBoundary>,
    listed: Seq<usize>,
    st: ExtS,
) -> bool {
    &&& names(seen) == st.seen
    &&& bouts_view(bouts) == st.bouts
    &&& boundaries_view(boundaries) == st.boundaries
    &&& listed == st.listed
}

fn plan_externals(
    g: &ModelGraph,
    deferred: &Vec<usize>,
    port_iri: &Vec<Option<String>>,
    seen: &mut Vec<String>,
    bouts: &mut Vec<PlannedBoundaryOutput>,
    diags: &mut Vec<Diagnostic>,
) -> (r: Vec<PlannedBoundary>)
    requires
        port_iri@.len() == g.connectors@.len(),
    ensures
        ({
            let st0 = ExtS {
                seen: names(old(seen)@),
                bouts: bouts_view(old(bouts)@),
                boundaries: seq![],
                listed: seq![],
            };
            let v = externals_v(
                *g,
                deferred@,
                port_iri@.map_values(|o: Option<String>| opt_view(o)),
                st0,
                g.external_inputs@.len(),
            );
            &&& names(final(seen)@) == v.0.seen
            &&& bouts_view(final(bouts)@) == v.0.bouts
            &&& boundaries_view(r@) == v.0.boundaries
            &&& appends(old(diags)@, final(diags)@, v.1)
        }),
{
    let ghost pv = port_iri@.map_values(|o: Option<String>| opt_view(o));
    let ghost st0 = ExtS {
        seen: names(old(seen)@),
        bouts: bouts_view(old(bouts)@),
        boundaries: seq![],
        listed: seq![],
    };
    let mut boundaries: Vec<PlannedBoundary> = Vec::new();
    let mut listed: Vec<usize> = Vec::new();
    proof {
        lemma_appends_none(diags@);
        assert(boundaries_view(boundaries@) =~= seq![]);
    }
    let n = g.connectors.len();
    let mut k: usize = 0;
    while k < g.external_inputs.len()
        invariant
            n == g.connectors@.len(),
            port_iri@.len() == n,
            pv == port_iri@.map_values(|o: Option<String>| opt_view(o)),
            k <= g.external_inputs@.len(),
            ({
                let v = externals_v(*g, deferred@, pv, st0, k as nat);
                &&& ext_is(seen@, bouts@, boundaries@, listed@, v.0)
                &&& appends(old(diags)@, diags@, v.1)
            }),
        decreases g.external_inputs@.len() - k,
    {
        let ghost prev = externals_v(*g, deferred@, pv, st0, k as nat);
        let ghost dk = diags@;
        let cid = g.external_inputs[k];
        let idx = cid.0 as usize;
        let ghost step = ext_step(*g, deferred@, pv, prev.0, cid);
        if idx >= n {
            let d = reject_whole(msg_text(ExportMsg::Structure));
            proof {
                lemma_appends_one(diags@, d, whole_v(msg_spec(ExportMsg::Structure)));
                lemma_appends_trans(old(diags)@, dk, diags@.push(d), prev.1, step.1);
            }
            diags.push(d);
        } else {
            let c = &g.connectors[idx];
            if contains_usize(deferred, c.block.0 as usize) {
                proof {
                    lemma_appends_none(diags@);
                    lemma_appends_trans(old(diags)@, dk, diags@, prev.1, step.1);
                }
            } else {
                let subject = owner_subject(g, c, idx);
                if contains_usize(&listed, idx) {
                    let d = reject(msg_text(ExportMsg::DuplicateExternalInput), subject.as_str());
                    proof {
                        lemma_appends_one(diags@, d, reject_v(msg_spec(ExportMsg::DuplicateExternalInput), subject@));
                        lemma_appends_trans(old(diags)@, dk, diags@.push(d), prev.1, step.1);
                    }
                    diags.push(d);
                } else {
                    listed.push(idx);
                    plan_external_entry(g, port_iri, cid, &subject, seen, bouts, &mut boundaries, diags, Ghost(prev.0), Ghost(listed@));
                    proof {
                        lemma_appends_trans(old(diags)@, dk, diags@, prev.1, step.1);
                    }
                }
            }
        }
        k += 1;
    }
    boundaries
}

fn plan_external_entry(
    g: &ModelGraph,
    port_iri: &Vec<Option<String>>,
    cid: ConnectorId,
    subject: &String,
    seen: &mut Vec<String>,
    bouts: &mut Vec<PlannedBoundaryOutput>,
    boundaries: &mut Vec<PlannedBoundary>,
    diags: &mut Vec<Diagnostic>,
    Ghost(st): Ghost<ExtS>,
    Ghost(listed): Ghost<Seq<usize>>,
)
    requires
        port_iri@.len() == g.connectors@.len(),
        (cid.0 as int) < g.connectors@.len(),
        subject@ == owner_subject_v(*g, g.connectors@[cid.0 as int], cid.0 as int),
        !st.listed.contains(cid.0 as usize),
        listed == st.listed.push(cid.0 as usize),
        names(old(seen)@) == st.seen,
        bouts_view(old(bouts)@) == st.bouts,
        boundaries_view(old(boundaries)@) == st.boundaries,
    ensures
        ({
            let c = g.connectors@[cid.0 as int];
            let st1 = ExtS { listed: st.listed.push(cid.0 as usize), ..st };
            let pv = port_iri@.map_values(|o: Option<String>| opt_view(o));
            let r: (ExtS, Seq<Finding>) = if c.dir != Dir::In {
                (st1, seq![reject_v(msg_spec(ExportMsg::Structure), subject@)])
            } else {
                match c.iri {
                    None => (st1, seq![reject_v(msg_spec(ExportMsg::ExternalIri), subject@)]),
                    Some(b) => {
                        let dt = datatype_v(c.value_type);
                        let (st2, target, f2) = ext_target(*g, pv, st1, c, cid, subject@);
                        match target {
                            None => (st2, f2),
                            Some(t) => {
                                let j = boundary_index(st2.boundaries, b@);
                                if j >= 0 {
                                    if st2.boundaries[j].datatype != dt {
                                        (st2, f2.push(reject_v(msg_spec(ExportMsg::BoundaryTypeMismatch), subject@)))
                                    } else {
                                        let pb = st2.boundaries[j];
                                        (
                                            ExtS {
                                                boundaries: st2.boundaries.update(
                                                    j,
                                                    BoundaryV { targets: pb.targets.push(t), ..pb },
                                                ),
                                                ..st2
                                            },
                                            f2,
                                        )
                                    }
                                } else {
                                    let (seen3, fc) = claim_v(st2.seen, b@, subject@);
                                    (
                                        ExtS {
                                            seen: seen3,
                                            boundaries: st2.boundaries.push(
                                                BoundaryV { iri: b@, datatype: dt, targets: seq![t] },
                                            ),
                                            ..st2
                                        },
                                        f2 + fc,
                                    )
                                }
                            },
                        }
                    },
                }
            };
            &&& ext_is(final(seen)@, final(bouts)@, final(boundaries)@, listed, r.0)
            &&& appends(old(diags)@, final(diags)@, r.1)
        }),
{
    let idx = cid.0 as usize;
    let c = &g.connectors[idx];
    let ghost pv = port_iri@.map_values(|o: Option<String>| opt_view(o));
    let ghost st1 = ExtS { listed: st.listed.push(cid.0 as usize), ..st };
    if c.dir != Dir::In {
        let d = reject(msg_text(ExportMsg::Structure), subject.as_str());
        proof {
            lemma_appends_one(diags@, d, reject_v(msg_spec(ExportMsg::Structure), subject@));
        }
        diags.push(d);
        return;
    }
    let boundary_iri: &str = match &c.iri {
        None => {
            let d = reject(msg_text(ExportMsg::ExternalIri), subject.as_str());
            proof {
                lemma_appends_one(diags@, d, reject_v(msg_spec(ExportMsg::ExternalIri), subject@));
            }
            diags.push(d);
            return;
        },
        Some(b) => b.as_str(),
    };
    let datatype = datatype_text(c.value_type);
    let ghost d0 = diags@;
    // The driven target: a reserved block's output, or the entry's own claimed port.
    let bi = c.block.0 as usize;
    let pto: Option<ConnectorId> = if bi < g.blocks.len() && is_pass_through_class(g.blocks[bi].class_iri.as_str())
        && g.blocks[bi].inputs.len() == 1 && g.blocks[bi].inputs[0].0 == cid.0 && g.blocks[bi].outputs.len() == 1 {
        proof {
            assert(g.blocks@[bi as int].inputs@ =~= seq![cid]);
        }
        Some(g.blocks[bi].outputs[0])
    } else {
        proof {
            if bi < g.blocks@.len() && g.blocks@[bi as int].inputs@ == seq![cid] {
                assert(g.blocks@[bi as int].inputs@[0] == cid);
            }
        }
        None
    };
    assert(pto == pt_output(*g, *c, cid));
    let ghost ex = ext_target(*g, pv, st1, *c, cid, subject@);
    let target: String = match pto {
        Some(oid) => {
            let oi = oid.0 as usize;
            if oi >= g.connectors.len() {
                let d = reject(msg_text(ExportMsg::Structure), subject.as_str());
                proof {
                    lemma_appends_one(diags@, d, reject_v(msg_spec(ExportMsg::Structure), subject@));
                }
                diags.push(d);
                return;
            }
            let output = &g.connectors[oi];
            if output.dir != Dir::Out || output.block.0 != c.block.0 || !str_eq(datatype_text(output.value_type), datatype) {
                let d = reject(msg_text(ExportMsg::Structure), subject.as_str());
                proof {
                    lemma_appends_one(diags@, d, reject_v(msg_spec(ExportMsg::Structure), subject@));
                }
                diags.push(d);
                return;
            }
            match &output.iri {
                None => {
                    let d = reject(msg_text(ExportMsg::ExternalIri), subject.as_str());
                    proof {
                        lemma_appends_one(diags@, d, reject_v(msg_spec(ExportMsg::ExternalIri), subject@));
                    }
                    diags.push(d);
                    return;
                },
                Some(o) => {
                    claim_emitted_id(seen, o.as_str(), subject.as_str(), diags);
                    let ghost b0 = bouts_view(bouts@);
                    bouts.push(PlannedBoundaryOutput { iri: owned(o.as_str()), datatype: owned(datatype) });
                    assert(bouts_view(bouts@) =~= b0.push((o@, datatype@)));
                    owned(o.as_str())
                },
            }
        },
        None => {
            assert(pv[idx as int] == opt_view(port_iri@[idx as int]));
            match &port_iri[idx] {
                None => {
                    proof {
                        lemma_appends_none(diags@);
                    }
                    return;
                },
                Some(t) => {
                    proof {
                        lemma_appends_none(diags@);
                    }
                    owned(t.as_str())
                },
            }
        },
    };
    let ghost d1 = diags@;
    let ghost st2 = ex.0;
    assert(target@ == ex.1->0);
    match find_boundary(boundaries, boundary_iri) {
        Some(j) => {
            assert(boundaries_view(boundaries@)[j as int].datatype == boundaries@[j as int].datatype@);
            if !str_eq(boundaries[j].datatype.as_str(), datatype) {
                let d = reject(msg_text(ExportMsg::BoundaryTypeMismatch), subject.as_str());
                proof {
                    let f = reject_v(msg_spec(ExportMsg::BoundaryTypeMismatch), subject@);
                    lemma_appends_one(diags@, d, f);
                    lemma_appends_trans(old(diags)@, d1, diags@.push(d), ex.2, seq![f]);
                    assert(ex.2 + seq![f] =~= ex.2.push(f));
                }
                diags.push(d);
            } else {
                let ghost bv0 = boundaries_view(boundaries@);
                let ghost l0 = boundaries@[j as int].targets@;
                boundaries[j].targets.push(target);
                proof {
                    let pb = bv0[j as int];
                    assert(boundaries_view(boundaries@) =~= bv0.update(j as int, BoundaryV { targets: pb.targets.push(ex.1->0), ..pb })) by {
                        assert forall|q: int| 0 <= q < boundaries@.len() implies #[trigger] boundaries_view(boundaries@)[q] == bv0.update(
                            j as int,
                            BoundaryV { targets: pb.targets.push(ex.1->0), ..pb },
                        )[q] by {
                            if q == j as int {
                                assert(names(boundaries@[q].targets@) =~= names(l0).push(ex.1->0));
                            }
                        }
                    }
                    lemma_appends_none(diags@);
                }
            }
        },
        None => {
            claim_emitted_id(seen, boundary_iri, subject.as_str(), diags);
            proof {
                let c3 = claim_v(st2.seen, boundary_iri@, subject@);
                lemma_appends_trans(old(diags)@, d1, diags@, ex.2, c3.1);
            }
            let ghost bv0 = boundaries_view(boundaries@);
            let mut ts: Vec<String> = Vec::new();
            ts.push(target);
            boundaries.push(PlannedBoundary { iri: owned(boundary_iri), datatype: owned(datatype), targets: ts });
            proof {
                assert(names(boundaries@.last().targets@) =~= seq![ex.1->0]);
                assert(boundaries_view(boundaries@) =~= bv0.push(
                    BoundaryV { iri: boundary_iri@, datatype: datatype@, targets: seq![ex.1->0] },
                ));
            }
        },
    }
}


// ---- Phase 7: port nodes ----

/// One port node: its `@id`, `isOfDataType` term, `isConnectedTo` targets and the classified
/// attributes it carries.
pub struct PlannedPort {
    pub iri: String,
    pub datatype: String,
    pub targets: Vec<String>,
    pub attrs: PortAttrs,
}

/// The connectors among the first `k` that become port nodes: those of surviving, ordinary
/// blocks, in connector order.
pub open spec fn emitted_connectors(g: ModelGraph, deferred: Seq<usize>, k: nat) -> Seq<int>
    decreases k,
{
    if k == 0 || k > g.connectors@.len() {
        seq![]
    } else {
        let c = g.connectors@[k - 1];
        emitted_connectors(g, deferred, (k - 1) as nat) + if !deferred.contains(c.block.0 as usize) && !owner_reserved(
            g,
            c,
        ) {
            seq![k - 1]
        } else {
            seq![]
        }
    }
}

/// `p` is the port node planned for connector `i`.
pub open spec fn port_is(
    g: ModelGraph,
    deferred: Seq<usize>,
    port_iri: Seq<Option<Seq<char>>>,
    targets: Seq<Seq<Seq<char>>>,
    i: int,
    p: PlannedPort,
) -> bool {
    &&& port_iri[i] == Some(p.iri@)
    &&& p.datatype@ == datatype_v(g.connectors@[i].value_type)
    &&& names(p.targets@) == targets[i]
    &&& port_attrs_ok(g, deferred, i, p.attrs)
}

/// Two classified attribute sets carry the same values.
pub open spec fn attrs_same(a: PortAttrs, b: PortAttrs) -> bool {
    match (a, b) {
        (
            PortAttrs::Real { unit: u1, quantity: q1, display_unit: d1, min: m1, max: x1 },
            PortAttrs::Real { unit: u2, quantity: q2, display_unit: d2, min: m2, max: x2 },
        ) => opt_view(u1) == opt_view(u2) && opt_view(q1) == opt_view(q2) && opt_view(d1) == opt_view(d2) && m1
            == m2 && x1 == x2,
        (PortAttrs::Integer { min: m1, max: x1 }, PortAttrs::Integer { min: m2, max: x2 }) => m1 == m2 && x1 == x2,
        (PortAttrs::Empty, PortAttrs::Empty) => true,
        _ => false,
    }
}

fn copy_port_attrs(a: &PortAttrs) -> (b: PortAttrs)
    ensures
        attrs_same(*a, b),
{
    match a {
        PortAttrs::Real { unit, quantity, display_unit, min, max } => PortAttrs::Real {
            unit: copy_opt(unit),
            quantity: copy_opt(quantity),
            display_unit: copy_opt(display_unit),
            min: *min,
            max: *max,
        },
        PortAttrs::Integer { min, max } => PortAttrs::Integer { min: *min, max: *max },
        PortAttrs::Empty => PortAttrs::Empty,
    }
}

proof fn lemma_orphans_clear(g: ModelGraph, deferred: Seq<usize>, port_iri: Seq<Option<Seq<char>>>, k: nat)
    requires
        k <= g.connectors@.len(),
        port_iri.len() == g.connectors@.len(),
        orphan_findings(g, deferred, port_iri, k).len() == 0,
    ensures
        forall|j: int|
            0 <= j < emitted_connectors(g, deferred, k).len() ==> port_iri[#[trigger] emitted_connectors(
                g,
                deferred,
                k,
            )[j]] is Some,
        forall|j: int|
            0 <= j < emitted_connectors(g, deferred, k).len() ==> 0 <= #[trigger] emitted_connectors(g, deferred, k)[j]
                < k,
    decreases k,
{
    if k > 0 {
        lemma_orphans_clear(g, deferred, port_iri, (k - 1) as nat);
    }
}

fn plan_port_nodes(
    g: &ModelGraph,
    deferred: &Vec<usize>,
    port_iri: &Vec<Option<String>>,
    targets: &Vec<Vec<String>>,
    datatypes: &Vec<&'static str>,
    classified: &Vec<PortAttrs>,
) -> (r: Vec<PlannedPort>)
    requires
        port_iri@.len() == g.connectors@.len(),
        targets@.len() == g.connectors@.len(),
        datatypes@.len() == g.connectors@.len(),
        classified@.len() == g.connectors@.len(),
        forall|i: int| 0 <= i < g.connectors@.len() ==> (#[trigger] datatypes@[i])@ == datatype_v(g.connectors@[i].value_type),
        forall|i: int| 0 <= i < g.connectors@.len() ==> port_attrs_ok(*g, deferred@, i, #[trigger] classified@[i]),
        orphan_findings(
            *g,
            deferred@,
            port_iri@.map_values(|o: Option<String>| opt_view(o)),
            g.connectors@.len(),
        ).len() == 0,
    ensures
        ({
            let e = emitted_connectors(*g, deferred@, g.connectors@.len());
            &&& r@.len() == e.len()
            &&& forall|j: int|
                0 <= j < e.len() ==> port_is(
                    *g,
                    deferred@,
                    port_iri@.map_values(|o: Option<String>| opt_view(o)),
                    targets@.map_values(|l: Vec<String>| names(l@)),
                    e[j],
                    #[trigger] r@[j],
                )
        }),
{
    let ghost pv = port_iri@.map_values(|o: Option<String>| opt_view(o));
    let ghost tv = targets@.map_values(|l: Vec<String>| names(l@));
    let n = g.connectors.len();
    proof {
        lemma_orphans_clear(*g, deferred@, pv, n as nat);
    }
    let mut ports: Vec<PlannedPort> = Vec::new();
    let mut i: usize = 0;
    while i < n
        invariant
            n == g.connectors@.len(),
            i <= n,
            port_iri@.len() == n,
            targets@.len() == n,
            datatypes@.len() == n,
            classified@.len() == n,
            pv == port_iri@.map_values(|o: Option<String>| opt_view(o)),
            tv == targets@.map_values(|l: Vec<String>| names(l@)),
            forall|k: int| 0 <= k < n ==> (#[trigger] datatypes@[k])@ == datatype_v(g.connectors@[k].value_type),
            forall|k: int| 0 <= k < n ==> port_attrs_ok(*g, deferred@, k, #[trigger] classified@[k]),
            forall|j: int|
                0 <= j < emitted_connectors(*g, deferred@, n as nat).len() ==> pv[#[trigger] emitted_connectors(
                    *g,
                    deferred@,
                    n as nat,
                )[j]] is Some,
            ports@.len() == emitted_connectors(*g, deferred@, i as nat).len(),
            forall|j: int|
                0 <= j < ports@.len() ==> port_is(
                    *g,
                    deferred@,
                    pv,
                    tv,
                    emitted_connectors(*g, deferred@, i as nat)[j],
                    #[trigger] ports@[j],
                ),
        decreases n - i,
    {
        proof {
            lemma_emitted_prefix(*g, deferred@, (i + 1) as nat, n as nat);
        }
        let c = &g.connectors[i];
        let bi = c.block.0 as usize;
        let reserved = bi < g.blocks.len() && is_pass_through_class(g.blocks[bi].class_iri.as_str());
        if !contains_usize(deferred, bi) && !reserved {
            let ghost e = emitted_connectors(*g, deferred@, (i + 1) as nat);
            assert(e[e.len() - 1] == i as int);
            assert(pv[i as int] is Some);
            let iri = match &port_iri[i] {
                Some(s) => owned(s.as_str()),
                None => owned(""),
            };
            let p = PlannedPort {
                iri,
                datatype: owned(datatypes[i]),
                targets: copy_strings(&targets[i]),
                attrs: copy_port_attrs(&classified[i]),
            };
            let ghost p0 = ports@;
            ports.push(p);
            proof {
                assert forall|j: int| 0 <= j < ports@.len() implies port_is(*g, deferred@, pv, tv, e[j], #[trigger] ports@[j]) by {
                    if j < p0.len() {
                        assert(ports@[j] == p0[j]);
                    }
                }
            }
        }
        i += 1;
    }
    ports
}

proof fn lemma_emitted_prefix(g: ModelGraph, deferred: Seq<usize>, k: nat, n: nat)
    requires
        k <= n <= g.connectors@.len(),
    ensures
        emitted_connectors(g, deferred, k).len() <= emitted_connectors(g, deferred, n).len(),
        forall|j: int|
            0 <= j < emitted_connectors(g, deferred, k).len() ==> emitted_connectors(g, deferred, n)[j]
                == #[trigger] emitted_connectors(g, deferred, k)[j],
    decreases n - k,
{
    if k < n {
        lemma_emitted_prefix(g, deferred, k, (n - 1) as nat);
    }
}


// ---- the whole plan ----

/// Everything the document needs, fully validated.
pub struct Plan {
    pub blocks: Vec<PlannedBlock>,
    pub ports: Vec<PlannedPort>,
    pub boundaries: Vec<PlannedBoundary>,
    pub boundary_outputs: Vec<PlannedBoundaryOutput>,
}

/// Block and connector ids equal their positions.
pub open spec fn dense(g: ModelGraph) -> bool {
    &&& forall|i: int| 0 <= i < g.blocks@.len() ==> (#[trigger] g.blocks@[i]).id.0 == i
    &&& forall|i: int| 0 <= i < g.connectors@.len() ==> (#[trigger] g.connectors@[i]).id.0 == i
}

fn is_dense(g: &ModelGraph) -> (b: bool)
    ensures
        b == dense(*g),
{
    let mut i: usize = 0;
    while i < g.blocks.len()
        invariant
            i <= g.blocks@.len(),
            forall|j: int| 0 <= j < i ==> (#[trigger] g.blocks@[j]).id.0 == j,
        decreases g.blocks@.len() - i,
    {
        if g.blocks[i].id.0 as usize != i {
            return false;
        }
        i += 1;
    }
    let mut i: usize = 0;
    while i < g.connectors.len()
        invariant
            i <= g.connectors@.len(),
            forall|j: int| 0 <= j < g.blocks@.len() ==> (#[trigger] g.blocks@[j]).id.0 == j,
            forall|j: int| 0 <= j < i ==> (#[trigger] g.connectors@[j]).id.0 == j,
        decreases g.connectors@.len() - i,
    {
        if g.connectors[i].id.0 as usize != i {
            return false;
        }
        i += 1;
    }
    true
}

/// The block stage of a plan under `deferred`.
pub open spec fn stage_blocks(g: ModelGraph, deferred: Seq<usize>) -> (PlanS, Seq<Finding>) {
    blocks_v(g, deferred, g.blocks@.len())
}

/// The connection stage.
pub open spec fn stage_edges(g: ModelGraph, deferred: Seq<usize>) -> (EdgeS, Seq<Finding>) {
    edges_v(g, deferred, stage_blocks(g, deferred).0.port_iri, g.connections@.len())
}

/// The root boundary-output stage.
pub open spec fn stage_bouts(g: ModelGraph, deferred: Seq<usize>) -> (
    Seq<Seq<char>>,
    Seq<Seq<Seq<char>>>,
    Seq<(Seq<char>, Seq<char>)>,
    Seq<Finding>,
) {
    let b = stage_blocks(g, deferred).0;
    bouts_v(g, deferred, b.port_iri, b.seen, stage_edges(g, deferred).0.targets, g.boundary_outputs@.len())
}

/// The boundary-input stage.
pub open spec fn stage_externals(g: ModelGraph, deferred: Seq<usize>) -> (ExtS, Seq<Finding>) {
    let o = stage_bouts(g, deferred);
    externals_v(
        g,
        deferred,
        stage_blocks(g, deferred).0.port_iri,
        ExtS { seen: o.0, bouts: o.2, boundaries: seq![], listed: seq![] },
        g.external_inputs@.len(),
    )
}

/// Every rejection of a dense, non-empty graph under `deferred`, in order: the blocks, a total
/// deferral, the reserved blocks, the orphans, the connectors, the connections, the boundary
/// outputs, the multiply driven inputs, the boundary inputs.
pub open spec fn plan_findings(g: ModelGraph, deferred: Seq<usize>) -> Seq<Finding> {
    let b = stage_blocks(g, deferred);
    let e = stage_edges(g, deferred);
    b.1 + (if b.0.blocks.len() == 0 {
        seq![whole_v(msg_spec(ExportMsg::TotalDeferral))]
    } else {
        seq![]
    }) + reserved_findings(g, g.blocks@.len()) + orphan_findings(g, deferred, b.0.port_iri, g.connectors@.len())
        + connectors_findings(g, deferred, g.connectors@.len()) + e.1 + stage_bouts(g, deferred).3
        + multiply_findings(g, e.0.multiply, g.connectors@.len()) + stage_externals(g, deferred).1
}

/// `p` is the plan of a dense, non-empty graph under `deferred`: the surviving blocks, one port
/// per emitted connector, and the boundary inputs and outputs.
pub open spec fn plan_is(g: ModelGraph, deferred: Seq<usize>, p: Plan) -> bool {
    let b = stage_blocks(g, deferred).0;
    let x = stage_externals(g, deferred).0;
    let e = emitted_connectors(g, deferred, g.connectors@.len());
    &&& p.blocks@.len() == b.blocks.len()
    &&& forall|j: int| 0 <= j < b.blocks.len() ==> block_is(#[trigger] p.blocks@[j], b.blocks[j])
    &&& p.ports@.len() == e.len()
    &&& forall|j: int|
        0 <= j < e.len() ==> port_is(g, deferred, b.port_iri, stage_bouts(g, deferred).1, e[j], #[trigger] p.ports@[j])
    &&& boundaries_view(p.boundaries@) == x.boundaries
    &&& bouts_view(p.boundary_outputs@) == x.bouts
}

/// The outcome of planning under the deferral `order`/`warnings`: the warnings followed by every
/// rejection when there is one, else the plan with the warnings.
pub open spec fn planned(
    g: ModelGraph,
    order: Seq<usize>,
    warnings: Seq<Diagnostic>,
    r: Result<(Plan, Vec<Diagnostic>), Vec<Diagnostic>>,
) -> bool {
    let fs = plan_findings(g, order);
    if fs.len() > 0 {
        r matches Err(d) && appends(warnings, d@, fs)
    } else {
        r matches Ok((p, ws)) && ws@ == warnings && plan_is(g, order, p)
    }
}

proof fn lemma_edges_len(g: ModelGraph, deferred: Seq<usize>, port_iri: Seq<Option<Seq<char>>>, k: nat)
    ensures
        edges_v(g, deferred, port_iri, k).0.targets.len() == g.connectors@.len(),
        edges_v(g, deferred, port_iri, k).0.multiply.len() == g.connectors@.len(),
    decreases k,
{
    if k > 0 && k <= g.connections@.len() {
        lemma_edges_len(g, deferred, port_iri, (k - 1) as nat);
    }
}

proof fn lemma_deferral_warnings(g: ModelGraph, order: Seq<usize>, warnings: Seq<Diagnostic>)
    requires
        is_deferral(g, order, warnings),
    ensures
        forall|i: int| 0 <= i < warnings.len() ==> (#[trigger] warnings[i]).severity == Severity::Warning,
{
    assert forall|i: int| 0 <= i < warnings.len() implies (#[trigger] warnings[i]).severity == Severity::Warning by {
        assert(entry_ok(g, order, warnings, i));
    }
}

proof fn lemma_errors_after_warnings(w: Seq<Diagnostic>, d: Seq<Diagnostic>, fs: Seq<Finding>)
    requires
        forall|i: int| 0 <= i < w.len() ==> (#[trigger] w[i]).severity == Severity::Warning,
        appends(w, d, fs),
    ensures
        any_error(d) == (fs.len() > 0),
{
    if fs.len() > 0 {
        assert(is_finding(d[w.len() + 0int], fs[0]));
    } else {
        assert forall|i: int| 0 <= i < d.len() implies d[i].severity != Severity::Error by {
            assert(d[i] == d.take(w.len() as int)[i]);
        }
    }
}

/// Validate the export subset and mint every `@id`: an empty graph and a graph whose ids are
/// not their positions are rejected whole; otherwise the deferral is computed and the plan is
/// returned with its warnings, or the warnings followed by every rejection.
pub fn plan(g: &ModelGraph) -> (r: Result<(Plan, Vec<Diagnostic>), Vec<Diagnostic>>)
    ensures
        g.blocks@.len() == 0 ==> (r matches Err(d) && d@.len() == 1 && is_finding(
            d@[0],
            whole_v(msg_spec(ExportMsg::Empty)),
        )),
        g.blocks@.len() > 0 && !dense(*g) ==> (r matches Err(d) && d@.len() == 1 && is_finding(
            d@[0],
            whole_v(msg_spec(ExportMsg::Structure)),
        )),
        g.blocks@.len() > 0 && dense(*g) ==> exists|w: Seq<Diagnostic>| #[trigger]
            is_deferral(*g, deferral_order(*g), w) && planned(*g, deferral_order(*g), w, r),
{
    if g.blocks.len() == 0 {
        let d = reject_whole(msg_text(ExportMsg::Empty));
        let v = vec![d];
        assert(v@[0] == d);
        return Err(v);
    }
    if !is_dense(g) {
        let d = reject_whole(msg_text(ExportMsg::Structure));
        let v = vec![d];
        assert(v@[0] == d);
        return Err(v);
    }
    let (deferred, warnings) = deferral_set(g);
    let ghost w = warnings@;
    let ghost dset = deferred@;
    proof {
        lemma_deferral_warnings(*g, dset, w);
    }
    let mut diags = warnings;
    let st = plan_blocks(g, &deferred, &mut diags);
    let ghost b = stage_blocks(*g, dset);
    let ghost d1 = diags@;
    let PlanState { seen, port_iri, blocks } = st;
    let mut seen = seen;
    if blocks.len() == 0 {
        let d = reject_whole(msg_text(ExportMsg::TotalDeferral));
        proof {
            lemma_appends_one(diags@, d, whole_v(msg_spec(ExportMsg::TotalDeferral)));
        }
        diags.push(d);
    } else {
        proof {
            lemma_appends_none(diags@);
        }
    }
    let ghost d2 = diags@;
    plan_reserved(g, &mut diags);
    let ghost d3 = diags@;
    plan_orphans(g, &deferred, &port_iri, &mut diags);
    let ghost d4 = diags@;
    let (datatypes, classified) = plan_connectors(g, &deferred, &mut diags);
    let ghost d5 = diags@;
    let (mut targets, _driven, multiply) = plan_edges(g, &deferred, &port_iri, &mut diags);
    let ghost d6 = diags@;
    let ghost e = stage_edges(*g, dset);
    proof {
        lemma_edges_len(*g, dset, b.0.port_iri, g.connections@.len());
    }
    assert(targets@.map_values(|l: Vec<String>| names(l@)) =~= e.0.targets);
    let mut bouts = plan_boundary_outputs(g, &deferred, &port_iri, &mut seen, &mut targets, &mut diags);
    let ghost d7 = diags@;
    let ghost o = stage_bouts(*g, dset);
    assert(bouts_view(bouts@) =~= o.2);
    plan_multiply(g, &multiply, &mut diags);
    let ghost d8 = diags@;
    let boundaries = plan_externals(g, &deferred, &port_iri, &mut seen, &mut bouts, &mut diags);
    proof {
        let t = if b.0.blocks.len() == 0 {
            seq![whole_v(msg_spec(ExportMsg::TotalDeferral))]
        } else {
            seq![]
        };
        let f3 = reserved_findings(*g, g.blocks@.len());
        let f4 = orphan_findings(*g, dset, b.0.port_iri, g.connectors@.len());
        let f5 = connectors_findings(*g, dset, g.connectors@.len());
        let f8 = multiply_findings(*g, e.0.multiply, g.connectors@.len());
        lemma_appends_trans(w, d1, d2, b.1, t);
        lemma_appends_trans(w, d2, d3, b.1 + t, f3);
        lemma_appends_trans(w, d3, d4, b.1 + t + f3, f4);
        lemma_appends_trans(w, d4, d5, b.1 + t + f3 + f4, f5);
        lemma_appends_trans(w, d5, d6, b.1 + t + f3 + f4 + f5, e.1);
        lemma_appends_trans(w, d6, d7, b.1 + t + f3 + f4 + f5 + e.1, o.3);
        lemma_appends_trans(w, d7, d8, b.1 + t + f3 + f4 + f5 + e.1 + o.3, f8);
        lemma_appends_trans(w, d8, diags@, b.1 + t + f3 + f4 + f5 + e.1 + o.3 + f8, stage_externals(*g, dset).1);
        lemma_errors_after_warnings(w, diags@, plan_findings(*g, dset));
    }
    if has_errors(diags.as_slice()) {
        return Err(diags);
    }
    proof {
        assert(diags@ =~= w);
    }
    let ports = plan_port_nodes(g, &deferred, &port_iri, &targets, &datatypes, &classified);
    Ok((Plan { blocks, ports, boundaries, boundary_outputs: bouts }, diags))
}


// ---- the document ----

/// The IRI the `S231` prefix is bound to in `@context`.
pub open spec fn s231_context_iri() -> Seq<char> {
    "http://data.ashrae.org/S231P#"@
}

/// The fields no exported node sets.
pub open spec fn quiet(n: Node) -> bool {
    &&& n.has_constant is Absent
    &&& n.has_instance is Absent
    &&& n.label is None
    &&& n.access is None
    &&& n.is_final is None
    &&& n.is_array is None
    &&& n.n_dims is None
    &&& n.size_dims is None
    &&& n.fmu_path is None
    &&& n.is_conditional is None
    &&& n.cond_expr is None
    &&& n.is_replaceable is None
}

/// `n` carries its `@id` and nothing else.
pub open spec fn blank(n: Node) -> bool {
    &&& quiet(n)
    &&& n.types is None
    &&& n.has_input is Absent
    &&& n.has_output is Absent
    &&& n.has_parameter is Absent
    &&& n.contains_block is Absent
    &&& n.is_connected_to is Absent
    &&& n.is_of_data_type is None
    &&& n.value is None
    &&& n.min is None
    &&& n.max is None
    &&& n.other@.len() == 0
}

/// `r` references the term `id` and carries nothing else.
pub open spec fn term_is(r: Option<IriRef>, id: Seq<char>) -> bool {
    r matches Some(x) && x.id@ == id && x.other@.len() == 0
}

/// `t` is the single `@type` `ty`.
pub open spec fn type_is(t: Option<OneOrMany<String>>, ty: Seq<char>) -> bool {
    t matches Some(OneOrMany::One(x)) && x@ == ty
}

/// `n` is the root node of plan `p`: a `S231:Block` whose inputs are the boundary inputs, whose
/// outputs are the boundary outputs and which contains the planned blocks.
pub open spec fn root_node_is(n: Node, p: Plan) -> bool {
    &&& n.id@ == export_root_iri()
    &&& type_is(n.types, "S231:Block"@)
    &&& refs_match(boundaries_view(p.boundaries@).map_values(|b: BoundaryV| b.iri), n.has_input)
    &&& refs_match(bouts_view(p.boundary_outputs@).map_values(|o: (Seq<char>, Seq<char>)| o.0), n.has_output)
    &&& n.has_parameter is Absent
    &&& refs_match(p.blocks@.map_values(|b: PlannedBlock| b.iri@), n.contains_block)
    &&& n.is_connected_to is Absent
    &&& n.is_of_data_type is None
    &&& n.value is None
    &&& n.min is None
    &&& n.max is None
    &&& n.other@.len() == 0
    &&& quiet(n)
}

/// `n` is the node of planned block `b`: its class `@type`, its ports and its parameters.
pub open spec fn block_node_is(n: Node, b: PlannedBlock) -> bool {
    &&& n.id@ == b.iri@
    &&& type_is(n.types, b.type_iri@)
    &&& refs_match(names(b.input_ports@), n.has_input)
    &&& refs_match(names(b.output_ports@), n.has_output)
    &&& refs_match(b.params@.map_values(|x: (String, CxfValue)| x.0@), n.has_parameter)
    &&& n.contains_block is Absent
    &&& n.is_connected_to is Absent
    &&& n.is_of_data_type is None
    &&& n.value is None
    &&& n.min is None
    &&& n.max is None
    &&& n.other@.len() == 0
    &&& quiet(n)
}

/// `n` is a parameter node `id` bound to `v`.
pub open spec fn param_node_is(n: Node, id: Seq<char>, v: CxfValue) -> bool {
    &&& quiet(n)
    &&& no_members(n)
    &&& n.types is None
    &&& n.is_connected_to is Absent
    &&& n.is_of_data_type is None
    &&& n.min is None
    &&& n.max is None
    &&& n.other@.len() == 0
    &&& n.id@ == id
    &&& n.value matches Some(x) && binding_view(x) == binding_view(v)
}

/// The term attributes of a Real port, in emission order.
pub open spec fn term_entries(unit: Option<String>, quantity: Option<String>, display_unit: Option<String>) -> Seq<
    (Seq<char>, Seq<char>),
> {
    opt_entry("S231:unit"@, unit) + opt_entry("S231:quantity"@, quantity) + opt_entry("S231:displayUnit"@, display_unit)
}

/// One term attribute when present.
pub open spec fn opt_entry(key: Seq<char>, v: Option<String>) -> Seq<(Seq<char>, Seq<char>)> {
    match v {
        Some(s) => seq![(key, s@)],
        None => seq![],
    }
}

/// `other` holds exactly the bare string attributes `t`, in order.
pub open spec fn terms_is(other: Seq<(String, JsonValue)>, t: Seq<(Seq<char>, Seq<char>)>) -> bool {
    &&& other.len() == t.len()
    &&& forall|k: int|
        0 <= k < t.len() ==> (#[trigger] other[k]).0@ == t[k].0 && (other[k].1 matches JsonValue::Str(s) && s@
            == t[k].1)
}

/// A Real bound as a number.
pub open spec fn real_bound(v: Option<u64>) -> Option<CxfValue> {
    match v {
        Some(b) => Some(CxfValue::Float(b)),
        None => None,
    }
}

/// An Integer bound as a number.
pub open spec fn int_bound(v: Option<i64>) -> Option<CxfValue> {
    match v {
        Some(b) => Some(CxfValue::Int(b)),
        None => None,
    }
}

/// `min`, `max` and `other` carry the classified attributes `a`: a Real port its unit, quantity
/// and display unit as bare strings and its bounds as numbers, an Integer port its bounds, any
/// other port nothing.
pub open spec fn attrs_emitted(a: PortAttrs, min: Option<CxfValue>, max: Option<CxfValue>, other: Seq<(String, JsonValue)>) -> bool {
    match a {
        PortAttrs::Real { unit, quantity, display_unit, min: lo, max: hi } => min == real_bound(lo) && max == real_bound(
            hi,
        ) && terms_is(other, term_entries(unit, quantity, display_unit)),
        PortAttrs::Integer { min: lo, max: hi } => min == int_bound(lo) && max == int_bound(hi) && other.len() == 0,
        PortAttrs::Empty => min is None && max is None && other.len() == 0,
    }
}

/// `n` lists no inputs, outputs, parameters or contained blocks.
pub open spec fn no_members(n: Node) -> bool {
    &&& n.has_input is Absent
    &&& n.has_output is Absent
    &&& n.has_parameter is Absent
    &&& n.contains_block is Absent
}

/// `n` is the node of planned port `p`.
pub open spec fn port_node_is(n: Node, p: PlannedPort) -> bool {
    &&& quiet(n)
    &&& no_members(n)
    &&& n.types is None
    &&& n.value is None
    &&& n.id@ == p.iri@
    &&& term_is(n.is_of_data_type, p.datatype@)
    &&& refs_match(names(p.targets@), n.is_connected_to)
    &&& attrs_emitted(p.attrs, n.min, n.max, n.other@)
}

/// `n` is the node of boundary input `b`.
pub open spec fn boundary_node_is(n: Node, b: PlannedBoundary) -> bool {
    &&& quiet(n)
    &&& no_members(n)
    &&& n.types is None
    &&& n.value is None
    &&& n.min is None
    &&& n.max is None
    &&& n.other@.len() == 0
    &&& n.id@ == b.iri@
    &&& term_is(n.is_of_data_type, b.datatype@)
    &&& refs_match(names(b.targets@), n.is_connected_to)
}

/// `n` is the node of boundary output `o`.
pub open spec fn bout_node_is(n: Node, o: PlannedBoundaryOutput) -> bool {
    &&& quiet(n)
    &&& no_members(n)
    &&& n.types is None
    &&& n.is_connected_to is Absent
    &&& n.value is None
    &&& n.min is None
    &&& n.max is None
    &&& n.other@.len() == 0
    &&& n.id@ == o.iri@
    &&& term_is(n.is_of_data_type, o.datatype@)
}

/// The number of nodes the blocks take: each block node followed by its parameter nodes.
pub open spec fn block_nodes_len(blocks: Seq<PlannedBlock>) -> nat
    decreases blocks.len(),
{
    if blocks.len() == 0 {
        0
    } else {
        block_nodes_len(blocks.drop_last()) + 1 + blocks.last().params@.len()
    }
}

/// `nodes` are the block nodes of `blocks`, each followed by its parameter nodes.
pub open spec fn block_nodes_is(nodes: Seq<Node>, blocks: Seq<PlannedBlock>) -> bool
    decreases blocks.len(),
{
    if blocks.len() == 0 {
        nodes.len() == 0
    } else {
        let b = blocks.last();
        let m = nodes.len() - 1 - b.params@.len();
        &&& m >= 0
        &&& block_nodes_is(nodes.take(m), blocks.drop_last())
        &&& block_node_is(nodes[m], b)
        &&& forall|k: int|
            0 <= k < b.params@.len() ==> param_node_is(#[trigger] nodes[m + 1 + k], b.params@[k].0@, b.params@[k].1)
    }
}

/// `graph` is the node list of plan `p`: the root, the blocks with their parameters, the ports,
/// the boundary inputs, then the boundary outputs.
pub open spec fn graph_is(graph: Seq<Node>, p: Plan) -> bool {
    let nb = block_nodes_len(p.blocks@) as int;
    let np = p.ports@.len() as int;
    let nx = p.boundaries@.len() as int;
    let no = p.boundary_outputs@.len() as int;
    &&& graph.len() == 1 + nb + np + nx + no
    &&& root_node_is(graph[0], p)
    &&& block_nodes_is(graph.subrange(1, 1 + nb), p.blocks@)
    &&& forall|j: int| 0 <= j < np ==> port_node_is(#[trigger] graph[1 + nb + j], p.ports@[j])
    &&& forall|j: int| 0 <= j < nx ==> boundary_node_is(#[trigger] graph[1 + nb + np + j], p.boundaries@[j])
    &&& forall|j: int| 0 <= j < no ==> bout_node_is(#[trigger] graph[1 + nb + np + nx + j], p.boundary_outputs@[j])
}

/// `doc` is the document of plan `p`: its node list, and a context binding only `S231`.
pub open spec fn doc_is(doc: CxfDocument, p: Plan) -> bool {
    &&& graph_is(doc.graph@, p)
    &&& doc.context matches Context::PrefixMap(m) && m@.len() == 1 && m@[0].0@ == "S231"@ && (m@[0].1 matches JsonValue::Str(
        s,
    ) && s@ == s231_context_iri())
    &&& doc.other@.len() == 0
}

fn blank_node(id: String) -> (n: Node)
    ensures
        n.id == id,
        blank(n),
{
    Node {
        id,
        types: None,
        has_input: OneOrMany::Absent,
        has_output: OneOrMany::Absent,
        has_parameter: OneOrMany::Absent,
        has_constant: OneOrMany::Absent,
        contains_block: OneOrMany::Absent,
        has_instance: OneOrMany::Absent,
        is_connected_to: OneOrMany::Absent,
        is_of_data_type: None,
        label: None,
        access: None,
        value: None,
        min: None,
        max: None,
        is_final: None,
        is_array: None,
        n_dims: None,
        size_dims: None,
        fmu_path: None,
        is_conditional: None,
        cond_expr: None,
        is_replaceable: None,
        other: Vec::new(),
    }
}

fn term_ref(id: &str) -> (r: Option<IriRef>)
    ensures
        term_is(r, id@),
{
    Some(IriRef { id: owned(id), other: Vec::new() })
}

fn copy_binding(v: &CxfValue) -> (r: CxfValue)
    ensures
        binding_view(r) == binding_view(*v),
{
    match v {
        CxfValue::Bool(b) => CxfValue::Bool(*b),
        CxfValue::Int(i) => CxfValue::Int(*i),
        CxfValue::Float(f) => CxfValue::Float(*f),
        CxfValue::Expr(e) => CxfValue::Expr(owned(e.as_str())),
        CxfValue::Typed { value, datatype, .. } => CxfValue::Typed {
            value: owned(value.as_str()),
            datatype: owned(datatype.as_str()),
            extra: Vec::new(),
        },
    }
}

fn push_term(other: &mut Vec<(String, JsonValue)>, key: &str, v: &Option<String>, Ghost(t): Ghost<Seq<(Seq<char>, Seq<char>)>>)
    requires
        terms_is(old(other)@, t),
    ensures
        terms_is(final(other)@, t + opt_entry(key@, *v)),
{
    if let Some(s) = v {
        let ghost o0 = other@;
        other.push((owned(key), JsonValue::Str(owned(s.as_str()))));
        proof {
            let t2 = t + opt_entry(key@, *v);
            assert forall|k: int| 0 <= k < t2.len() implies (#[trigger] other@[k]).0@ == t2[k].0 && (other@[k].1 matches JsonValue::Str(
                x,
            ) && x@ == t2[k].1) by {
                if k < o0.len() {
                    assert(other@[k] == o0[k]);
                }
            }
        }
    } else {
        assert(t + opt_entry(key@, *v) =~= t);
    }
}

fn attr_fields(a: &PortAttrs) -> (r: (Option<CxfValue>, Option<CxfValue>, Vec<(String, JsonValue)>))
    ensures
        attrs_emitted(*a, r.0, r.1, r.2@),
{
    match a {
        PortAttrs::Real { unit, quantity, display_unit, min, max } => {
            let mut other: Vec<(String, JsonValue)> = Vec::new();
            push_term(&mut other, "S231:unit", unit, Ghost(Seq::empty()));
            push_term(&mut other, "S231:quantity", quantity, Ghost(opt_entry("S231:unit"@, *unit)));
            push_term(
                &mut other,
                "S231:displayUnit",
                display_unit,
                Ghost(opt_entry("S231:unit"@, *unit) + opt_entry("S231:quantity"@, *quantity)),
            );
            let lo = match min {
                Some(b) => Some(CxfValue::Float(*b)),
                None => None,
            };
            let hi = match max {
                Some(b) => Some(CxfValue::Float(*b)),
                None => None,
            };
            (lo, hi, other)
        },
        PortAttrs::Integer { min, max } => {
            let lo = match min {
                Some(b) => Some(CxfValue::Int(*b)),
                None => None,
            };
            let hi = match max {
                Some(b) => Some(CxfValue::Int(*b)),
                None => None,
            };
            (lo, hi, Vec::new())
        },
        PortAttrs::Empty => (None, None, Vec::new()),
    }
}


fn boundary_iris(bs: &Vec<PlannedBoundary>) -> (r: Vec<String>)
    ensures
        names(r@) == boundaries_view(bs@).map_values(|b: BoundaryV| b.iri),
{
    let mut r: Vec<String> = Vec::new();
    let mut i: usize = 0;
    while i < bs.len()
        invariant
            i <= bs@.len(),
            names(r@) == boundaries_view(bs@).map_values(|b: BoundaryV| b.iri).take(i as int),
        decreases bs@.len() - i,
    {
        let ghost r0 = r@;
        r.push(owned(bs[i].iri.as_str()));
        proof {
            assert(names(r@) =~= names(r0).push(r@[i as int]@));
            assert(boundaries_view(bs@).map_values(|b: BoundaryV| b.iri).take(i + 1) =~= boundaries_view(bs@).map_values(|b: BoundaryV| b.iri).take(i as int).push(boundaries_view(bs@).map_values(|b: BoundaryV| b.iri)[i as int]));
            assert(names(r@) =~= boundaries_view(bs@).map_values(|b: BoundaryV| b.iri).take(i + 1));
        }
        i += 1;
    }
    assert(boundaries_view(bs@).map_values(|b: BoundaryV| b.iri).take(i as int) =~= boundaries_view(bs@).map_values(
        |b: BoundaryV| b.iri,
    ));
    r
}

fn bout_iris(os: &Vec<PlannedBoundaryOutput>) -> (r: Vec<String>)
    ensures
        names(r@) == bouts_view(os@).map_values(|o: (Seq<char>, Seq<char>)| o.0),
{
    let mut r: Vec<String> = Vec::new();
    let mut i: usize = 0;
    while i < os.len()
        invariant
            i <= os@.len(),
            names(r@) == bouts_view(os@).map_values(|o: (Seq<char>, Seq<char>)| o.0).take(i as int),
        decreases os@.len() - i,
    {
        let ghost r0 = r@;
        r.push(owned(os[i].iri.as_str()));
        proof {
            assert(names(r@) =~= names(r0).push(r@[i as int]@));
            assert(bouts_view(os@).map_values(|o: (Seq<char>, Seq<char>)| o.0).take(i + 1) =~= bouts_view(os@).map_values(|o: (Seq<char>, Seq<char>)| o.0).take(i as int).push(bouts_view(os@).map_values(|o: (Seq<char>, Seq<char>)| o.0)[i as int]));
            assert(names(r@) =~= bouts_view(os@).map_values(|o: (Seq<char>, Seq<char>)| o.0).take(i + 1));
        }
        i += 1;
    }
    assert(bouts_view(os@).map_values(|o: (Seq<char>, Seq<char>)| o.0).take(i as int) =~= bouts_view(os@).map_values(
        |o: (Seq<char>, Seq<char>)| o.0,
    ));
    r
}

fn block_iris(bs: &Vec<PlannedBlock>) -> (r: Vec<String>)
    ensures
        names(r@) == bs@.map_values(|b: PlannedBlock| b.iri@),
{
    let mut r: Vec<String> = Vec::new();
    let mut i: usize = 0;
    while i < bs.len()
        invariant
            i <= bs@.len(),
            names(r@) == bs@.map_values(|b: PlannedBlock| b.iri@).take(i as int),
        decreases bs@.len() - i,
    {
        let ghost r0 = r@;
        r.push(owned(bs[i].iri.as_str()));
        proof {
            assert(names(r@) =~= names(r0).push(r@[i as int]@));
            assert(bs@.map_values(|b: PlannedBlock| b.iri@).take(i + 1) =~= bs@.map_values(|b: PlannedBlock| b.iri@).take(i as int).push(bs@.map_values(|b: PlannedBlock| b.iri@)[i as int]));
            assert(names(r@) =~= bs@.map_values(|b: PlannedBlock| b.iri@).take(i + 1));
        }
        i += 1;
    }
    assert(bs@.map_values(|b: PlannedBlock| b.iri@).take(i as int) =~= bs@.map_values(|b: PlannedBlock| b.iri@));
    r
}

fn param_ids(ps: &Vec<(String, CxfValue)>) -> (r: Vec<String>)
    ensures
        names(r@) == ps@.map_values(|x: (String, CxfValue)| x.0@),
{
    let mut r: Vec<String> = Vec::new();
    let mut i: usize = 0;
    while i < ps.len()
        invariant
            i <= ps@.len(),
            names(r@) == ps@.map_values(|x: (String, CxfValue)| x.0@).take(i as int),
        decreases ps@.len() - i,
    {
        let ghost r0 = r@;
        r.push(owned(ps[i].0.as_str()));
        proof {
            assert(names(r@) =~= names(r0).push(r@[i as int]@));
            assert(ps@.map_values(|x: (String, CxfValue)| x.0@).take(i + 1) =~= ps@.map_values(|x: (String, CxfValue)| x.0@).take(i as int).push(ps@.map_values(|x: (String, CxfValue)| x.0@)[i as int]));
            assert(names(r@) =~= ps@.map_values(|x: (String, CxfValue)| x.0@).take(i + 1));
        }
        i += 1;
    }
    assert(ps@.map_values(|x: (String, CxfValue)| x.0@).take(i as int) =~= ps@.map_values(|x: (String, CxfValue)| x.0@));
    r
}

fn root_node(p: &Plan) -> (n: Node)
    ensures
        root_node_is(n, *p),
{
    let mut n = blank_node(owned("urn:open-control:cxf-export:root"));
    n.types = Some(OneOrMany::One(owned("S231:Block")));
    n.has_input = make_refs(&boundary_iris(&p.boundaries));
    n.has_output = make_refs(&bout_iris(&p.boundary_outputs));
    n.contains_block = make_refs(&block_iris(&p.blocks));
    n
}

fn block_node(b: &PlannedBlock) -> (n: Node)
    ensures
        block_node_is(n, *b),
{
    let mut n = blank_node(owned(b.iri.as_str()));
    n.types = Some(OneOrMany::One(owned(b.type_iri.as_str())));
    n.has_input = make_refs(&b.input_ports);
    n.has_output = make_refs(&b.output_ports);
    n.has_parameter = make_refs(&param_ids(&b.params));
    n
}

fn param_node(id: &String, v: &CxfValue) -> (n: Node)
    ensures
        param_node_is(n, id@, *v),
{
    let mut n = blank_node(owned(id.as_str()));
    n.value = Some(copy_binding(v));
    n
}

fn port_node(p: &PlannedPort) -> (n: Node)
    ensures
        port_node_is(n, *p),
{
    let mut n = blank_node(owned(p.iri.as_str()));
    n.is_of_data_type = term_ref(p.datatype.as_str());
    n.is_connected_to = make_refs(&p.targets);
    let (lo, hi, other) = attr_fields(&p.attrs);
    n.min = lo;
    n.max = hi;
    n.other = other;
    n
}

fn boundary_node(b: &PlannedBoundary) -> (n: Node)
    ensures
        boundary_node_is(n, *b),
{
    let mut n = blank_node(owned(b.iri.as_str()));
    n.is_of_data_type = term_ref(b.datatype.as_str());
    n.is_connected_to = make_refs(&b.targets);
    n
}

fn bout_node(o: &PlannedBoundaryOutput) -> (n: Node)
    ensures
        bout_node_is(n, *o),
{
    let mut n = blank_node(owned(o.iri.as_str()));
    n.is_of_data_type = term_ref(o.datatype.as_str());
    n
}

proof fn lemma_block_nodes_step(nodes: Seq<Node>, blocks: Seq<PlannedBlock>, i: int, b: PlannedBlock, extra: Seq<Node>)
    requires
        0 <= i < blocks.len(),
        blocks[i] == b,
        block_nodes_is(nodes, blocks.take(i)),
        nodes.len() == block_nodes_len(blocks.take(i)),
        extra.len() == 1 + b.params@.len(),
        block_node_is(extra[0], b),
        forall|k: int| 0 <= k < b.params@.len() ==> param_node_is(#[trigger] extra[1 + k], b.params@[k].0@, b.params@[k].1),
    ensures
        block_nodes_is(nodes + extra, blocks.take(i + 1)),
        (nodes + extra).len() == block_nodes_len(blocks.take(i + 1)),
{
    let bs = blocks.take(i + 1);
    assert(bs.drop_last() =~= blocks.take(i));
    assert(bs.last() == b);
    let all = nodes + extra;
    let m = all.len() - 1 - b.params@.len();
    assert(m == nodes.len());
    assert(all.take(m) =~= nodes);
    assert(all[m] == extra[0]);
    assert forall|k: int| 0 <= k < b.params@.len() implies param_node_is(
        #[trigger] all[m + 1 + k],
        b.params@[k].0@,
        b.params@[k].1,
    ) by {
        assert(all[m + 1 + k] == extra[1 + k]);
    }
}

/// Render a validated plan as the document: the root, each block followed by its parameter
/// nodes, the ports, the boundary inputs, the boundary outputs, and the `S231` context.
pub fn build(p: &Plan) -> (doc: CxfDocument)
    ensures
        doc_is(doc, *p),
{
    let mut graph: Vec<Node> = Vec::new();
    graph.push(root_node(p));
    let ghost root = graph@[0];
    let mut i: usize = 0;
    while i < p.blocks.len()
        invariant
            i <= p.blocks@.len(),
            graph@.len() >= 1,
            graph@[0] == root,
            root_node_is(root, *p),
            graph@.len() == 1 + block_nodes_len(p.blocks@.take(i as int)),
            block_nodes_is(graph@.subrange(1, graph@.len() as int), p.blocks@.take(i as int)),
        decreases p.blocks@.len() - i,
    {
        let b = &p.blocks[i];
        let ghost g0 = graph@;
        graph.push(block_node(b));
        let mut k: usize = 0;
        while k < b.params.len()
            invariant
                k <= b.params@.len(),
                b == p.blocks@[i as int],
                graph@.len() == g0.len() + 1 + k,
                graph@.take(g0.len() as int) == g0,
                block_node_is(graph@[g0.len() as int], *b),
                forall|kk: int|
                    0 <= kk < k ==> param_node_is(#[trigger] graph@[g0.len() + 1 + kk], b.params@[kk].0@, b.params@[kk].1),
            decreases b.params@.len() - k,
        {
            let ghost g1 = graph@;
            graph.push(param_node(&b.params[k].0, &b.params[k].1));
            proof {
                assert(graph@.take(g0.len() as int) =~= g1.take(g0.len() as int));
                assert(graph@[g0.len() as int] == g1[g0.len() as int]);
                assert forall|kk: int| 0 <= kk < k + 1 implies param_node_is(
                    #[trigger] graph@[g0.len() + 1 + kk],
                    b.params@[kk].0@,
                    b.params@[kk].1,
                ) by {
                    if kk < k {
                        assert(graph@[g0.len() + 1 + kk] == g1[g0.len() + 1 + kk]);
                    }
                }
            }
            k += 1;
        }
        proof {
            let nodes = g0.subrange(1, g0.len() as int);
            let extra = graph@.subrange(g0.len() as int, graph@.len() as int);
            assert forall|kk: int| 0 <= kk < b.params@.len() implies param_node_is(
                #[trigger] extra[1 + kk],
                b.params@[kk].0@,
                b.params@[kk].1,
            ) by {
                assert(extra[1 + kk] == graph@[g0.len() + 1 + kk]);
            }
            lemma_block_nodes_step(nodes, p.blocks@, i as int, *b, extra);
            assert(graph@.subrange(1, graph@.len() as int) =~= nodes + extra);
            assert(graph@[0] == g0[0]);
        }
        i += 1;
    }
    assert(p.blocks@.take(p.blocks@.len() as int) =~= p.blocks@);
    let ghost base = graph@;
    let mut j: usize = 0;
    while j < p.ports.len()
        invariant
            j <= p.ports@.len(),
            graph@.len() == base.len() + j,
            graph@.take(base.len() as int) == base,
            forall|jj: int| 0 <= jj < j ==> port_node_is(#[trigger] graph@[base.len() + jj], p.ports@[jj]),
        decreases p.ports@.len() - j,
    {
        let ghost g1 = graph@;
        graph.push(port_node(&p.ports[j]));
        proof {
            assert(graph@.take(base.len() as int) =~= g1.take(base.len() as int));
            assert forall|jj: int| 0 <= jj < j + 1 implies port_node_is(#[trigger] graph@[base.len() + jj], p.ports@[jj]) by {
                if jj < j {
                    assert(graph@[base.len() + jj] == g1[base.len() + jj]);
                }
            }
        }
        j += 1;
    }
    let ghost base2 = graph@;
    let mut j: usize = 0;
    while j < p.boundaries.len()
        invariant
            j <= p.boundaries@.len(),
            graph@.len() == base2.len() + j,
            graph@.take(base2.len() as int) == base2,
            forall|jj: int| 0 <= jj < j ==> boundary_node_is(#[trigger] graph@[base2.len() + jj], p.boundaries@[jj]),
        decreases p.boundaries@.len() - j,
    {
        let ghost g1 = graph@;
        graph.push(boundary_node(&p.boundaries[j]));
        proof {
            assert(graph@.take(base2.len() as int) =~= g1.take(base2.len() as int));
            assert forall|jj: int| 0 <= jj < j + 1 implies boundary_node_is(
                #[trigger] graph@[base2.len() + jj],
                p.boundaries@[jj],
            ) by {
                if jj < j {
                    assert(graph@[base2.len() + jj] == g1[base2.len() + jj]);
                }
            }
        }
        j += 1;
    }
    let ghost base3 = graph@;
    let mut j: usize = 0;
    while j < p.boundary_outputs.len()
        invariant
            j <= p.boundary_outputs@.len(),
            graph@.len() == base3.len() + j,
            graph@.take(base3.len() as int) == base3,
            forall|jj: int| 0 <= jj < j ==> bout_node_is(#[trigger] graph@[base3.len() + jj], p.boundary_outputs@[jj]),
        decreases p.boundary_outputs@.len() - j,
    {
        let ghost g1 = graph@;
        graph.push(bout_node(&p.boundary_outputs[j]));
        proof {
            assert(graph@.take(base3.len() as int) =~= g1.take(base3.len() as int));
            assert forall|jj: int| 0 <= jj < j + 1 implies bout_node_is(
                #[trigger] graph@[base3.len() + jj],
                p.boundary_outputs@[jj],
            ) by {
                if jj < j {
                    assert(graph@[base3.len() + jj] == g1[base3.len() + jj]);
                }
            }
        }
        j += 1;
    }
    proof {
        let nb = block_nodes_len(p.blocks@) as int;
        let np = p.ports@.len() as int;
        let nx = p.boundaries@.len() as int;
        let gr = graph@;
        assert(gr.take(base3.len() as int).take(base2.len() as int) =~= gr.take(base2.len() as int));
        assert(gr.take(base2.len() as int).take(base.len() as int) =~= gr.take(base.len() as int));
        assert(gr[0] == base[0]);
        assert(gr.subrange(1, 1 + nb) =~= base.subrange(1, base.len() as int));
        assert forall|jj: int| 0 <= jj < np implies port_node_is(#[trigger] gr[1 + nb + jj], p.ports@[jj]) by {
            assert(gr[1 + nb + jj] == base2[base.len() + jj]);
        }
        assert forall|jj: int| 0 <= jj < nx implies boundary_node_is(#[trigger] gr[1 + nb + np + jj], p.boundaries@[jj]) by {
            assert(gr[1 + nb + np + jj] == base3[base2.len() + jj]);
        }
    }
    let mut context: Vec<(String, JsonValue)> = Vec::new();
    context.push((owned("S231"), JsonValue::Str(owned("http://data.ashrae.org/S231P#"))));
    CxfDocument { context: Context::PrefixMap(context), graph, other: Vec::new() }
}


/// The outcome of exporting under the deferral `order`/`warnings`: the warnings followed by every
/// rejection when there is one, else the document of the plan with the warnings.
pub open spec fn documented(
    g: ModelGraph,
    order: Seq<usize>,
    warnings: Seq<Diagnostic>,
    r: Result<(CxfDocument, Vec<Diagnostic>), Vec<Diagnostic>>,
) -> bool {
    let fs = plan_findings(g, order);
    if fs.len() > 0 {
        r matches Err(d) && appends(warnings, d@, fs)
    } else {
        r matches Ok((doc, ws)) && ws@ == warnings && exists|p: Plan| #[trigger] plan_is(g, order, p) && doc_is(doc, p)
    }
}

/// Export `g` as a CXF document with its deferral warnings, or reject it with every error (after
/// the warnings): an empty graph and one whose ids are not their positions are rejected whole.
pub fn document(g: &ModelGraph) -> (r: Result<(CxfDocument, Vec<Diagnostic>), Vec<Diagnostic>>)
    ensures
        g.blocks@.len() == 0 ==> (r matches Err(d) && d@.len() == 1 && is_finding(
            d@[0],
            whole_v(msg_spec(ExportMsg::Empty)),
        )),
        g.blocks@.len() > 0 && !dense(*g) ==> (r matches Err(d) && d@.len() == 1 && is_finding(
            d@[0],
            whole_v(msg_spec(ExportMsg::Structure)),
        )),
        g.blocks@.len() > 0 && dense(*g) ==> exists|w: Seq<Diagnostic>| #[trigger]
            is_deferral(*g, deferral_order(*g), w) && documented(*g, deferral_order(*g), w, r),
{
    let planned_r = plan(g);
    let ghost pr = planned_r;
    match planned_r {
        Ok((p, ws)) => {
            let doc = build(&p);
            let r = Ok((doc, ws));
            proof {
                if g.blocks@.len() > 0 && dense(*g) {
                    let o = deferral_order(*g);
                    let w = choose|w: Seq<Diagnostic>| #[trigger]
                        is_deferral(*g, deferral_order(*g), w) && planned(*g, deferral_order(*g), w, pr);
                    assert(plan_is(*g, o, p) && doc_is(doc, p));
                    assert(documented(*g, o, w, r));
                }
            }
            r
        },
        Err(d) => {
            let r = Err(d);
            proof {
                if g.blocks@.len() > 0 && dense(*g) {
                    let o = deferral_order(*g);
                    let w = choose|w: Seq<Diagnostic>| #[trigger]
                        is_deferral(*g, deferral_order(*g), w) && planned(*g, deferral_order(*g), w, pr);
                    assert(documented(*g, o, w, r));
                }
            }
            r
        },
    }
}


// ---- the deferred set decides the export ----

/// `a` and `b` hold the same blocks.
pub open spec fn same_blocks(a: Seq<usize>, b: Seq<usize>) -> bool {
    forall|x: usize| #[trigger] a.contains(x) == b.contains(x)
}

proof fn lemma_blocks_same(g: ModelGraph, a: Seq<usize>, b: Seq<usize>, k: nat)
    requires
        same_blocks(a, b),
    ensures
        blocks_v(g, a, k) == blocks_v(g, b, k),
    decreases k,
{
    if k > 0 && k <= g.blocks@.len() {
        lemma_blocks_same(g, a, b, (k - 1) as nat);
        assert(a.contains((k - 1) as usize) == b.contains((k - 1) as usize));
    }
}

proof fn lemma_orphans_same(g: ModelGraph, a: Seq<usize>, b: Seq<usize>, pi: Seq<Option<Seq<char>>>, k: nat)
    requires
        same_blocks(a, b),
    ensures
        orphan_findings(g, a, pi, k) == orphan_findings(g, b, pi, k),
    decreases k,
{
    if k > 0 && k <= g.connectors@.len() {
        lemma_orphans_same(g, a, b, pi, (k - 1) as nat);
        assert(a.contains(g.connectors@[k - 1].block.0 as usize) == b.contains(g.connectors@[k - 1].block.0 as usize));
    }
}

proof fn lemma_connectors_same(g: ModelGraph, a: Seq<usize>, b: Seq<usize>, k: nat)
    requires
        same_blocks(a, b),
    ensures
        connectors_findings(g, a, k) == connectors_findings(g, b, k),
    decreases k,
{
    if k > 0 && k <= g.connectors@.len() {
        lemma_connectors_same(g, a, b, (k - 1) as nat);
        assert(a.contains(g.connectors@[k - 1].block.0 as usize) == b.contains(g.connectors@[k - 1].block.0 as usize));
        assert(connector_findings_v(g, a, k - 1) == connector_findings_v(g, b, k - 1));
    }
}

proof fn lemma_edges_same(g: ModelGraph, a: Seq<usize>, b: Seq<usize>, pi: Seq<Option<Seq<char>>>, k: nat)
    requires
        same_blocks(a, b),
    ensures
        edges_v(g, a, pi, k) == edges_v(g, b, pi, k),
    decreases k,
{
    if k > 0 && k <= g.connections@.len() {
        lemma_edges_same(g, a, b, pi, (k - 1) as nat);
        let f = g.connections@[k - 1].from.0 as int;
        if f < g.connectors@.len() {
            assert(a.contains(g.connectors@[f].block.0 as usize) == b.contains(g.connectors@[f].block.0 as usize));
        }
    }
}

proof fn lemma_bouts_same(
    g: ModelGraph,
    a: Seq<usize>,
    b: Seq<usize>,
    pi: Seq<Option<Seq<char>>>,
    seen: Seq<Seq<char>>,
    t: Seq<Seq<Seq<char>>>,
    k: nat,
)
    requires
        same_blocks(a, b),
    ensures
        bouts_v(g, a, pi, seen, t, k) == bouts_v(g, b, pi, seen, t, k),
    decreases k,
{
    if k > 0 && k <= g.boundary_outputs@.len() {
        lemma_bouts_same(g, a, b, pi, seen, t, (k - 1) as nat);
        let idx = g.boundary_outputs@[k - 1].source.0 as int;
        if idx < g.connectors@.len() {
            assert(a.contains(g.connectors@[idx].block.0 as usize) == b.contains(g.connectors@[idx].block.0 as usize));
        }
    }
}

proof fn lemma_externals_same(g: ModelGraph, a: Seq<usize>, b: Seq<usize>, pi: Seq<Option<Seq<char>>>, st: ExtS, k: nat)
    requires
        same_blocks(a, b),
    ensures
        externals_v(g, a, pi, st, k) == externals_v(g, b, pi, st, k),
    decreases k,
{
    if k > 0 && k <= g.external_inputs@.len() {
        lemma_externals_same(g, a, b, pi, st, (k - 1) as nat);
        let s1 = externals_v(g, a, pi, st, (k - 1) as nat).0;
        let cid = g.external_inputs@[k - 1];
        let idx = cid.0 as int;
        if idx < g.connectors@.len() {
            assert(a.contains(g.connectors@[idx].block.0 as usize) == b.contains(g.connectors@[idx].block.0 as usize));
        }
        assert(ext_step(g, a, pi, s1, cid) == ext_step(g, b, pi, s1, cid));
    }
}

proof fn lemma_emitted_same(g: ModelGraph, a: Seq<usize>, b: Seq<usize>, k: nat)
    requires
        same_blocks(a, b),
    ensures
        emitted_connectors(g, a, k) == emitted_connectors(g, b, k),
    decreases k,
{
    if k > 0 && k <= g.connectors@.len() {
        lemma_emitted_same(g, a, b, (k - 1) as nat);
        assert(a.contains(g.connectors@[k - 1].block.0 as usize) == b.contains(g.connectors@[k - 1].block.0 as usize));
    }
}

/// The export does not depend on the order a deferral lists its blocks in: any two deferrals of
/// a graph defer the same blocks, and under either the graph has the same rejections and the
/// same plans.
pub proof fn lemma_export_independent_of_deferral_order(
    g: ModelGraph,
    o1: Seq<usize>,
    w1: Seq<Diagnostic>,
    o2: Seq<usize>,
    w2: Seq<Diagnostic>,
)
    requires
        is_deferral(g, o1, w1),
        is_deferral(g, o2, w2),
    ensures
        o1.to_set() == o2.to_set(),
        plan_findings(g, o1) == plan_findings(g, o2),
        forall|p: Plan| plan_is(g, o1, p) == plan_is(g, o2, p),
{
    assert(closed_under_cascade(g, o2.to_set()));
    assert(closed_under_cascade(g, o1.to_set()));
    lemma_deferral_is_least(g, o1, w1, o2.to_set());
    lemma_deferral_is_least(g, o2, w2, o1.to_set());
    assert(o1.to_set() =~= o2.to_set());
    assert forall|x: usize| #[trigger] o1.contains(x) == o2.contains(x) by {
        assert(o1.to_set().contains(x) == o1.contains(x));
        assert(o2.to_set().contains(x) == o2.contains(x));
    }
    lemma_blocks_same(g, o1, o2, g.blocks@.len());
    let b = stage_blocks(g, o1);
    lemma_orphans_same(g, o1, o2, b.0.port_iri, g.connectors@.len());
    lemma_connectors_same(g, o1, o2, g.connectors@.len());
    lemma_edges_same(g, o1, o2, b.0.port_iri, g.connections@.len());
    let e = stage_edges(g, o1);
    lemma_bouts_same(g, o1, o2, b.0.port_iri, b.0.seen, e.0.targets, g.boundary_outputs@.len());
    let bo = stage_bouts(g, o1);
    lemma_externals_same(
        g,
        o1,
        o2,
        b.0.port_iri,
        ExtS { seen: bo.0, bouts: bo.2, boundaries: seq![], listed: seq![] },
        g.external_inputs@.len(),
    );
    lemma_emitted_same(g, o1, o2, g.connectors@.len());
    assert forall|p: Plan| plan_is(g, o1, p) == plan_is(g, o2, p) by {
        let en = emitted_connectors(g, o1, g.connectors@.len());
        assert forall|j: int| 0 <= j < en.len() implies port_attrs_ok(g, o1, en[j], p.ports@[j].attrs) == port_attrs_ok(
            g,
            o2,
            en[j],
            p.ports@[j].attrs,
        ) by {
            assert(o1.contains(g.connectors@[en[j]].block.0 as usize) == o2.contains(g.connectors@[en[j]].block.0 as usize));
        }
    }
}


/// Exporting a graph twice gives the same answer: the deferral order is fixed, so both exports
/// accept or both reject, two rejections carry the same diagnostics in the same order, and two
/// acceptances the same warnings and the same document.
pub proof fn lemma_export_deterministic(
    g: ModelGraph,
    w1: Seq<Diagnostic>,
    r1: Result<(CxfDocument, Vec<Diagnostic>), Vec<Diagnostic>>,
    w2: Seq<Diagnostic>,
    r2: Result<(CxfDocument, Vec<Diagnostic>), Vec<Diagnostic>>,
)
    requires
        is_deferral(g, deferral_order(g), w1),
        documented(g, deferral_order(g), w1, r1),
        is_deferral(g, deferral_order(g), w2),
        documented(g, deferral_order(g), w2, r2),
    ensures
        r1 is Ok <==> r2 is Ok,
        r1 matches Err(d1) ==> (r2 matches Err(d2) && same_diags(d1@, d2@)),
        r1 matches Ok((doc1, ws1)) ==> (r2 matches Ok((doc2, ws2)) && same_diags(ws1@, ws2@)
            && crate::export_same::doc_view(doc1) == crate::export_same::doc_view(doc2)),
{
    let o = deferral_order(g);
    lemma_deferral_warnings_determined(g, o, w1, w2);
    if r1 is Ok && r2 is Ok {
        let doc1 = r1->Ok_0.0;
        let doc2 = r2->Ok_0.0;
        let p1 = choose|p: Plan| #[trigger] plan_is(g, o, p) && doc_is(doc1, p);
        let p2 = choose|p: Plan| #[trigger] plan_is(g, o, p) && doc_is(doc2, p);
        crate::export_same::lemma_doc_same(g, o, p1, p2, doc1, doc2);
    }
    let fs = plan_findings(g, o);
    if fs.len() > 0 {
        let d1 = r1->Err_0@;
        let d2 = r2->Err_0@;
        assert forall|i: int| 0 <= i < d1.len() implies crate::diag::same_diag(#[trigger] d1[i], d2[i]) by {
            if i < w1.len() {
                assert(d1[i] == d1.take(w1.len() as int)[i]);
                assert(d2[i] == d2.take(w2.len() as int)[i]);
                assert(crate::diag::same_diag(w1[i], w2[i]));
            } else {
                let k = i - w1.len();
                assert(is_finding(d1[w1.len() + k], fs[k]));
                assert(is_finding(d2[w2.len() + k], fs[k]));
            }
        }
    }
}


/// An accepted export's warnings are all `ExportDeferred` warnings, and there are none exactly
/// when no block carries an enumeration connector or an enumeration parameter.
pub proof fn lemma_export_warnings(
    g: ModelGraph,
    w: Seq<Diagnostic>,
    r: Result<(CxfDocument, Vec<Diagnostic>), Vec<Diagnostic>>,
)
    requires
        is_deferral(g, deferral_order(g), w),
        documented(g, deferral_order(g), w, r),
        r is Ok,
    ensures
        forall|i: int|
            0 <= i < r->Ok_0.1@.len() ==> (#[trigger] r->Ok_0.1@[i]).severity == Severity::Warning && r->Ok_0.1@[i].code
                == DiagCode::ExportDeferred,
        r->Ok_0.1@.len() == 0 <==> !(exists|b: int| 0 <= b < g.blocks@.len() && #[trigger] is_enum_block(g, b)),
{
    crate::export_defer::lemma_deferral_warnings_shape(g, deferral_order(g), w);
}

} // verus!
