//! The enum deferral pre-pass of export: detect enum-carrying blocks, grow the deferred set to its
//! transitive cascade fixpoint, and emit the `ExportDeferred` warnings.
//!
//! `enum_blocks` are the blocks carrying any enumeration-typed connector or enumeration-valued
//! parameter. The deferred set is the least set containing them plus every block one of whose
//! formerly-driven inputs is fed only by deferred blocks. An input with no driver at all does not
//! cascade, and neither does one with a driver whose connector id does not resolve.
//!
//! Every deferral message is rendered in one pass, so a placeholder-shaped value (`{class}` in an
//! `instance_iri`) lands verbatim and is never read as template.
use vstd::prelude::*;
use std::collections::BTreeSet;
use crate::diag::{same_diags, DiagCode, Diagnostic, Severity};
use crate::model::{BlockInstance, ConnectorId, EnumClassId, ModelGraph, Value, ValueType};
use crate::text::{decimal, decimal_string, owned, push_str};

verus! {

broadcast use {vstd::laws_cmp::group_laws_cmp, vstd::std_specs::btree::group_btree_axioms};

// ---------------------------------------------------------------------------------------------
// Message rendering

pub open spec fn msg_connector_spec(subject: Seq<char>, class: Seq<char>) -> Seq<char> {
    "export subset: deferring block `"@ + subject
        + "` \u{2014} enumeration-typed connector (class `"@ + class
        + "`) has no CXF literal form; the block and its downstream consumers are omitted from the emitted document so the enum-free remainder can export"@
}

pub open spec fn msg_param_spec(subject: Seq<char>, name: Seq<char>, class: Seq<char>) -> Seq<
    char,
> {
    "export subset: deferring block `"@ + subject + "` \u{2014} parameter `"@ + name
        + "` is enumeration-valued (class `"@ + class
        + "`); the block and its downstream consumers are omitted from the emitted document so the enum-free remainder can export"@
}

pub open spec fn msg_cascade_spec(subject: Seq<char>, conn: Seq<char>) -> Seq<char> {
    "export subset: deferring block `"@ + subject + "` \u{2014} all drivers of input connector `"@
        + conn
        + "` were deferred (upstream enumeration); the block is omitted from the emitted document so the enum-free remainder can export"@
}

/// Deferral message for a block carrying an enumeration-typed connector.
pub fn msg_enum_defer_connector(subject: &str, class: &str) -> (r: String)
    ensures
        r@ == msg_connector_spec(subject@, class@),
{
    let mut r = owned("export subset: deferring block `");
    push_str(&mut r, subject);
    push_str(&mut r, "` \u{2014} enumeration-typed connector (class `");
    push_str(&mut r, class);
    push_str(
        &mut r,
        "`) has no CXF literal form; the block and its downstream consumers are omitted from the emitted document so the enum-free remainder can export",
    );
    r
}

/// Deferral message for a block carrying an enumeration-valued parameter.
pub fn msg_enum_defer_param(subject: &str, name: &str, class: &str) -> (r: String)
    ensures
        r@ == msg_param_spec(subject@, name@, class@),
{
    let mut r = owned("export subset: deferring block `");
    push_str(&mut r, subject);
    push_str(&mut r, "` \u{2014} parameter `");
    push_str(&mut r, name);
    push_str(&mut r, "` is enumeration-valued (class `");
    push_str(&mut r, class);
    push_str(
        &mut r,
        "`); the block and its downstream consumers are omitted from the emitted document so the enum-free remainder can export",
    );
    r
}

/// Deferral message for a block deferred by the cascade: every driver of one of its inputs was
/// itself deferred. `conn` is `in{k}` for the input's position in the block's own input list.
pub fn msg_enum_defer_cascade(subject: &str, conn: &str) -> (r: String)
    ensures
        r@ == msg_cascade_spec(subject@, conn@),
{
    let mut r = owned("export subset: deferring block `");
    push_str(&mut r, subject);
    push_str(&mut r, "` \u{2014} all drivers of input connector `");
    push_str(&mut r, conn);
    push_str(
        &mut r,
        "` were deferred (upstream enumeration); the block is omitted from the emitted document so the enum-free remainder can export",
    );
    r
}

/// The label of an enumeration class: `EnumClass#` and its decimal id (injective in the id).
pub open spec fn class_label_spec(id: EnumClassId) -> Seq<char> {
    "EnumClass#"@ + decimal(id.0 as nat)
}

/// A short, stable label for an enumeration class.
pub fn enum_class_label(id: EnumClassId) -> (r: String)
    ensures
        r@ == class_label_spec(id),
{
    let mut r = owned("EnumClass#");
    let digits = decimal_string(id.0 as usize);
    push_str(&mut r, digits.as_str());
    r
}

/// The diagnostic subject of block `bi`: its `instance_iri`, else `block#bi`.
pub open spec fn block_subject_spec(g: ModelGraph, bi: int) -> Seq<char> {
    if 0 <= bi < g.blocks@.len() && g.blocks@[bi].instance_iri is Some {
        g.blocks@[bi].instance_iri->0@
    } else {
        "block#"@ + decimal(bi as nat)
    }
}

/// The diagnostic subject of block `bi`.
pub fn block_subject(g: &ModelGraph, bi: usize) -> (r: String)
    ensures
        r@ == block_subject_spec(*g, bi as int),
{
    if bi < g.blocks.len() {
        if let Some(iri) = &g.blocks[bi].instance_iri {
            return owned(iri.as_str());
        }
    }
    let mut r = owned("block#");
    let digits = decimal_string(bi);
    push_str(&mut r, digits.as_str());
    r
}

// ---------------------------------------------------------------------------------------------
// Enum detection

/// The enumeration class a connector id carries, when it resolves to an enumeration connector.
pub open spec fn connector_enum(g: ModelGraph, c: ConnectorId) -> Option<EnumClassId> {
    if (c.0 as int) < g.connectors@.len() {
        match g.connectors@[c.0 as int].value_type {
            ValueType::Enum(id) => Some(id),
            _ => None,
        }
    } else {
        None
    }
}

/// The class of the first enumeration connector among `ports`.
pub open spec fn first_enum_port(g: ModelGraph, ports: Seq<ConnectorId>) -> Option<EnumClassId>
    decreases ports.len(),
{
    if ports.len() == 0 {
        None
    } else if connector_enum(g, ports[0]) is Some {
        connector_enum(g, ports[0])
    } else {
        first_enum_port(g, ports.drop_first())
    }
}

/// The class of block `bi`'s first enumeration connector, in inputs-then-outputs order.
pub open spec fn enum_connector_class(g: ModelGraph, bi: int) -> Option<EnumClassId> {
    if 0 <= bi < g.blocks@.len() {
        first_enum_port(g, g.blocks@[bi].inputs@ + g.blocks@[bi].outputs@)
    } else {
        None
    }
}

/// The first enumeration-valued parameter among `ps`: its name and class.
pub open spec fn first_enum_param(ps: Seq<(String, Value)>) -> Option<(Seq<char>, EnumClassId)>
    decreases ps.len(),
{
    if ps.len() == 0 {
        None
    } else {
        match ps[0].1 {
            Value::Enum { class, .. } => Some((ps[0].0@, class)),
            _ => first_enum_param(ps.drop_first()),
        }
    }
}

/// Block `bi`'s first enumeration-valued parameter.
pub open spec fn enum_param_of(g: ModelGraph, bi: int) -> Option<(Seq<char>, EnumClassId)> {
    if 0 <= bi < g.blocks@.len() {
        first_enum_param(g.blocks@[bi].params.values@)
    } else {
        None
    }
}

/// Block `bi` carries an enumeration connector or an enumeration parameter.
pub open spec fn is_enum_block(g: ModelGraph, bi: int) -> bool {
    enum_connector_class(g, bi) is Some || enum_param_of(g, bi) is Some
}

proof fn lemma_first_enum_port_skip(g: ModelGraph, ports: Seq<ConnectorId>, i: int)
    requires
        0 <= i <= ports.len(),
        forall|j: int| 0 <= j < i ==> connector_enum(g, #[trigger] ports[j]) is None,
    ensures
        first_enum_port(g, ports) == first_enum_port(g, ports.subrange(i, ports.len() as int)),
    decreases i,
{
    if i > 0 {
        lemma_first_enum_port_skip(g, ports.drop_first(), i - 1);
        assert(ports.drop_first().subrange(i - 1, ports.drop_first().len() as int) =~= ports.subrange(
            i,
            ports.len() as int,
        ));
    } else {
        assert(ports.subrange(0, ports.len() as int) =~= ports);
    }
}

fn connector_enum_of(g: &ModelGraph, c: ConnectorId) -> (r: Option<EnumClassId>)
    ensures
        r == connector_enum(*g, c),
{
    let index = c.0 as usize;
    if index < g.connectors.len() {
        match g.connectors[index].value_type {
            ValueType::Enum(id) => Some(id),
            _ => None,
        }
    } else {
        None
    }
}

/// The class of block `bi`'s first enumeration-typed connector, in inputs-then-outputs order.
pub fn has_enum_connector(g: &ModelGraph, bi: usize) -> (r: Option<EnumClassId>)
    ensures
        r == enum_connector_class(*g, bi as int),
{
    if bi >= g.blocks.len() {
        return None;
    }
    let b: &BlockInstance = &g.blocks[bi];
    let ghost ports = b.inputs@ + b.outputs@;
    let mut i: usize = 0;
    while i < b.inputs.len()
        invariant
            bi < g.blocks@.len(),
            b == g.blocks@[bi as int],
            ports == b.inputs@ + b.outputs@,
            i <= b.inputs@.len(),
            forall|j: int| 0 <= j < i ==> connector_enum(*g, #[trigger] ports[j]) is None,
        decreases b.inputs@.len() - i,
    {
        let c = b.inputs[i];
        assert(c == ports[i as int]);
        if let Some(id) = connector_enum_of(g, c) {
            proof {
                lemma_first_enum_port_skip(*g, ports, i as int);
                assert(ports.subrange(i as int, ports.len() as int)[0] == c);
            }
            return Some(id);
        }
        i += 1;
    }
    let mut o: usize = 0;
    while o < b.outputs.len()
        invariant
            bi < g.blocks@.len(),
            b == g.blocks@[bi as int],
            ports == b.inputs@ + b.outputs@,
            o <= b.outputs@.len(),
            forall|j: int| 0 <= j < b.inputs@.len() + o ==> connector_enum(*g, #[trigger] ports[j]) is None,
        decreases b.outputs@.len() - o,
    {
        let c = b.outputs[o];
        let ghost at = b.inputs@.len() + o;
        assert(c == ports[at]);
        if let Some(id) = connector_enum_of(g, c) {
            proof {
                lemma_first_enum_port_skip(*g, ports, at);
                assert(ports.subrange(at, ports.len() as int)[0] == c);
            }
            return Some(id);
        }
        o += 1;
    }
    proof {
        lemma_first_enum_port_skip(*g, ports, ports.len() as int);
    }
    None
}

proof fn lemma_first_enum_param_skip(ps: Seq<(String, Value)>, i: int)
    requires
        0 <= i <= ps.len(),
        forall|j: int| 0 <= j < i ==> !((#[trigger] ps[j]).1 is Enum),
    ensures
        first_enum_param(ps) == first_enum_param(ps.subrange(i, ps.len() as int)),
    decreases i,
{
    if i > 0 {
        lemma_first_enum_param_skip(ps.drop_first(), i - 1);
        assert(ps.drop_first().subrange(i - 1, ps.drop_first().len() as int) =~= ps.subrange(
            i,
            ps.len() as int,
        ));
    } else {
        assert(ps.subrange(0, ps.len() as int) =~= ps);
    }
}

/// Block `bi`'s first enumeration-valued parameter, as its name and class.
pub fn has_enum_param(g: &ModelGraph, bi: usize) -> (r: Option<(&str, EnumClassId)>)
    ensures
        match r {
            Some((name, class)) => enum_param_of(*g, bi as int) == Some((name@, class)),
            None => enum_param_of(*g, bi as int) is None,
        },
{
    if bi >= g.blocks.len() {
        return None;
    }
    let ps = &g.blocks[bi].params.values;
    let mut i: usize = 0;
    while i < ps.len()
        invariant
            bi < g.blocks@.len(),
            *ps == g.blocks@[bi as int].params.values,
            i <= ps@.len(),
            forall|j: int| 0 <= j < i ==> !((#[trigger] ps@[j]).1 is Enum),
        decreases ps@.len() - i,
    {
        if let Value::Enum { class, .. } = &ps[i].1 {
            proof {
                lemma_first_enum_param_skip(ps@, i as int);
                let sub = ps@.subrange(i as int, ps@.len() as int);
                assert(sub[0] == ps@[i as int]);
                assert(first_enum_param(sub) == Some((sub[0].0@, *class)));
            }
            return Some((ps[i].0.as_str(), *class));
        }
        i += 1;
    }
    proof {
        lemma_first_enum_param_skip(ps@, ps@.len() as int);
    }
    None
}


// ---------------------------------------------------------------------------------------------
// The cascade

/// The owner block a connection's driving connector claims, when the driver resolves.
pub open spec fn driver_owner(g: ModelGraph, j: int) -> usize {
    g.connectors@[g.connections@[j].from.0 as int].block.0 as usize
}

/// The driver of connection `j` resolves to a connector.
pub open spec fn driver_resolves(g: ModelGraph, j: int) -> bool {
    (g.connections@[j].from.0 as int) < g.connectors@.len()
}

/// Input connector `input` was driven in the original graph and every one of its drivers
/// resolves to a connector owned by a block of `d`.
pub open spec fn starved(g: ModelGraph, input: ConnectorId, d: Set<usize>) -> bool {
    &&& exists|j: int| 0 <= j < g.connections@.len() && (#[trigger] g.connections@[j]).to == input
    &&& forall|j: int|
        0 <= j < g.connections@.len() && (#[trigger] g.connections@[j]).to == input
            ==> driver_resolves(g, j) && d.contains(driver_owner(g, j))
}

/// Input `k` of block `bi` is starved by `d`.
pub open spec fn ready_input(g: ModelGraph, bi: int, k: int, d: Set<usize>) -> bool {
    &&& 0 <= bi < g.blocks@.len()
    &&& 0 <= k < g.blocks@[bi].inputs@.len()
    &&& starved(g, g.blocks@[bi].inputs@[k], d)
}

/// Block `bi` has an input starved by `d`.
pub open spec fn cascadable(g: ModelGraph, bi: int, d: Set<usize>) -> bool {
    exists|k: int| ready_input(g, bi, k, d)
}

/// `k` is the first input of block `bi` starved by `d`.
pub open spec fn first_ready(g: ModelGraph, bi: int, k: int, d: Set<usize>) -> bool {
    &&& ready_input(g, bi, k, d)
    &&& forall|k2: int| 0 <= k2 < k ==> !ready_input(g, bi, k2, d)
}

/// `d` is a warning of the deferral shape for `subject` carrying `message`.
pub open spec fn is_deferral_warning(d: Diagnostic, subject: Seq<char>, message: Seq<char>) -> bool {
    &&& d.severity == Severity::Warning
    &&& d.code == DiagCode::ExportDeferred
    &&& d.message@ == message
    &&& d.subject matches Some(s) && s@ == subject
}

/// The warning for enum block `bi`: the connector message when it carries an enumeration
/// connector, else the parameter message.
pub open spec fn is_enum_warning(g: ModelGraph, bi: int, d: Diagnostic) -> bool {
    let subject = block_subject_spec(g, bi);
    match enum_connector_class(g, bi) {
        Some(id) => is_deferral_warning(d, subject, msg_connector_spec(subject, class_label_spec(id))),
        None => match enum_param_of(g, bi) {
            Some((name, id)) => is_deferral_warning(
                d,
                subject,
                msg_param_spec(subject, name, class_label_spec(id)),
            ),
            None => false,
        },
    }
}

/// The cascade warning for block `bi` triggered by its input `k`.
pub open spec fn is_cascade_warning(g: ModelGraph, bi: int, k: int, d: Diagnostic) -> bool {
    let subject = block_subject_spec(g, bi);
    is_deferral_warning(d, subject, msg_cascade_spec(subject, "in"@ + decimal(k as nat)))
}

/// Entry `i` of a deferral order is justified: an enum block with its enum warning, or a block
/// whose first input starved by the blocks deferred before it names that input in its warning.
pub open spec fn entry_ok(g: ModelGraph, order: Seq<usize>, warnings: Seq<Diagnostic>, i: int) -> bool {
    let b = order[i] as int;
    if is_enum_block(g, b) {
        is_enum_warning(g, b, warnings[i])
    } else {
        exists|k: int|
            first_ready(g, b, k, order.take(i).to_set()) && #[trigger] is_cascade_warning(
                g,
                b,
                k,
                warnings[i],
            )
    }
}

/// `order`/`warnings` is the deferral of `g`: distinct in-range blocks, one warning each; the enum
/// blocks first in ascending order; every later block justified by the blocks before it; every
/// enum block deferred; and no surviving block has an input starved by the deferred set.
pub open spec fn is_deferral(g: ModelGraph, order: Seq<usize>, warnings: Seq<Diagnostic>) -> bool {
    &&& order.no_duplicates()
    &&& forall|i: int| 0 <= i < order.len() ==> (#[trigger] order[i] as int) < g.blocks@.len()
    &&& warnings.len() == order.len()
    &&& forall|i: int| 0 <= i < order.len() ==> #[trigger] entry_ok(g, order, warnings, i)
    &&& forall|i: int, j: int|
        0 <= i < j < order.len() && is_enum_block(g, #[trigger] order[j] as int) ==> is_enum_block(
            g,
            #[trigger] order[i] as int,
        ) && order[i] < order[j]
    &&& forall|b: int| 0 <= b < g.blocks@.len() && is_enum_block(g, b) ==> order.contains(b as usize)
    &&& forall|b: int|
        0 <= b < g.blocks@.len() && !order.contains(b as usize) ==> !cascadable(g, b, order.to_set())
}

/// `s` holds every enum block and every block with an input starved by `s`.
pub open spec fn closed_under_cascade(g: ModelGraph, s: Set<usize>) -> bool {
    &&& forall|b: int| 0 <= b < g.blocks@.len() && is_enum_block(g, b) ==> s.contains(b as usize)
    &&& forall|b: int| 0 <= b < g.blocks@.len() && cascadable(g, b, s) ==> s.contains(b as usize)
}

proof fn lemma_starved_monotone(g: ModelGraph, input: ConnectorId, d1: Set<usize>, d2: Set<usize>)
    requires
        d1.subset_of(d2),
        starved(g, input, d1),
    ensures
        starved(g, input, d2),
{
}

/// Whether input connector `input` is starved by the blocks `done` holds.
fn input_starved(g: &ModelGraph, input: ConnectorId, done: &BTreeSet<usize>) -> (r: bool)
    ensures
        r == starved(*g, input, done@),
{
    let mut found = false;
    let mut j: usize = 0;
    while j < g.connections.len()
        invariant
            j <= g.connections@.len(),
            found == exists|j2: int| 0 <= j2 < j && (#[trigger] g.connections@[j2]).to == input,
            forall|j2: int|
                0 <= j2 < j && (#[trigger] g.connections@[j2]).to == input ==> driver_resolves(
                    *g,
                    j2,
                ) && done@.contains(driver_owner(*g, j2)),
        decreases g.connections@.len() - j,
    {
        let c = g.connections[j];
        if c.to == input {
            found = true;
            let from = c.from.0 as usize;
            if from >= g.connectors.len() {
                return false;
            }
            let owner = g.connectors[from].block.0 as usize;
            if !done.contains(&owner) {
                assert(!done@.contains(driver_owner(*g, j as int)));
                return false;
            }
        }
        j += 1;
    }
    found
}

/// The first input of block `bi` starved by the blocks `done` holds.
fn first_ready_input(g: &ModelGraph, bi: usize, done: &BTreeSet<usize>) -> (r: Option<usize>)
    requires
        bi < g.blocks@.len(),
    ensures
        match r {
            Some(k) => first_ready(*g, bi as int, k as int, done@),
            None => !cascadable(*g, bi as int, done@),
        },
{
    let inputs = &g.blocks[bi].inputs;
    let mut k: usize = 0;
    while k < inputs.len()
        invariant
            bi < g.blocks@.len(),
            *inputs == g.blocks@[bi as int].inputs,
            k <= inputs@.len(),
            forall|k2: int| 0 <= k2 < k ==> !ready_input(*g, bi as int, k2, done@),
        decreases inputs@.len() - k,
    {
        if input_starved(g, inputs[k], done) {
            return Some(k);
        }
        k += 1;
    }
    None
}

/// The enum blocks among the first `k`, ascending.
pub open spec fn enum_order(g: ModelGraph, k: nat) -> Seq<usize>
    decreases k,
{
    if k == 0 || k > g.blocks@.len() {
        seq![]
    } else {
        enum_order(g, (k - 1) as nat) + if is_enum_block(g, k - 1) {
            seq![(k - 1) as usize]
        } else {
            seq![]
        }
    }
}

/// One ascending scan of the first `k` blocks from the deferral `order`: each block not yet
/// deferred that has an input starved by the blocks deferred so far (this scan's included) is
/// deferred in turn.
pub open spec fn scan_v(g: ModelGraph, order: Seq<usize>, k: nat) -> Seq<usize>
    decreases k,
{
    if k == 0 || k > g.blocks@.len() {
        order
    } else {
        let o = scan_v(g, order, (k - 1) as nat);
        if !o.contains((k - 1) as usize) && cascadable(g, k - 1, o.to_set()) {
            o.push((k - 1) as usize)
        } else {
            o
        }
    }
}

/// Scans of all blocks from `order`, repeated until a scan defers nothing.
pub open spec fn cascade_v(g: ModelGraph, order: Seq<usize>) -> Seq<usize>
    decreases g.blocks@.len() - order.len(),
{
    let o = scan_v(g, order, g.blocks@.len());
    if order.len() < o.len() <= g.blocks@.len() {
        cascade_v(g, o)
    } else {
        o
    }
}

/// The deferral order: the enum blocks ascending, then the cascade by repeated ascending scans.
pub open spec fn deferral_order(g: ModelGraph) -> Seq<usize> {
    cascade_v(g, enum_order(g, g.blocks@.len()))
}

/// Distinct block positions below `n` number at most `n`.
proof fn lemma_distinct_below(s: Seq<usize>, n: usize)
    requires
        s.no_duplicates(),
        forall|i: int| 0 <= i < s.len() ==> (#[trigger] s[i] as int) < n,
    ensures
        s.len() <= n,
{
    let t = s.map_values(|x: usize| x as int);
    assert forall|i: int, j: int| 0 <= i < t.len() && 0 <= j < t.len() && i != j implies t[i] != t[j] by {
        assert(s[i] != s[j]);
    }
    assert(t.no_duplicates());
    t.unique_seq_to_set();
    vstd::set_lib::lemma_int_range(0, n as int);
    assert forall|x: int| t.to_set().contains(x) implies vstd::set_lib::set_int_range(0, n as int).contains(x) by {
        let i = choose|i: int| 0 <= i < t.len() && t[i] == x;
        assert(s[i] < n);
    }
    vstd::set_lib::lemma_len_subset(t.to_set(), vstd::set_lib::set_int_range(0, n as int));
}

/// Compute the deferral: the enum blocks in ascending order, then the cascade grown to its
/// fixpoint by repeated ascending scans, with one `ExportDeferred` warning per deferred block.
/// Returns the deferred block indices in deferral order and their warnings.
pub fn deferral_set(g: &ModelGraph) -> (r: (Vec<usize>, Vec<Diagnostic>))
    ensures
        is_deferral(*g, r.0@, r.1@),
        r.0@ == deferral_order(*g),
{
    let n = g.blocks.len();
    let mut done: BTreeSet<usize> = BTreeSet::new();
    let mut order: Vec<usize> = Vec::new();
    let mut warnings: Vec<Diagnostic> = Vec::new();
    assert(order@.to_set() =~= done@);
    // Phase 1: the enum blocks, ascending, each with its warning.
    let mut bi: usize = 0;
    while bi < n
        invariant
            n == g.blocks@.len(),
            bi <= n,
            order@ == enum_order(*g, bi as nat),
            order@.no_duplicates(),
            order@.to_set() == done@,
            warnings@.len() == order@.len(),
            forall|i: int| 0 <= i < order@.len() ==> (#[trigger] order@[i] as int) < bi,
            forall|i: int| 0 <= i < order@.len() ==> is_enum_block(*g, #[trigger] order@[i] as int),
            forall|i: int, j: int| 0 <= i < j < order@.len() ==> order@[i] < order@[j],
            forall|i: int| 0 <= i < order@.len() ==> #[trigger] entry_ok(*g, order@, warnings@, i),
            forall|b: int| 0 <= b < bi ==> (done@.contains(b as usize) <==> is_enum_block(*g, b)),
            forall|b: usize| bi <= b < n ==> !done@.contains(b),
        decreases n - bi,
    {
        let connector = has_enum_connector(g, bi);
        let param = has_enum_param(g, bi);
        if connector.is_some() || param.is_some() {
            let subject = block_subject(g, bi);
            let message = match connector {
                Some(id) => {
                    let class = enum_class_label(id);
                    msg_enum_defer_connector(subject.as_str(), class.as_str())
                },
                None => {
                    let (name, id) = param.unwrap();
                    let class = enum_class_label(id);
                    msg_enum_defer_param(subject.as_str(), name, class.as_str())
                },
            };
            let w = Diagnostic::warning(DiagCode::ExportDeferred, message).with_subject(subject);
            assert(is_enum_warning(*g, bi as int, w));
            proof {
                assert(!done@.contains(bi));
                assert(!order@.to_set().contains(bi));
                assert(!order@.contains(bi));
            }
            let ghost old_order = order@;
            let ghost old_warnings = warnings@;
            done.insert(bi);
            order.push(bi);
            warnings.push(w);
            proof {
                assert(order@.to_set() =~= done@) by {
                    old_order.lemma_push_to_set_commute(bi);
                }
                assert forall|i: int| 0 <= i < order@.len() implies #[trigger] entry_ok(
                    *g,
                    order@,
                    warnings@,
                    i,
                ) by {
                    if i < old_order.len() {
                        assert(entry_ok(*g, old_order, old_warnings, i));
                        assert(order@.take(i) =~= old_order.take(i));
                    }
                }
                assert(order@.no_duplicates());
            }
        }
        bi += 1;
    }
    let ghost n_enum = order@.len();
    // Phase 2: the cascade, by repeated ascending scans until a scan defers nothing.
    loop
        invariant_except_break
            cascade_v(*g, order@) == deferral_order(*g),
        invariant
            n == g.blocks@.len(),
            n_enum <= order@.len(),
            order@.no_duplicates(),
            order@.to_set() == done@,
            warnings@.len() == order@.len(),
            forall|i: int| 0 <= i < order@.len() ==> (#[trigger] order@[i] as int) < n,
            forall|i: int| 0 <= i < n_enum ==> is_enum_block(*g, #[trigger] order@[i] as int),
            forall|i: int| n_enum <= i < order@.len() ==> !is_enum_block(*g, #[trigger] order@[i] as int),
            forall|i: int, j: int| 0 <= i < j < n_enum ==> order@[i] < order@[j],
            forall|i: int| 0 <= i < order@.len() ==> #[trigger] entry_ok(*g, order@, warnings@, i),
            forall|b: int| 0 <= b < n && is_enum_block(*g, b) ==> done@.contains(b as usize),
        ensures
            forall|b: int|
                0 <= b < n && !order@.contains(b as usize) ==> !cascadable(*g, b, order@.to_set()),
            order@ == deferral_order(*g),
        decreases n - order@.len(),
    {
        let before = order.len();
        let ghost pass_set = done@;
        let ghost start = order@;
        let mut bi: usize = 0;
        while bi < n
            invariant
                n == g.blocks@.len(),
                    bi <= n,
                before <= order@.len(),
                n_enum <= before,
                order@.no_duplicates(),
                order@.to_set() == done@,
                    warnings@.len() == order@.len(),
                forall|i: int| 0 <= i < order@.len() ==> (#[trigger] order@[i] as int) < n,
                forall|i: int| 0 <= i < n_enum ==> is_enum_block(*g, #[trigger] order@[i] as int),
                forall|i: int|
                    n_enum <= i < order@.len() ==> !is_enum_block(*g, #[trigger] order@[i] as int),
                forall|i: int, j: int| 0 <= i < j < n_enum ==> order@[i] < order@[j],
                forall|i: int| 0 <= i < order@.len() ==> #[trigger] entry_ok(*g, order@, warnings@, i),
                forall|b: int| 0 <= b < n && is_enum_block(*g, b) ==> done@.contains(b as usize),
                order@ == scan_v(*g, start, bi as nat),
                start.len() == before,
                order@.len() == before ==> done@ == pass_set,
                order@.len() == before ==> forall|b: int|
                    0 <= b < bi && !done@.contains(b as usize) ==> !cascadable(*g, b, pass_set),
            decreases n - bi,
        {
            let ghost scanned = order@;
            proof {
                assert(done@.contains(bi) == done@.contains(bi));
                assert(order@.to_set().contains(bi) == order@.contains(bi));
            }
            if !done.contains(&bi) {
                let ghost old_set = done@;
                if let Some(k) = first_ready_input(g, bi, &done) {
                    let subject = block_subject(g, bi);
                    let mut conn = owned("in");
                    let digits = decimal_string(k);
                    push_str(&mut conn, digits.as_str());
                    let message = msg_enum_defer_cascade(subject.as_str(), conn.as_str());
                    let w = Diagnostic::warning(DiagCode::ExportDeferred, message).with_subject(
                        subject,
                    );
                    let ghost old_order = order@;
                    let ghost old_warnings = warnings@;
                    proof {
                        assert(!done@.contains(bi));
                        assert(!order@.to_set().contains(bi));
                        assert(!order@.contains(bi));
                        assert(!is_enum_block(*g, bi as int));
                        assert(is_cascade_warning(*g, bi as int, k as int, w));
                        assert(old_order.to_set() == old_order.take(old_order.len() as int).to_set())
                            by {
                            assert(old_order.take(old_order.len() as int) =~= old_order);
                        }
                    }
                    done.insert(bi);
                    order.push(bi);
                    warnings.push(w);
                    proof {
                        assert(order@.to_set() =~= done@) by {
                            old_order.lemma_push_to_set_commute(bi);
                        }
                        assert(order@.take(old_order.len() as int) =~= old_order);
                        assert forall|i: int| 0 <= i < order@.len() implies #[trigger] entry_ok(
                            *g,
                            order@,
                            warnings@,
                            i,
                        ) by {
                            if i < old_order.len() {
                                assert(entry_ok(*g, old_order, old_warnings, i));
                                assert(order@.take(i) =~= old_order.take(i));
                                assert(warnings@[i] == old_warnings[i]);
                                assert(order@[i] == old_order[i]);
                                let b = old_order[i] as int;
                                if !is_enum_block(*g, b) {
                                    let k2 = choose|k2: int|
                                        first_ready(*g, b, k2, old_order.take(i).to_set())
                                            && #[trigger] is_cascade_warning(*g, b, k2, old_warnings[i]);
                                    assert(is_cascade_warning(*g, b, k2, warnings@[i]));
                                }
                            } else {
                                assert(order@.take(i) =~= old_order);
                                assert(old_order.to_set() == old_set);
                                assert(first_ready(*g, bi as int, k as int, order@.take(i).to_set()));
                                assert(order@[i] == bi);
                                assert(!is_enum_block(*g, order@[i] as int));
                                assert(is_cascade_warning(*g, bi as int, k as int, warnings@[i]));
                            }
                        }
                        assert(ready_input(*g, bi as int, k as int, scanned.to_set()));
                        assert(cascadable(*g, bi as int, scanned.to_set()));
                    }
                }
            }
            proof {
                assert(scanned == scan_v(*g, start, bi as nat));
                assert(order@ == scan_v(*g, start, (bi + 1) as nat));
            }
            bi += 1;
        }
        if order.len() == before {
            proof {
                assert(order@ == deferral_order(*g));
                assert forall|b: int|
                    0 <= b < n && !order@.contains(b as usize) implies !cascadable(
                    *g,
                    b,
                    order@.to_set(),
                ) by {
                    assert(!done@.contains(b as usize));
                }
            }
            break;
        }
        proof {
            lemma_distinct_below(order@, n);
        }
    }
    proof {
        assert forall|i: int, j: int|
            0 <= i < j < order@.len() && is_enum_block(*g, #[trigger] order@[j] as int) implies is_enum_block(
            *g,
            #[trigger] order@[i] as int,
        ) && order@[i] < order@[j] by {}
        assert forall|b: int| 0 <= b < g.blocks@.len() && is_enum_block(*g, b) implies order@.contains(
            b as usize,
        ) by {
            assert(done@.contains(b as usize));
        }
        assert(order@.no_duplicates());
        assert(forall|i: int| 0 <= i < order@.len() ==> (#[trigger] order@[i] as int) < g.blocks@.len());
        assert(warnings@.len() == order@.len());
        assert(forall|i: int| 0 <= i < order@.len() ==> #[trigger] entry_ok(*g, order@, warnings@, i));
        assert(forall|b: int|
            0 <= b < g.blocks@.len() && !order@.contains(b as usize) ==> !cascadable(*g, b, order@.to_set()));
    }
    (order, warnings)
}

/// A deferral order decides its warnings: two warning lists that justify the same order carry
/// the same diagnostics.
pub proof fn lemma_deferral_warnings_determined(g: ModelGraph, order: Seq<usize>, w1: Seq<Diagnostic>, w2: Seq<Diagnostic>)
    requires
        is_deferral(g, order, w1),
        is_deferral(g, order, w2),
    ensures
        same_diags(w1, w2),
{
    assert forall|i: int| 0 <= i < w1.len() implies crate::diag::same_diag(#[trigger] w1[i], w2[i]) by {
        assert(entry_ok(g, order, w1, i));
        assert(entry_ok(g, order, w2, i));
        let b = order[i] as int;
        if !is_enum_block(g, b) {
            let d = order.take(i).to_set();
            let k1 = choose|k: int| first_ready(g, b, k, d) && #[trigger] is_cascade_warning(g, b, k, w1[i]);
            let k2 = choose|k: int| first_ready(g, b, k, d) && #[trigger] is_cascade_warning(g, b, k, w2[i]);
            if k1 < k2 {
                assert(!ready_input(g, b, k1, d));
            }
            if k2 < k1 {
                assert(!ready_input(g, b, k2, d));
            }
            assert(k1 == k2);
        }
    }
}

/// The deferred set is the least set closed under the cascade: every set holding the enum blocks
/// and every block with an input starved by it contains every deferred block.
pub proof fn lemma_deferral_is_least(
    g: ModelGraph,
    order: Seq<usize>,
    warnings: Seq<Diagnostic>,
    s: Set<usize>,
)
    requires
        is_deferral(g, order, warnings),
        closed_under_cascade(g, s),
    ensures
        order.to_set().subset_of(s),
{
    assert forall|i: int| 0 <= i <= order.len() implies #[trigger] order.take(i).to_set().subset_of(s) by {
        lemma_prefix_in_closed(g, order, warnings, s, i);
    }
    assert(order.take(order.len() as int) =~= order);
    assert(order.take(order.len() as int).to_set().subset_of(s));
}

proof fn lemma_prefix_in_closed(
    g: ModelGraph,
    order: Seq<usize>,
    warnings: Seq<Diagnostic>,
    s: Set<usize>,
    i: int,
)
    requires
        is_deferral(g, order, warnings),
        closed_under_cascade(g, s),
        0 <= i <= order.len(),
    ensures
        order.take(i).to_set().subset_of(s),
    decreases i,
{
    if i > 0 {
        lemma_prefix_in_closed(g, order, warnings, s, i - 1);
        let b = order[i - 1];
        assert(entry_ok(g, order, warnings, i - 1));
        assert((order[i - 1] as int) < g.blocks@.len());
        if is_enum_block(g, b as int) {
            assert(s.contains(b));
        } else {
            let k = choose|k: int|
                first_ready(g, b as int, k, order.take(i - 1).to_set()) && #[trigger] is_cascade_warning(
                    g,
                    b as int,
                    k,
                    warnings[i - 1],
                );
            lemma_starved_monotone(
                g,
                g.blocks@[b as int].inputs@[k],
                order.take(i - 1).to_set(),
                s,
            );
            assert(ready_input(g, b as int, k, s));
            assert(cascadable(g, b as int, s));
            assert(s.contains(b));
        }
        assert(order.take(i) =~= order.take(i - 1).push(b));
        order.take(i - 1).lemma_push_to_set_commute(b);
    }
}

/// Deferral never strands a survivor: every formerly-driven input of a block that is not
/// deferred keeps a driver that either does not resolve or is owned by a surviving block.
pub proof fn lemma_survivors_keep_a_driver(
    g: ModelGraph,
    order: Seq<usize>,
    warnings: Seq<Diagnostic>,
    b: usize,
    k: int,
    j: int,
)
    requires
        is_deferral(g, order, warnings),
        (b as int) < g.blocks@.len(),
        !order.contains(b),
        0 <= k < g.blocks@[b as int].inputs@.len(),
        0 <= j < g.connections@.len(),
        g.connections@[j].to == g.blocks@[b as int].inputs@[k],
    ensures
        exists|j2: int|
            0 <= j2 < g.connections@.len() && (#[trigger] g.connections@[j2]).to == g.blocks@[b as int].inputs@[k]
                && !(driver_resolves(g, j2) && order.contains(driver_owner(g, j2))),
{
    let bi = b as int;
    assert(bi as usize == b);
    assert(!cascadable(g, bi, order.to_set()));
    assert(!ready_input(g, bi, k, order.to_set()));
    assert(!starved(g, g.blocks@[bi].inputs@[k], order.to_set()));
    assert(g.connections@[j].to == g.blocks@[bi].inputs@[k]);
}


/// Every deferral warning is an `ExportDeferred` warning, and there are none exactly when no
/// block carries an enumeration connector or an enumeration parameter.
pub proof fn lemma_deferral_warnings_shape(g: ModelGraph, order: Seq<usize>, warnings: Seq<Diagnostic>)
    requires
        is_deferral(g, order, warnings),
    ensures
        forall|i: int|
            0 <= i < warnings.len() ==> (#[trigger] warnings[i]).severity == Severity::Warning && warnings[i].code
                == DiagCode::ExportDeferred,
        warnings.len() == 0 <==> !(exists|b: int| 0 <= b < g.blocks@.len() && #[trigger] is_enum_block(g, b)),
{
    assert forall|i: int| 0 <= i < warnings.len() implies (#[trigger] warnings[i]).severity == Severity::Warning
        && warnings[i].code == DiagCode::ExportDeferred by {
        assert(entry_ok(g, order, warnings, i));
        let b = order[i] as int;
        if !is_enum_block(g, b) {
            let k = choose|k: int|
                first_ready(g, b, k, order.take(i).to_set()) && #[trigger] is_cascade_warning(g, b, k, warnings[i]);
        }
    }
    if exists|b: int| 0 <= b < g.blocks@.len() && #[trigger] is_enum_block(g, b) {
        let b = choose|b: int| 0 <= b < g.blocks@.len() && #[trigger] is_enum_block(g, b);
        assert(order.contains(b as usize));
    } else if order.len() > 0 {
        assert(entry_ok(g, order, warnings, 0));
        let b = order[0] as int;
        assert(!is_enum_block(g, b));
        let d = order.take(0).to_set();
        assert(d =~= Set::empty());
        let k = choose|k: int| first_ready(g, b, k, d) && #[trigger] is_cascade_warning(g, b, k, warnings[0]);
        let input = g.blocks@[b].inputs@[k];
        let j = choose|j: int| 0 <= j < g.connections@.len() && (#[trigger] g.connections@[j]).to == input;
        assert(d.contains(driver_owner(g, j)));
    }
}


/// Connector id `c` names an enumeration-typed connector.
pub open spec fn enum_typed(g: ModelGraph, c: ConnectorId) -> bool {
    (c.0 as int) < g.connectors@.len() && g.connectors@[c.0 as int].value_type is Enum
}

proof fn lemma_first_enum_port_some(g: ModelGraph, ports: Seq<ConnectorId>)
    ensures
        first_enum_port(g, ports) is Some <==> exists|i: int| 0 <= i < ports.len() && #[trigger] enum_typed(g, ports[i]),
    decreases ports.len(),
{
    if ports.len() > 0 {
        let rest = ports.drop_first();
        lemma_first_enum_port_some(g, rest);
        assert(connector_enum(g, ports[0]) is Some <==> enum_typed(g, ports[0]));
        if first_enum_port(g, ports) is Some {
            if !enum_typed(g, ports[0]) {
                let i = choose|i: int| 0 <= i < rest.len() && #[trigger] enum_typed(g, rest[i]);
                assert(ports[i + 1] == rest[i]);
            }
        } else {
            assert forall|i: int| 0 <= i < ports.len() implies !#[trigger] enum_typed(g, ports[i]) by {
                if i > 0 {
                    assert(ports[i] == rest[i - 1]);
                }
            }
        }
    }
}

proof fn lemma_first_enum_port_first(g: ModelGraph, ports: Seq<ConnectorId>, i: int)
    requires
        0 <= i < ports.len(),
        enum_typed(g, ports[i]),
        forall|j: int| 0 <= j < i ==> !#[trigger] enum_typed(g, ports[j]),
    ensures
        first_enum_port(g, ports) == Some(g.connectors@[ports[i].0 as int].value_type->Enum_0),
    decreases i,
{
    assert(connector_enum(g, ports[0]) is Some <==> enum_typed(g, ports[0]));
    if i > 0 {
        let rest = ports.drop_first();
        assert(!enum_typed(g, ports[0]));
        assert forall|j: int| 0 <= j < i - 1 implies !#[trigger] enum_typed(g, rest[j]) by {
            assert(rest[j] == ports[j + 1]);
        }
        assert(rest[i - 1] == ports[i]);
        lemma_first_enum_port_first(g, rest, i - 1);
    }
}

/// A block carries an enumeration connector exactly when one of its input or output connectors
/// is enumeration-typed, and the class reported is that of the first such connector, its inputs
/// before its outputs.
#[verifier::rlimit(40)]
pub proof fn lemma_enum_connector_class(g: ModelGraph, bi: int)
    requires
        0 <= bi < g.blocks@.len(),
    ensures
        enum_connector_class(g, bi) is Some <==> (exists|i: int|
            0 <= i < g.blocks@[bi].inputs@.len() && #[trigger] enum_typed(g, g.blocks@[bi].inputs@[i])) || (exists|i: int|
            0 <= i < g.blocks@[bi].outputs@.len() && #[trigger] enum_typed(g, g.blocks@[bi].outputs@[i])),
        forall|i: int|
            0 <= i < g.blocks@[bi].inputs@.len() && #[trigger] enum_typed(g, g.blocks@[bi].inputs@[i]) && (forall|j: int|
                0 <= j < i ==> !enum_typed(g, g.blocks@[bi].inputs@[j])) ==> enum_connector_class(g, bi) == Some(
                g.connectors@[g.blocks@[bi].inputs@[i].0 as int].value_type->Enum_0,
            ),
        is_enum_block(g, bi) <== (exists|i: int|
            0 <= i < g.blocks@[bi].inputs@.len() && #[trigger] enum_typed(g, g.blocks@[bi].inputs@[i])),
{
    let ins = g.blocks@[bi].inputs@;
    let outs = g.blocks@[bi].outputs@;
    let ports = ins + outs;
    lemma_first_enum_port_some(g, ports);
    if exists|i: int| 0 <= i < ins.len() && #[trigger] enum_typed(g, ins[i]) {
        let i = choose|i: int| 0 <= i < ins.len() && #[trigger] enum_typed(g, ins[i]);
        assert(ports[i] == ins[i]);
    }
    if exists|i: int| 0 <= i < outs.len() && #[trigger] enum_typed(g, outs[i]) {
        let i = choose|i: int| 0 <= i < outs.len() && #[trigger] enum_typed(g, outs[i]);
        assert(ports[ins.len() + i] == outs[i]);
    }
    if exists|i: int| 0 <= i < ports.len() && #[trigger] enum_typed(g, ports[i]) {
        let i = choose|i: int| 0 <= i < ports.len() && #[trigger] enum_typed(g, ports[i]);
        if i < ins.len() {
            assert(ports[i] == ins[i]);
        } else {
            assert(ports[i] == outs[i - ins.len()]);
        }
    }
    assert forall|i: int|
        0 <= i < ins.len() && #[trigger] enum_typed(g, ins[i]) && (forall|j: int| 0 <= j < i ==> !enum_typed(g, ins[j]))
            implies enum_connector_class(g, bi) == Some(g.connectors@[ins[i].0 as int].value_type->Enum_0) by {
        assert(ports[i] == ins[i]);
        assert forall|j: int| 0 <= j < i implies !#[trigger] enum_typed(g, ports[j]) by {
            assert(ports[j] == ins[j]);
        }
        lemma_first_enum_port_first(g, ports, i);
    }
}

} // verus!
