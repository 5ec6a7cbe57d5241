//! CXF-lowering-subset contract-rule identities and the published rule catalog.
//!
//! Every composite-subset contract rejection carries a stable, machine-readable rule identity by
//! convention, without extending [`Diagnostic`](crate::diag::Diagnostic): the message begins with
//! the `composite/<rule-id>: ` prefix rendered by [`CompositeRule::message`], and the catalog maps
//! each rule id to its [`DiagCode`] string, message prefix and one-line summary. Emission sites
//! and the catalog generator read the one table below, so tag and catalog cannot drift.
//!
//! Determinism: catalog entries are written in table order, object fields in fixed order, and
//! every string serializes through `serde_json`; repeated generation is byte-identical.
use vstd::prelude::*;
use crate::diag::{code_name, DiagCode};
use crate::json::{json_quoted, json_str};
use crate::text::{owned, push_str};

verus! {

/// One composite-subset contract rule.
#[derive(Clone, Copy, Debug)]
pub struct CompositeRule {
    /// Stable kebab-case rule id; `composite/<id>: ` is the machine-readable message prefix.
    pub id: &'static str,
    /// The diagnostic code every rejection under this rule carries.
    pub code: DiagCode,
    /// One-line rule summary, published in the catalog.
    pub summary: &'static str,
}

/// The rules of the lowering subset.
#[derive(Clone, Copy, Debug, PartialEq, Eq, Structural)]
pub enum RuleKind {
    /// Nested classification must select exactly one top composite root.
    RootCount,
    /// The nested composite `containsBlock` graph must be acyclic.
    ContainsCycle,
    /// `isReplaceable=true` must be resolved before import.
    Replaceable,
    /// Banned Modelica construct keys must not survive lowering.
    BannedModelicaKey,
    /// Array-valued composite parameters are outside the subset.
    ArrayParameter,
    /// Active array-valued connectors are outside the subset.
    ArrayConnector,
    /// Active array-valued block instances are outside the subset.
    ArrayInstance,
    /// A block's own declarations must not reference each other in a cycle.
    DeclarationCycle,
    /// A local name is declared at most once in a block's own declaration chain.
    DuplicateDeclaration,
    /// A `hasInstance` member must be a direct member named by a declared port or parameter.
    UnsupportedInstanceMember,
    /// `hasInstance` derivation covers classes with scalar ports only.
    VectorPortInstance,
    /// Interface derivation mints each connector and parameter identity once.
    CollidingMemberIdentity,
}

/// The id of a rule.
pub open spec fn rule_id(k: RuleKind) -> Seq<char> {
    match k {
        RuleKind::RootCount => "root-count"@,
        RuleKind::ContainsCycle => "contains-cycle"@,
        RuleKind::Replaceable => "replaceable"@,
        RuleKind::BannedModelicaKey => "banned-modelica-key"@,
        RuleKind::ArrayParameter => "array-parameter"@,
        RuleKind::ArrayConnector => "array-connector"@,
        RuleKind::ArrayInstance => "array-instance"@,
        RuleKind::DeclarationCycle => "declaration-cycle"@,
        RuleKind::DuplicateDeclaration => "duplicate-declaration"@,
        RuleKind::UnsupportedInstanceMember => "unsupported-instance-member"@,
        RuleKind::VectorPortInstance => "vector-port-instance"@,
        RuleKind::CollidingMemberIdentity => "colliding-member-identity"@,
    }
}

/// The diagnostic code of a rule.
pub open spec fn rule_code(k: RuleKind) -> DiagCode {
    match k {
        RuleKind::RootCount => DiagCode::MalformedDocument,
        RuleKind::ContainsCycle => DiagCode::MalformedDocument,
        RuleKind::Replaceable => DiagCode::UnresolvedPolymorphism,
        RuleKind::BannedModelicaKey => DiagCode::NonSubsetConstruct,
        RuleKind::ArrayParameter => DiagCode::NonSubsetConstruct,
        RuleKind::ArrayConnector => DiagCode::NonSubsetConstruct,
        RuleKind::ArrayInstance => DiagCode::NonSubsetConstruct,
        RuleKind::DeclarationCycle => DiagCode::MalformedDocument,
        RuleKind::DuplicateDeclaration => DiagCode::MalformedDocument,
        RuleKind::UnsupportedInstanceMember => DiagCode::NonSubsetConstruct,
        RuleKind::VectorPortInstance => DiagCode::NonSubsetConstruct,
        RuleKind::CollidingMemberIdentity => DiagCode::DuplicateId,
    }
}

/// The one-line summary of a rule.
pub open spec fn rule_summary(k: RuleKind) -> Seq<char> {
    match k {
        RuleKind::RootCount => "nested classification must select exactly one top composite containsBlock root"@,
        RuleKind::ContainsCycle => "the nested composite containsBlock graph must be acyclic"@,
        RuleKind::Replaceable => "replaceable CXF components must be resolved before import"@,
        RuleKind::BannedModelicaKey => "banned Modelica construct keys must not survive CXF lowering"@,
        RuleKind::ArrayParameter => "array-valued composite parameters are outside the CXF lowering subset"@,
        RuleKind::ArrayConnector => "active array-valued connector nodes require per-element encoding"@,
        RuleKind::ArrayInstance => "active array-valued block-instance nodes require per-element encoding"@,
        RuleKind::DeclarationCycle => "a block's own declarations must not reference each other in a cycle"@,
        RuleKind::DuplicateDeclaration => "a local name is declared at most once in a block's own declaration chain"@,
        RuleKind::UnsupportedInstanceMember => "a hasInstance member must be a direct member named by a declared port or parameter"@,
        RuleKind::VectorPortInstance => "hasInstance interface derivation covers classes with scalar ports only"@,
        RuleKind::CollidingMemberIdentity => "interface derivation mints each connector and parameter identity once"@,
    }
}

/// `r` is the table entry of `k`.
pub open spec fn is_rule(r: CompositeRule, k: RuleKind) -> bool {
    r.id@ == rule_id(k) && r.code == rule_code(k) && r.summary@ == rule_summary(k)
}

/// The rules in catalog publication order.
pub open spec fn rule_order() -> Seq<RuleKind> {
    seq![
        RuleKind::RootCount,
        RuleKind::ContainsCycle,
        RuleKind::Replaceable,
        RuleKind::BannedModelicaKey,
        RuleKind::ArrayParameter,
        RuleKind::ArrayConnector,
        RuleKind::ArrayInstance,
        RuleKind::DeclarationCycle,
        RuleKind::DuplicateDeclaration,
        RuleKind::UnsupportedInstanceMember,
        RuleKind::VectorPortInstance,
        RuleKind::CollidingMemberIdentity,
    ]
}

/// The machine-readable prefix of a rule id.
pub open spec fn prefix_of(id: Seq<char>) -> Seq<char> {
    "composite/"@ + id + ": "@
}

impl RuleKind {
    /// This rule's table entry.
    pub fn rule(self) -> (r: CompositeRule)
        ensures
            is_rule(r, self),
    {
        match self {
            RuleKind::RootCount => CompositeRule {
                id: "root-count",
                code: DiagCode::MalformedDocument,
                summary: "nested classification must select exactly one top composite containsBlock root",
            },
            RuleKind::ContainsCycle => CompositeRule {
                id: "contains-cycle",
                code: DiagCode::MalformedDocument,
                summary: "the nested composite containsBlock graph must be acyclic",
            },
            RuleKind::Replaceable => CompositeRule {
                id: "replaceable",
                code: DiagCode::UnresolvedPolymorphism,
                summary: "replaceable CXF components must be resolved before import",
            },
            RuleKind::BannedModelicaKey => CompositeRule {
                id: "banned-modelica-key",
                code: DiagCode::NonSubsetConstruct,
                summary: "banned Modelica construct keys must not survive CXF lowering",
            },
            RuleKind::ArrayParameter => CompositeRule {
                id: "array-parameter",
                code: DiagCode::NonSubsetConstruct,
                summary: "array-valued composite parameters are outside the CXF lowering subset",
            },
            RuleKind::ArrayConnector => CompositeRule {
                id: "array-connector",
                code: DiagCode::NonSubsetConstruct,
                summary: "active array-valued connector nodes require per-element encoding",
            },
            RuleKind::ArrayInstance => CompositeRule {
                id: "array-instance",
                code: DiagCode::NonSubsetConstruct,
                summary: "active array-valued block-instance nodes require per-element encoding",
            },
            RuleKind::DeclarationCycle => CompositeRule {
                id: "declaration-cycle",
                code: DiagCode::MalformedDocument,
                summary: "a block's own declarations must not reference each other in a cycle",
            },
            RuleKind::DuplicateDeclaration => CompositeRule {
                id: "duplicate-declaration",
                code: DiagCode::MalformedDocument,
                summary: "a local name is declared at most once in a block's own declaration chain",
            },
            RuleKind::UnsupportedInstanceMember => CompositeRule {
                id: "unsupported-instance-member",
                code: DiagCode::NonSubsetConstruct,
                summary: "a hasInstance member must be a direct member named by a declared port or parameter",
            },
            RuleKind::VectorPortInstance => CompositeRule {
                id: "vector-port-instance",
                code: DiagCode::NonSubsetConstruct,
                summary: "hasInstance interface derivation covers classes with scalar ports only",
            },
            RuleKind::CollidingMemberIdentity => CompositeRule {
                id: "colliding-member-identity",
                code: DiagCode::DuplicateId,
                summary: "interface derivation mints each connector and parameter identity once",
            },
        }
    }
}

impl CompositeRule {
    /// The tagged rejection message: the `composite/<rule-id>: ` prefix followed by `detail`.
    pub fn message(&self, detail: &str) -> (r: String)
        ensures
            r@ == prefix_of(self.id@) + detail@,
    {
        let mut r = self.message_prefix();
        push_str(&mut r, detail);
        r
    }

    /// The exact `composite/<rule-id>: ` prefix published in the catalog.
    pub fn message_prefix(&self) -> (r: String)
        ensures
            r@ == prefix_of(self.id@),
    {
        let mut r = owned("composite/");
        push_str(&mut r, self.id);
        push_str(&mut r, ": ");
        r
    }
}

/// Every contract rule, in catalog publication order.
pub fn composite_rules() -> (r: Vec<CompositeRule>)
    ensures
        r@.len() == rule_order().len(),
        forall|i: int| 0 <= i < r@.len() ==> is_rule(#[trigger] r@[i], rule_order()[i]),
{
    let r = vec![
        RuleKind::RootCount.rule(),
        RuleKind::ContainsCycle.rule(),
        RuleKind::Replaceable.rule(),
        RuleKind::BannedModelicaKey.rule(),
        RuleKind::ArrayParameter.rule(),
        RuleKind::ArrayConnector.rule(),
        RuleKind::ArrayInstance.rule(),
        RuleKind::DeclarationCycle.rule(),
        RuleKind::DuplicateDeclaration.rule(),
        RuleKind::UnsupportedInstanceMember.rule(),
        RuleKind::VectorPortInstance.rule(),
        RuleKind::CollidingMemberIdentity.rule(),
    ];
    r
}

/// A kebab-case id: non-empty, lowercase ASCII letters, digits and `-` only.
pub open spec fn is_kebab(id: Seq<char>) -> bool {
    &&& id.len() > 0
    &&& forall|i: int|
        0 <= i < id.len() ==> ('a' <= #[trigger] id[i] <= 'z' || '0' <= id[i] <= '9' || id[i] == '-')
}

/// Every rule id is kebab-case, and no two rules share an id or a message prefix.
pub proof fn lemma_rule_ids_distinct()
    ensures
        forall|i: int| 0 <= i < rule_order().len() ==> is_kebab(#[trigger] rule_id(rule_order()[i])),
        forall|i: int, j: int|
            0 <= i < j < rule_order().len() ==> #[trigger] rule_id(rule_order()[i]) != #[trigger] rule_id(
                rule_order()[j],
            ),
        forall|i: int, j: int|
            0 <= i < j < rule_order().len() ==> #[trigger] prefix_of(rule_id(rule_order()[i]))
                != #[trigger] prefix_of(rule_id(rule_order()[j])),
{
    reveal_strlit("root-count");
    reveal_strlit("contains-cycle");
    reveal_strlit("replaceable");
    reveal_strlit("banned-modelica-key");
    reveal_strlit("array-parameter");
    reveal_strlit("array-connector");
    reveal_strlit("array-instance");
    reveal_strlit("declaration-cycle");
    reveal_strlit("duplicate-declaration");
    reveal_strlit("unsupported-instance-member");
    reveal_strlit("vector-port-instance");
    reveal_strlit("colliding-member-identity");
    reveal_strlit("composite/");
    reveal_strlit(": ");
    assert forall|i: int| 0 <= i < rule_order().len() implies is_kebab(#[trigger] rule_id(rule_order()[i])) by {}
    assert forall|i: int, j: int| 0 <= i < j < rule_order().len() implies #[trigger] rule_id(rule_order()[i])
        != #[trigger] rule_id(rule_order()[j]) by {
        let a = rule_id(rule_order()[i]);
        let b = rule_id(rule_order()[j]);
        if a.len() == b.len() {
            if a[0] == b[0] {
                if a[6] == b[6] {
                    assert(a[7] != b[7]);
                } else {
                    assert(a[6] != b[6]);
                }
            } else {
                assert(a[0] != b[0]);
            }
        }
    }
    assert forall|i: int, j: int| 0 <= i < j < rule_order().len() implies #[trigger] prefix_of(
        rule_id(rule_order()[i]),
    ) != #[trigger] prefix_of(rule_id(rule_order()[j])) by {
        lemma_prefix_injective(rule_id(rule_order()[i]), rule_id(rule_order()[j]));
    }
}

/// Distinct ids have distinct prefixes.
pub proof fn lemma_prefix_injective(a: Seq<char>, b: Seq<char>)
    ensures
        prefix_of(a) == prefix_of(b) ==> a == b,
{
    reveal_strlit("composite/");
    reveal_strlit(": ");
    if prefix_of(a) == prefix_of(b) {
        assert(prefix_of(a).len() == a.len() + 12);
        assert(a =~= prefix_of(a).subrange(10, 10 + a.len() as int));
        assert(b =~= prefix_of(b).subrange(10, 10 + b.len() as int));
    }
}

/// A tagged message is its rule's published prefix followed by the detail.
pub proof fn lemma_message_extends_prefix(id: Seq<char>, detail: Seq<char>)
    ensures
        (prefix_of(id) + detail).subrange(0, prefix_of(id).len() as int) == prefix_of(id),
{
    assert((prefix_of(id) + detail).subrange(0, prefix_of(id).len() as int) =~= prefix_of(id));
}

// ---- the catalog ----

/// One catalog entry, without its trailing separator.
pub open spec fn catalog_entry(k: RuleKind) -> Seq<char> {
    "  "@ + json_quoted(rule_id(k)) + ": {\n    \"diag_code\": "@ + json_quoted(code_name(rule_code(k)))
        + ",\n    \"message_prefix\": "@ + json_quoted(prefix_of(rule_id(k))) + ",\n    \"summary\": "@
        + json_quoted(rule_summary(k)) + "\n  }"@
}

/// The separator after entry `k` of `n`.
pub open spec fn catalog_separator(k: nat, n: nat) -> Seq<char> {
    if k + 1 == n {
        "\n"@
    } else {
        ",\n"@
    }
}

/// The catalog entries of `kinds[0..k]`, each followed by its separator.
pub open spec fn catalog_entries(kinds: Seq<RuleKind>, k: nat) -> Seq<char>
    decreases k,
{
    if k == 0 {
        seq![]
    } else {
        catalog_entries(kinds, (k - 1) as nat) + catalog_entry(kinds[k - 1]) + catalog_separator(
            (k - 1) as nat,
            kinds.len(),
        )
    }
}

/// The catalog of `kinds`: a JSON object keyed by rule id, in order, with a trailing newline.
pub open spec fn catalog_text(kinds: Seq<RuleKind>) -> Seq<char> {
    "{\n"@ + catalog_entries(kinds, kinds.len()) + "}\n"@
}

/// Append one rule's catalog entry and its separator.
fn push_entry(out: &mut String, rule: &CompositeRule, index: usize, n: usize, Ghost(k): Ghost<RuleKind>)
    requires
        is_rule(*rule, k),
        index < n,
    ensures
        final(out)@ == old(out)@ + catalog_entry(k) + catalog_separator(index as nat, n as nat),
{
    push_str(out, "  ");
    push_str(out, json_str(rule.id).as_str());
    push_str(out, ": {\n    \"diag_code\": ");
    push_str(out, json_str(rule.code.as_str()).as_str());
    push_str(out, ",\n    \"message_prefix\": ");
    push_str(out, json_str(rule.message_prefix().as_str()).as_str());
    push_str(out, ",\n    \"summary\": ");
    push_str(out, json_str(rule.summary).as_str());
    push_str(out, "\n  }");
    if index + 1 == n {
        push_str(out, "\n");
    } else {
        push_str(out, ",\n");
    }
    assert(final(out)@ =~= old(out)@ + catalog_entry(k) + catalog_separator(index as nat, n as nat));
}

/// Render the catalog of the live rule table.
pub fn render_catalog() -> (r: String)
    ensures
        r@ == catalog_text(rule_order()),
{
    let rules = composite_rules();
    let mut out = owned("{\n");
    let mut index: usize = 0;
    while index < rules.len()
        invariant
            rules@.len() == rule_order().len(),
            forall|i: int| 0 <= i < rules@.len() ==> is_rule(#[trigger] rules@[i], rule_order()[i]),
            index <= rules@.len(),
            out@ == "{\n"@ + catalog_entries(rule_order(), index as nat),
        decreases rules@.len() - index,
    {
        let rule = rules[index];
        assert(is_rule(rules@[index as int], rule_order()[index as int]));
        push_entry(&mut out, &rule, index, rules.len(), Ghost(rule_order()[index as int]));
        index += 1;
        assert(out@ =~= "{\n"@ + catalog_entries(rule_order(), index as nat));
    }
    push_str(&mut out, "}\n");
    out
}

} // verus!
