//! Restricted nested-composite pre-lowering: selecting the one top composite, refusing
//! constructs outside the lowering subset, and flattening `containsBlock` nesting into the leaf
//! order the single-root resolver consumes.
//!
//! Whether a node's class is a registered leaf comes from the block registry and is handed in
//! as one flag per `@graph` node. An `@id` resolves to the last `@graph` node carrying it (by the
//! time lowering runs, `@id`s are unique).
use vstd::prelude::*;
use crate::composite_orientation::{
    connections_v, has_cycle, nodes_v, elided_v, last_index, node_ids, resolves_composite, resolves_to_composite, targets_of, CompositeOrientation,
    ConnV, Connections, IndexV,
};
use crate::strmap::StrMap;
use crate::composite_rules::{prefix_of, rule_code, rule_id, RuleKind};
use crate::declaration_plan::{first_named, lemma_first_named};
use crate::diag::{appends, is_finding, lemma_appends_none, lemma_appends_one, lemma_appends_trans, DiagCode, Diagnostic};
use crate::dto::{CxfDocument, IriRef, JsonValue, Node, OneOrMany};
use crate::port_binding::str_eq;
use crate::specialize::{contains_str, is_runtime_composite, names, ref_ids, runtime_composite, Specialization};
use crate::text::{after_last_in, decimal, decimal_string, owned, push_str, tail_after_last_in};

verus! {

/// One finding: a code, a message, and an optional subject.
pub type Finding = (DiagCode, Seq<char>, Option<Seq<char>>);

/// The tagged message of a composite rule: its `composite/<rule-id>: ` prefix and `detail`.
pub open spec fn rule_message(k: RuleKind, detail: Seq<char>) -> Seq<char> {
    prefix_of(rule_id(k)) + detail
}

/// `parts` joined by `sep`.
pub open spec fn join(parts: Seq<Seq<char>>, sep: Seq<char>) -> Seq<char>
    decreases parts.len(),
{
    if parts.len() == 0 {
        seq![]
    } else if parts.len() == 1 {
        parts[0]
    } else {
        join(parts.drop_last(), sep) + sep + parts.last()
    }
}

/// `parts` joined by `sep`.
pub fn join_strs(parts: &Vec<String>, sep: &str) -> (r: String)
    ensures
        r@ == join(names(parts@), sep@),
{
    let mut r = String::new();
    let mut i: usize = 0;
    while i < parts.len()
        invariant
            i <= parts@.len(),
            r@ == join(names(parts@).take(i as int), sep@),
        decreases parts@.len() - i,
    {
        let ghost before = names(parts@).take(i as int);
        if i > 0 {
            push_str(&mut r, sep);
        }
        push_str(&mut r, parts[i].as_str());
        assert(names(parts@).take(i + 1).drop_last() =~= before);
        i += 1;
    }
    assert(names(parts@).take(parts@.len() as int) =~= names(parts@));
    r
}

// ---- constructs outside the lowering subset ----

/// A Modelica construct key that must not survive lowering, judged by its term after the last
/// `:`, `#` or `/`.
pub open spec fn banned_key(key: Seq<char>) -> bool {
    let term = after_last_in(key, seq![':', '#', '/']);
    ||| term == "redeclare"@
    ||| term == "constrainedby"@
    ||| term == "extends"@
    ||| term == "extendsFrom"@
    ||| term == "moSource"@
    ||| term == "modelicaSource"@
}

/// Whether `key` names a Modelica construct outside the lowering subset.
pub fn unsupported_modelica_key(key: &str) -> (b: bool)
    ensures
        b == banned_key(key@),
{
    let seps = [':', '#', '/'];
    let term = tail_after_last_in(key, seps.as_slice());
    assert(seps@ =~= seq![':', '#', '/']);
    str_eq(term, "redeclare") || str_eq(term, "constrainedby") || str_eq(term, "extends") || str_eq(
        term,
        "extendsFrom",
    ) || str_eq(term, "moSource") || str_eq(term, "modelicaSource")
}

/// The refusal of a banned construct key on `subject`.
pub open spec fn banned_key_finding(key: Seq<char>, subject: Seq<char>) -> Finding {
    (
        rule_code(RuleKind::BannedModelicaKey),
        rule_message(
            RuleKind::BannedModelicaKey,
            "unsupported Modelica construct `"@ + key + "` survived CXF lowering"@,
        ),
        Some(subject),
    )
}

/// The refusals of the banned keys among `keys`, in order.
pub open spec fn key_findings(keys: Seq<Seq<char>>, subject: Seq<char>) -> Seq<Finding>
    decreases keys.len(),
{
    if keys.len() == 0 {
        seq![]
    } else {
        key_findings(keys.drop_last(), subject) + if banned_key(keys.last()) {
            seq![banned_key_finding(keys.last(), subject)]
        } else {
            seq![]
        }
    }
}

/// The keys of a node's passthrough members, in the order the node holds them.
pub open spec fn other_keys(other: Seq<(String, JsonValue)>) -> Seq<Seq<char>> {
    other.map_values(|p: (String, JsonValue)| p.0@)
}

/// The refusal of an unresolved replaceable component.
pub open spec fn replaceable_finding(subject: Seq<char>) -> Finding {
    (
        rule_code(RuleKind::Replaceable),
        rule_message(RuleKind::Replaceable, "replaceable CXF components must be resolved before import"@),
        Some(subject),
    )
}

/// The refusals one node draws: a replaceable flag, then each banned key.
pub open spec fn node_construct_findings(n: Node) -> Seq<Finding> {
    (if n.is_replaceable == Some(true) {
        seq![replaceable_finding(n.id@)]
    } else {
        seq![]
    }) + key_findings(other_keys(n.other@), n.id@)
}

/// The refusals of the first `k` nodes; a pruned node draws none.
pub open spec fn construct_findings(nodes: Seq<Node>, pruned: Seq<Seq<char>>, k: nat) -> Seq<Finding>
    decreases k,
{
    if k == 0 || k > nodes.len() {
        seq![]
    } else {
        construct_findings(nodes, pruned, (k - 1) as nat) + if pruned.contains(nodes[k - 1].id@) {
            seq![]
        } else {
            node_construct_findings(nodes[k - 1])
        }
    }
}

/// Refuse, on every active node, an unresolved replaceable flag and every passthrough key that
/// names a Modelica construct outside the lowering subset.
pub fn reject_unsupported_constructs(doc: &CxfDocument, specialization: &Specialization, diags: &mut Vec<Diagnostic>)
    ensures
        appends(
            old(diags)@,
            final(diags)@,
            construct_findings(doc.graph@, specialization.pruned(), doc.graph@.len()),
        ),
{
    let ghost nodes = doc.graph@;
    let ghost pruned = specialization.pruned();
    proof {
        lemma_appends_none(diags@);
    }
    let mut i: usize = 0;
    while i < doc.graph.len()
        invariant
            nodes == doc.graph@,
            pruned == specialization.pruned(),
            i <= nodes.len(),
            appends(old(diags)@, diags@, construct_findings(nodes, pruned, i as nat)),
        decreases nodes.len() - i,
    {
        let node = &doc.graph[i];
        let ghost mid = diags@;
        if !specialization.is_inactive(node.id.as_str()) {
            push_node_findings(node, diags);
        } else {
            proof {
                lemma_appends_none(diags@);
            }
        }
        proof {
            lemma_appends_trans(
                old(diags)@,
                mid,
                diags@,
                construct_findings(nodes, pruned, i as nat),
                if pruned.contains(nodes[i as int].id@) {
                    seq![]
                } else {
                    node_construct_findings(nodes[i as int])
                },
            );
        }
        i += 1;
    }
}

fn push_node_findings(node: &Node, diags: &mut Vec<Diagnostic>)
    ensures
        appends(old(diags)@, final(diags)@, node_construct_findings(*node)),
{
    let ghost start = diags@;
    let ghost first: Seq<Finding> = if node.is_replaceable == Some(true) {
        seq![replaceable_finding(node.id@)]
    } else {
        seq![]
    };
    if node.is_replaceable == Some(true) {
        let rule = RuleKind::Replaceable.rule();
        let d = Diagnostic::error(rule.code, rule.message("replaceable CXF components must be resolved before import"))
            .with_subject(owned(node.id.as_str()));
        proof {
            lemma_appends_one(diags@, d, replaceable_finding(node.id@));
        }
        diags.push(d);
    } else {
        proof {
            lemma_appends_none(diags@);
        }
    }
    let ghost mid = diags@;
    let ghost keys = other_keys(node.other@);
    proof {
        lemma_appends_none(diags@);
    }
    let mut k: usize = 0;
    while k < node.other.len()
        invariant
            keys == other_keys(node.other@),
            k <= node.other@.len(),
            appends(mid, diags@, key_findings(keys.take(k as int), node.id@)),
        decreases node.other@.len() - k,
    {
        let ghost before = diags@;
        let key = node.other[k].0.as_str();
        assert(keys.take(k + 1).drop_last() =~= keys.take(k as int));
        if unsupported_modelica_key(key) {
            let rule = RuleKind::BannedModelicaKey.rule();
            let mut detail = owned("unsupported Modelica construct `");
            push_str(&mut detail, key);
            push_str(&mut detail, "` survived CXF lowering");
            let d = Diagnostic::error(rule.code, rule.message(detail.as_str())).with_subject(owned(node.id.as_str()));
            proof {
                lemma_appends_one(diags@, d, banned_key_finding(keys[k as int], node.id@));
                lemma_appends_trans(
                    mid,
                    before,
                    before.push(d),
                    key_findings(keys.take(k as int), node.id@),
                    seq![banned_key_finding(keys[k as int], node.id@)],
                );
            }
            diags.push(d);
        } else {
            assert(key_findings(keys.take(k + 1), node.id@) =~= key_findings(keys.take(k as int), node.id@));
        }
        k += 1;
    }
    assert(keys.take(node.other@.len() as int) =~= keys);
    proof {
        lemma_appends_trans(start, mid, diags@, first, key_findings(keys, node.id@));
    }
}

// ---- the one top composite ----

/// The `@graph` positions of the runtime composites among the first `k` nodes.
pub open spec fn composite_positions(nodes: Seq<Node>, registered: Seq<bool>, k: nat) -> Seq<int>
    decreases k,
{
    if k == 0 || k > nodes.len() {
        seq![]
    } else {
        composite_positions(nodes, registered, (k - 1) as nat) + if runtime_composite(
            nodes[k - 1],
            registered[k - 1],
        ) {
            seq![k - 1]
        } else {
            seq![]
        }
    }
}

/// The `@id`s at the positions `ps`.
pub open spec fn ids_at(nodes: Seq<Node>, ps: Seq<int>) -> Seq<Seq<char>> {
    ps.map_values(|i: int| nodes[i].id@)
}

/// The members of `children` that resolve to a runtime composite.
pub open spec fn composite_children(nodes: Seq<Node>, registered: Seq<bool>, children: Seq<Seq<char>>) -> Seq<
    Seq<char>,
>
    decreases children.len(),
{
    if children.len() == 0 {
        seq![]
    } else {
        composite_children(nodes, registered, children.drop_last()) + if resolves_to_composite(
            nodes,
            registered,
            children.last(),
        ) {
            seq![children.last()]
        } else {
            seq![]
        }
    }
}

/// The composites that the composites `cs` contain.
pub open spec fn referenced_composites(nodes: Seq<Node>, registered: Seq<bool>, cs: Seq<Seq<char>>) -> Seq<
    Seq<char>,
>
    decreases cs.len(),
{
    if cs.len() == 0 {
        seq![]
    } else {
        let i = last_index(nodes, cs.last(), nodes.len() as int);
        referenced_composites(nodes, registered, cs.drop_last()) + if i < 0 {
            seq![]
        } else {
            composite_children(nodes, registered, ref_ids(nodes[i].contains_block))
        }
    }
}

/// The members of `ids` that `referenced` does not hold, in order.
pub open spec fn not_in(ids: Seq<Seq<char>>, referenced: Seq<Seq<char>>) -> Seq<Seq<char>>
    decreases ids.len(),
{
    if ids.len() == 0 {
        seq![]
    } else {
        not_in(ids.drop_last(), referenced) + if referenced.contains(ids.last()) {
            seq![]
        } else {
            seq![ids.last()]
        }
    }
}

/// The candidate roots: runtime composites no runtime composite contains, in `@graph` order.
pub open spec fn root_candidates(nodes: Seq<Node>, registered: Seq<bool>) -> Seq<Seq<char>> {
    let cs = ids_at(nodes, composite_positions(nodes, registered, nodes.len()));
    not_in(cs, referenced_composites(nodes, registered, cs))
}

/// The refusal when no candidate root remains (a pure `containsBlock` cycle lands here).
pub open spec fn no_root_finding() -> Finding {
    (
        rule_code(RuleKind::RootCount),
        rule_message(
            RuleKind::RootCount,
            "expected exactly one top composite root after nested classification, found zero candidate roots"@,
        ),
        None,
    )
}

/// The refusal when several candidate roots remain, about the first of them.
pub open spec fn many_roots_finding(roots: Seq<Seq<char>>) -> Finding {
    (
        rule_code(RuleKind::RootCount),
        rule_message(
            RuleKind::RootCount,
            "expected exactly one top composite root after nested classification, found "@ + decimal(roots.len())
                + " candidate roots: "@ + join(roots, ", "@),
        ),
        Some(roots[0]),
    )
}

/// The `@graph` position `id` resolves to: the last node carrying it.
pub fn find_node(nodes: &Vec<Node>, id: &str) -> (r: Option<usize>)
    ensures
        match r {
            Some(i) => i as int == last_index(nodes@, id@, nodes@.len() as int) && i < nodes@.len(),
            None => last_index(nodes@, id@, nodes@.len() as int) == -1,
        },
{
    let mut k: usize = nodes.len();
    while k > 0
        invariant
            k <= nodes@.len(),
            last_index(nodes@, id@, nodes@.len() as int) == last_index(nodes@, id@, k as int),
        decreases k,
    {
        if str_eq(nodes[k - 1].id.as_str(), id) {
            return Some(k - 1);
        }
        k -= 1;
    }
    None
}

/// Select the one top composite: the runtime composite that no runtime composite contains.
/// Zero or several candidates are refused, and no root is returned.
pub fn root_composite<'a>(doc: &'a CxfDocument, registered: &[bool], diags: &mut Vec<Diagnostic>) -> (r: Option<
    &'a str,
>)
    requires
        registered@.len() == doc.graph@.len(),
    ensures
        ({
            let roots = root_candidates(doc.graph@, registered@);
            &&& roots.len() == 1 ==> (r matches Some(x) && x@ == roots[0] && final(diags)@ == old(diags)@)
            &&& roots.len() == 0 ==> (r is None && appends(old(diags)@, final(diags)@, seq![no_root_finding()]))
            &&& roots.len() > 1 ==> (r is None && appends(
                old(diags)@,
                final(diags)@,
                seq![many_roots_finding(roots)],
            ))
        }),
{
    let ghost nodes = doc.graph@;
    let n = doc.graph.len();
    // The runtime composites, by position and by `@id`.
    let mut comps: Vec<usize> = Vec::new();
    let mut comp_ids: Vec<String> = Vec::new();
    let mut i: usize = 0;
    while i < n
        invariant
            nodes == doc.graph@,
            n == nodes.len(),
            registered@.len() == n,
            i <= n,
            comps@.map_values(|p: usize| p as int) == composite_positions(nodes, registered@, i as nat),
            names(comp_ids@) == ids_at(nodes, comps@.map_values(|p: usize| p as int)),
            forall|j: int| 0 <= j < comps@.len() ==> comps@[j] < n,
        decreases n - i,
    {
        let ghost cv = comps@.map_values(|p: usize| p as int);
        if is_runtime_composite(&doc.graph[i], registered[i]) {
            comps.push(i);
            comp_ids.push(owned(doc.graph[i].id.as_str()));
            assert(comps@.map_values(|p: usize| p as int) =~= cv.push(i as int));
            assert(ids_at(nodes, cv.push(i as int)) =~= ids_at(nodes, cv).push(nodes[i as int].id@));
            assert(names(comp_ids@) =~= ids_at(nodes, comps@.map_values(|p: usize| p as int)));
        }
        proof {
            let ps = composite_positions(nodes, registered@, (i + 1) as nat);
            assert(comps@.map_values(|p: usize| p as int) =~= ps);
        }
        i += 1;
    }
    assert forall|q: int| 0 <= q < comps@.len() implies comps@[q] < nodes.len() && #[trigger] names(comp_ids@)[q]
        == nodes[comps@[q] as int].id@ by {
        assert(ids_at(nodes, comps@.map_values(|p: usize| p as int))[q] == nodes[comps@[q] as int].id@);
    }
    let ghost cs = names(comp_ids@);
    // The composites they contain.
    let mut referenced: Vec<String> = Vec::new();
    let mut c: usize = 0;
    while c < comp_ids.len()
        invariant
            nodes == doc.graph@,
            registered@.len() == nodes.len(),
            cs == names(comp_ids@),
            c <= comp_ids@.len(),
            names(referenced@) == referenced_composites(nodes, registered@, cs.take(c as int)),
        decreases comp_ids@.len() - c,
    {
        assert(cs.take(c + 1).drop_last() =~= cs.take(c as int));
        let ghost before = names(referenced@);
        match find_node(&doc.graph, comp_ids[c].as_str()) {
            Some(p) => {
                let children = doc.graph[p].contains_block.as_slice();
                let ghost ch = ref_ids(doc.graph@[p as int].contains_block);
                let mut k: usize = 0;
                while k < children.len()
                    invariant
                        nodes == doc.graph@,
                        registered@.len() == nodes.len(),
                        children@ == doc.graph@[p as int].contains_block.items(),
                        ch == ref_ids(doc.graph@[p as int].contains_block),
                        k <= children@.len(),
                        names(referenced@) == before + composite_children(nodes, registered@, ch.take(k as int)),
                    decreases children@.len() - k,
                {
                    assert(ch.take(k + 1).drop_last() =~= ch.take(k as int));
                    assert(ch[k as int] == children@[k as int].id@);
                    let ghost prev = referenced@;
                    if resolves_composite(&doc.graph, registered, children[k].id.as_str()) {
                        referenced.push(owned(children[k].id.as_str()));
                        assert(names(referenced@) =~= names(prev).push(children@[k as int].id@));
                    }
                    assert(names(referenced@) =~= before + composite_children(nodes, registered@, ch.take(k + 1)));
                    k += 1;
                }
                assert(ch.take(children@.len() as int) =~= ch);
            },
            None => {
                assert(names(referenced@) =~= before + seq![]);
            },
        }
        c += 1;
    }
    assert(cs.take(comp_ids@.len() as int) =~= cs);
    let ghost refd = names(referenced@);
    // The candidates: composites nothing contains.
    let mut roots: Vec<usize> = Vec::new();
    let mut root_ids: Vec<String> = Vec::new();
    let mut j: usize = 0;
    while j < comp_ids.len()
        invariant
            nodes == doc.graph@,
            cs == names(comp_ids@),
            refd == names(referenced@),
            comp_ids@.len() == comps@.len(),
            forall|q: int| 0 <= q < comps@.len() ==> comps@[q] < nodes.len() && #[trigger] cs[q] == nodes[comps@[q] as int].id@,
            j <= comp_ids@.len(),
            names(root_ids@) == not_in(cs.take(j as int), refd),
            roots@.map_values(|p: usize| nodes[p as int].id@) == names(root_ids@),
            forall|q: int| 0 <= q < roots@.len() ==> #[trigger] roots@[q] < nodes.len(),
        decreases comp_ids@.len() - j,
    {
        assert(cs.take(j + 1).drop_last() =~= cs.take(j as int));
        let ghost prev = root_ids@;
        let ghost old_roots = roots@;
        assert(cs[j as int] == nodes[comps@[j as int] as int].id@);
        if !contains_str(&referenced, comp_ids[j].as_str()) {
            roots.push(comps[j]);
            root_ids.push(owned(comp_ids[j].as_str()));
            assert(names(root_ids@) =~= names(prev).push(cs[j as int]));
            assert(roots@.map_values(|p: usize| nodes[p as int].id@) =~= old_roots.map_values(
                |p: usize| nodes[p as int].id@,
            ).push(cs[j as int]));
        }
        j += 1;
    }
    assert(cs.take(comp_ids@.len() as int) =~= cs);
    assert(names(root_ids@) == root_candidates(nodes, registered@));
    assert(roots@.len() == root_ids@.len() && roots@.len() == names(root_ids@).len());
    if roots.len() == 1 {
        assert(roots@[0] < nodes.len());
        assert(roots@.map_values(|p: usize| nodes[p as int].id@)[0] == names(root_ids@)[0]);
        Some(doc.graph[roots[0]].id.as_str())
    } else if roots.len() == 0 {
        let rule = RuleKind::RootCount.rule();
        let d = Diagnostic::error(
            rule.code,
            rule.message(
                "expected exactly one top composite root after nested classification, found zero candidate roots",
            ),
        );
        proof {
            lemma_appends_one(diags@, d, no_root_finding());
        }
        diags.push(d);
        None
    } else {
        let rule = RuleKind::RootCount.rule();
        let mut detail = owned("expected exactly one top composite root after nested classification, found ");
        push_str(&mut detail, decimal_string(root_ids.len()).as_str());
        push_str(&mut detail, " candidate roots: ");
        push_str(&mut detail, join_strs(&root_ids, ", ").as_str());
        let d = Diagnostic::error(rule.code, rule.message(detail.as_str())).with_subject(owned(root_ids[0].as_str()));
        proof {
            lemma_appends_one(diags@, d, many_roots_finding(names(root_ids@)));
        }
        diags.push(d);
        None
    }
}

// ---- flattening the containsBlock nesting ----

/// The deepest supported `containsBlock` nesting; the top composite is at depth one.
pub const MAX_COMPOSITE_NESTING_DEPTH: usize = 64;

/// One visit of a composite during flattening: its `@id`, and the visit it was reached from
/// (none for the top composite). A composite contained twice is visited twice.
pub struct Visit {
    pub id: String,
    pub parent: Option<usize>,
}

/// What flattening found: the composite visits in visiting order, and the leaves in lowered
/// order, each with the visit of the composite that contains it. The scope a leaf inherits is
/// the declaration chain of its composite visit and that visit's ancestors.
pub struct LeafWalk {
    pub visits: Vec<Visit>,
    pub leaves: Vec<(String, usize)>,
}

/// The state of a flattening as a specification value.
pub type WalkS = (Seq<(Seq<char>, Option<int>)>, Seq<(Seq<char>, int)>);

pub open spec fn parent_view(p: Option<usize>) -> Option<int> {
    match p {
        Some(v) => Some(v as int),
        None => None,
    }
}

impl LeafWalk {
    pub open spec fn view(&self) -> WalkS {
        (
            self.visits@.map_values(|v: Visit| (v.id@, parent_view(v.parent))),
            self.leaves@.map_values(|l: (String, usize)| (l.0@, l.1 as int)),
        )
    }
}

/// The refusal of nesting deeper than [`MAX_COMPOSITE_NESTING_DEPTH`].
pub open spec fn too_deep_finding(id: Seq<char>) -> Finding {
    (
        DiagCode::MalformedDocument,
        "composite/nesting-too-deep: containsBlock nesting exceeds the supported depth (64)"@,
        Some(id),
    )
}

/// The refusal of re-entering `id` while it is on the traversal spine `path`: the participants
/// from its first place on the spine, closed by `id` itself.
pub open spec fn cycle_finding(path: Seq<Seq<char>>, id: Seq<char>) -> Finding {
    (
        rule_code(RuleKind::ContainsCycle),
        rule_message(
            RuleKind::ContainsCycle,
            "cycle in nested composite containsBlock graph: "@ + join(
                path.skip(first_named(path, id, path.len() as int)).push(id),
                " -> "@,
            ),
        ),
        Some(id),
    )
}

/// A reference that names no `@graph` node.
pub open spec fn missing_finding(message: Seq<char>, id: Seq<char>) -> Finding {
    (DiagCode::UnresolvedReference, message, Some(id))
}

/// Visit the composite `id` at `depth`, reached from the visit `parent`, with the traversal
/// spine `path`: the state after it and the refusals it raised.
pub open spec fn visit_v(
    nodes: Seq<Node>,
    registered: Seq<bool>,
    pruned: Seq<Seq<char>>,
    id: Seq<char>,
    depth: int,
    parent: Option<int>,
    path: Seq<Seq<char>>,
    s: WalkS,
) -> (WalkS, Seq<Finding>)
    decreases 65 - depth, 1nat, 0nat,
{
    if depth > 64 {
        (s, seq![too_deep_finding(id)])
    } else if path.contains(id) {
        (s, seq![cycle_finding(path, id)])
    } else {
        let i = last_index(nodes, id, nodes.len() as int);
        if i < 0 {
            (s, seq![missing_finding("composite node not found"@, id)])
        } else {
            let v = s.0.len() as int;
            let s1 = (s.0.push((id, parent)), s.1);
            let ch = ref_ids(nodes[i].contains_block);
            children_v(nodes, registered, pruned, ch, ch.len(), depth, v, path.push(id), s1)
        }
    }
}

/// The first `k` children `ch` of the composite visit `v` at `depth`, in order.
pub open spec fn children_v(
    nodes: Seq<Node>,
    registered: Seq<bool>,
    pruned: Seq<Seq<char>>,
    ch: Seq<Seq<char>>,
    k: nat,
    depth: int,
    v: int,
    path: Seq<Seq<char>>,
    s: WalkS,
) -> (WalkS, Seq<Finding>)
    decreases 65 - depth, 0nat, k,
{
    if k == 0 || k > ch.len() {
        (s, seq![])
    } else {
        let (s1, f1) = children_v(nodes, registered, pruned, ch, (k - 1) as nat, depth, v, path, s);
        let c = ch[k - 1];
        let j = last_index(nodes, c, nodes.len() as int);
        if pruned.contains(c) {
            (s1, f1)
        } else if j < 0 {
            (s1, f1.push(missing_finding("containsBlock child not found"@, c)))
        } else if runtime_composite(nodes[j], registered[j]) {
            if depth < 65 {
                let (s2, f2) = visit_v(nodes, registered, pruned, c, depth + 1, Some(v), path, s1);
                (s2, f1 + f2)
            } else {
                (s1, f1)
            }
        } else {
            ((s1.0, s1.1.push((c, v))), f1)
        }
    }
}

/// The first place of `id` on the spine `path`.
fn spine_position(path: &Vec<String>, id: &str) -> (r: Option<usize>)
    ensures
        match r {
            Some(i) => i < path@.len() && i as int == first_named(names(path@), id@, path@.len() as int),
            None => first_named(names(path@), id@, path@.len() as int) == -1 && !names(path@).contains(id@),
        },
{
    let ghost ns = names(path@);
    proof {
        lemma_first_named(ns, id@, path@.len() as int);
    }
    let mut i: usize = 0;
    while i < path.len()
        invariant
            ns == names(path@),
            i <= path@.len(),
            forall|j: int| 0 <= j < i ==> ns[j] != id@,
            first_named(ns, id@, path@.len() as int) == -1 <==> forall|j: int| 0 <= j < path@.len() ==> ns[j] != id@,
            first_named(ns, id@, path@.len() as int) >= 0 ==> {
                let f = first_named(ns, id@, path@.len() as int);
                &&& f < path@.len()
                &&& ns[f] == id@
                &&& forall|j: int| 0 <= j < f ==> ns[j] != id@
            },
        decreases path@.len() - i,
    {
        if str_eq(path[i].as_str(), id) {
            assert(ns[i as int] == id@);
            return Some(i);
        }
        i += 1;
    }
    proof {
        if ns.contains(id@) {
            let j = ns.index_of(id@);
            assert(ns[j] == id@);
        }
    }
    None
}

/// Depth-first `containsBlock` flattening from the composite `id` at `depth`, reached from the
/// composite visit `parent`. Each active child resolving to a runtime composite is flattened in
/// turn; every other active child is a leaf of the visit. Nesting deeper than
/// [`MAX_COMPOSITE_NESTING_DEPTH`], re-entering a composite on the traversal spine `path`, and a
/// reference naming no `@graph` node are refused. `path` is restored on return.
pub fn collect_leaves(
    id: &str,
    depth: usize,
    parent: Option<usize>,
    doc: &CxfDocument,
    registered: &[bool],
    specialization: &Specialization,
    diags: &mut Vec<Diagnostic>,
    path: &mut Vec<String>,
    walk: &mut LeafWalk,
)
    requires
        registered@.len() == doc.graph@.len(),
    ensures
        final(path)@ == old(path)@,
        ({
            let r = visit_v(
                doc.graph@,
                registered@,
                specialization.pruned(),
                id@,
                depth as int,
                parent_view(parent),
                names(old(path)@),
                old(walk).view(),
            );
            &&& final(walk).view() == r.0
            &&& appends(old(diags)@, final(diags)@, r.1)
        }),
    decreases 65 - depth,
{
    let ghost nodes = doc.graph@;
    let ghost pruned = specialization.pruned();
    if depth > MAX_COMPOSITE_NESTING_DEPTH {
        let d = Diagnostic::error(
            DiagCode::MalformedDocument,
            owned("composite/nesting-too-deep: containsBlock nesting exceeds the supported depth (64)"),
        ).with_subject(owned(id));
        proof {
            lemma_appends_one(diags@, d, too_deep_finding(id@));
        }
        diags.push(d);
        return;
    }
    if let Some(start) = spine_position(path, id) {
        let ghost ns = names(path@);
        let mut participants: Vec<String> = Vec::new();
        let mut q: usize = start;
        while q < path.len()
            invariant
                ns == names(path@),
                start <= q <= path@.len(),
                names(participants@) == ns.subrange(start as int, q as int),
            decreases path@.len() - q,
        {
            let ghost prev = names(participants@);
            participants.push(owned(path[q].as_str()));
            assert(names(participants@) =~= prev.push(ns[q as int]));
            assert(names(participants@) =~= ns.subrange(start as int, q + 1));
            q += 1;
        }
        let ghost prev = names(participants@);
        participants.push(owned(id));
        assert(names(participants@) =~= ns.skip(start as int).push(id@));
        let rule = RuleKind::ContainsCycle.rule();
        let mut detail = owned("cycle in nested composite containsBlock graph: ");
        push_str(&mut detail, join_strs(&participants, " -> ").as_str());
        let d = Diagnostic::error(rule.code, rule.message(detail.as_str())).with_subject(owned(id));
        proof {
            assert(ns[start as int] == id@) by {
                lemma_first_named(ns, id@, ns.len() as int);
            }
            assert(ns.contains(id@));
            lemma_appends_one(diags@, d, cycle_finding(ns, id@));
        }
        diags.push(d);
        return;
    }
    match find_node(&doc.graph, id) {
        None => {
            let d = Diagnostic::error(DiagCode::UnresolvedReference, owned("composite node not found")).with_subject(
                owned(id),
            );
            proof {
                lemma_appends_one(diags@, d, missing_finding("composite node not found"@, id@));
            }
            diags.push(d);
        },
        Some(i) => {
            let ghost spine = names(path@).push(id@);
            let ghost d0 = diags@;
            let v = walk.visits.len();
            let ghost w0 = walk.view();
            walk.visits.push(Visit { id: owned(id), parent });
            let ghost s1 = (w0.0.push((id@, parent_view(parent))), w0.1);
            assert(walk.view().0 =~= s1.0);
            let pushed = owned(id);
            let ghost path0 = path@;
            path.push(pushed);
            assert(names(path@) =~= spine);
            let children = doc.graph[i].contains_block.as_slice();
            let ghost ch = ref_ids(doc.graph@[i as int].contains_block);
            proof {
                lemma_appends_none(diags@);
            }
            let mut k: usize = 0;
            while k < children.len()
                invariant
                    nodes == doc.graph@,
                    pruned == specialization.pruned(),
                    registered@.len() == nodes.len(),
                    i < nodes.len(),
                    children@ == nodes[i as int].contains_block.items(),
                    ch == ref_ids(nodes[i as int].contains_block),
                    ch.len() == children@.len(),
                    k <= children@.len(),
                    depth <= 64,
                    v == s1.0.len() - 1,
                    path@ == path0.push(pushed),
                    names(path@) == spine,
                    walk.view() == children_v(nodes, registered@, pruned, ch, k as nat, depth as int, v as int, spine, s1).0,
                    appends(d0, diags@, children_v(nodes, registered@, pruned, ch, k as nat, depth as int, v as int, spine, s1).1),
                decreases children@.len() - k,
            {
                let c = children[k].id.as_str();
                assert(ch[k as int] == c@);
                let ghost prev = children_v(nodes, registered@, pruned, ch, k as nat, depth as int, v as int, spine, s1);
                let ghost dk = diags@;
                if specialization.is_inactive(c) {
                } else {
                    match find_node(&doc.graph, c) {
                        None => {
                            let d = Diagnostic::error(
                                DiagCode::UnresolvedReference,
                                owned("containsBlock child not found"),
                            ).with_subject(owned(c));
                            proof {
                                lemma_appends_one(diags@, d, missing_finding("containsBlock child not found"@, c@));
                                lemma_appends_trans(
                                    d0,
                                    dk,
                                    diags@.push(d),
                                    prev.1,
                                    seq![missing_finding("containsBlock child not found"@, c@)],
                                );
                                assert(prev.1 + seq![missing_finding("containsBlock child not found"@, c@)] =~= prev.1.push(
                                    missing_finding("containsBlock child not found"@, c@),
                                ));
                            }
                            diags.push(d);
                        },
                        Some(j) => {
                            if is_runtime_composite(&doc.graph[j], registered[j]) {
                                collect_leaves(c, depth + 1, Some(v), doc, registered, specialization, diags, path, walk);
                                proof {
                                    let r2 = visit_v(
                                        nodes,
                                        registered@,
                                        pruned,
                                        c@,
                                        depth + 1,
                                        Some(v as int),
                                        spine,
                                        prev.0,
                                    );
                                    lemma_appends_trans(d0, dk, diags@, prev.1, r2.1);
                                }
                            } else {
                                let ghost wl = walk.view();
                                walk.leaves.push((owned(c), v));
                                assert(walk.view().1 =~= wl.1.push((c@, v as int)));
                                assert(walk.view().0 =~= wl.0);
                            }
                        },
                    }
                }
                k += 1;
            }
            assert(ch.len() == children@.len());
            path.pop();
            assert(path@ =~= path0);
        },
    }
}

// ---- resolving connections through elided boundaries ----

/// The most non-top boundary nodes one rewritten connection path may enter.
pub const MAX_COMPOSITE_BOUNDARY_HOPS: usize = 64;

/// The most rewrite targets examined across one document's boundary traversal.
pub const MAX_COMPOSITE_BOUNDARY_TARGETS: usize = 65536;

/// The most aggregate target-IRI bytes examined across one document's boundary traversal.
pub const MAX_COMPOSITE_BOUNDARY_TARGET_BYTES: usize = 8388608;

/// The byte length `str::len` reports for a string with the characters `t`: its UTF-8 length.
pub open spec fn byte_len(t: Seq<char>) -> int {
    vstd::utf8::encode_utf8(t).len() as usize as int
}

/// The document-wide resource budget of boundary resolution.
pub struct BoundaryBudget {
    pub examined_targets: usize,
    pub examined_target_bytes: usize,
}

/// The refusal once the examined-target count is spent.
pub open spec fn target_count_finding() -> Finding {
    (
        DiagCode::MalformedDocument,
        "composite boundary resolution exceeds the supported target examination count (65536)"@,
        None,
    )
}

/// The refusal once the examined-byte budget would be exceeded.
pub open spec fn target_bytes_finding() -> Finding {
    (
        DiagCode::MalformedDocument,
        "composite boundary resolution exceeds the supported aggregate target IRI byte count (8388608)"@,
        None,
    )
}

/// The refusal of a path entering too many elided boundaries.
pub open spec fn hop_finding() -> Finding {
    (
        DiagCode::MalformedDocument,
        "composite boundary resolution exceeds the supported isConnectedTo hop count (64)"@,
        None,
    )
}

/// The budget after examining `t`, or the refusal; a refusal does not name the target, whose
/// copy would bypass the bound.
pub open spec fn examine_v(b: (int, int), t: Seq<char>) -> Result<(int, int), Finding> {
    if b.0 >= MAX_COMPOSITE_BOUNDARY_TARGETS {
        Err(target_count_finding())
    } else if byte_len(t) > MAX_COMPOSITE_BOUNDARY_TARGET_BYTES - b.1 {
        Err(target_bytes_finding())
    } else {
        Ok((b.0 + 1, b.1 + byte_len(t)))
    }
}

impl BoundaryBudget {
    pub open spec fn view(&self) -> (int, int) {
        (self.examined_targets as int, self.examined_target_bytes as int)
    }

    /// Neither the target count nor the byte count exceeds its bound.
    pub open spec fn wf(&self) -> bool {
        &&& self.examined_targets <= MAX_COMPOSITE_BOUNDARY_TARGETS
        &&& self.examined_target_bytes <= MAX_COMPOSITE_BOUNDARY_TARGET_BYTES
    }

    /// A fresh budget.
    pub fn new() -> (b: BoundaryBudget)
        ensures
            b.view() == (0int, 0int),
            b.wf(),
    {
        BoundaryBudget { examined_targets: 0, examined_target_bytes: 0 }
    }

    /// Charge one examined target, or refuse once the count or byte budget is spent.
    pub fn examine(&mut self, target: &str) -> (r: Result<(), Diagnostic>)
        requires
            old(self).wf(),
        ensures
            final(self).wf(),
            match examine_v(old(self).view(), target@) {
                Ok(b) => r is Ok && final(self).view() == b,
                Err(f) => r matches Err(d) && is_finding(d, f) && final(self).view() == old(self).view(),
            },
    {
        if self.examined_targets >= MAX_COMPOSITE_BOUNDARY_TARGETS {
            return Err(Diagnostic::error(
                DiagCode::MalformedDocument,
                owned("composite boundary resolution exceeds the supported target examination count (65536)"),
            ));
        }
        let n = target.len();
        if n > MAX_COMPOSITE_BOUNDARY_TARGET_BYTES - self.examined_target_bytes {
            return Err(Diagnostic::error(
                DiagCode::MalformedDocument,
                owned("composite boundary resolution exceeds the supported aggregate target IRI byte count (8388608)"),
            ));
        }
        self.examined_targets = self.examined_targets + 1;
        self.examined_target_bytes = self.examined_target_bytes + n;
        Ok(())
    }
}

/// One step of the boundary walk's result: the budget and the resolved targets so far.
pub type Resolved = Result<((int, int), Seq<Seq<char>>), Finding>;

/// Resolve `t` on the active path `active`: a pruned target, one that is no elided boundary,
/// one already on the path, or one naming no `@graph` node stands as authored; an elided
/// boundary is replaced by the resolution of its canonical targets, in order.
pub open spec fn expand_v(
    adj: Map<Seq<char>, Seq<Seq<char>>>,
    v: IndexV,
    pruned: Seq<Seq<char>>,
    ids: Seq<Seq<char>>,
    t: Seq<char>,
    active: Seq<Seq<char>>,
    b: (int, int),
    out: Seq<Seq<char>>,
) -> Resolved
    decreases 65 - active.len(), 0nat, 0nat,
{
    match examine_v(b, t) {
        Err(f) => Err(f),
        Ok(b1) => {
            if pruned.contains(t) || !elided_v(v, t) || active.contains(t) || !ids.contains(t) {
                Ok((b1, out.push(t)))
            } else if active.len() >= MAX_COMPOSITE_BOUNDARY_HOPS {
                Err(hop_finding())
            } else {
                let ch = targets_of(adj, t);
                expand_all_v(adj, v, pruned, ids, ch, ch.len(), active.push(t), b1, out)
            }
        },
    }
}

/// Resolve the first `k` of `ch` in turn on the active path `active`.
pub open spec fn expand_all_v(
    adj: Map<Seq<char>, Seq<Seq<char>>>,
    v: IndexV,
    pruned: Seq<Seq<char>>,
    ids: Seq<Seq<char>>,
    ch: Seq<Seq<char>>,
    k: nat,
    active: Seq<Seq<char>>,
    b: (int, int),
    out: Seq<Seq<char>>,
) -> Resolved
    decreases 65 - active.len(), 1nat, k,
{
    if k == 0 || k > ch.len() {
        Ok((b, out))
    } else {
        match expand_all_v(adj, v, pruned, ids, ch, (k - 1) as nat, active, b, out) {
            Err(f) => Err(f),
            Ok((b1, o1)) => expand_v(adj, v, pruned, ids, ch[k - 1], active, b1, o1),
        }
    }
}

/// Resolve one authored target: an elided boundary is resolved through, anything else stands.
pub open spec fn authored_v(
    adj: Map<Seq<char>, Seq<Seq<char>>>,
    v: IndexV,
    pruned: Seq<Seq<char>>,
    ids: Seq<Seq<char>>,
    t: Seq<char>,
    b: (int, int),
    out: Seq<Seq<char>>,
) -> Resolved {
    if elided_v(v, t) {
        expand_v(adj, v, pruned, ids, t, seq![], b, out)
    } else {
        Ok((b, out.push(t)))
    }
}

/// Resolve the first `k` authored targets `ts` in turn.
pub open spec fn authored_all_v(
    adj: Map<Seq<char>, Seq<Seq<char>>>,
    v: IndexV,
    pruned: Seq<Seq<char>>,
    ids: Seq<Seq<char>>,
    ts: Seq<Seq<char>>,
    k: nat,
    b: (int, int),
) -> Resolved
    decreases k,
{
    if k == 0 || k > ts.len() {
        Ok((b, seq![]))
    } else {
        match authored_all_v(adj, v, pruned, ids, ts, (k - 1) as nat, b) {
            Err(f) => Err(f),
            Ok((b1, o1)) => authored_v(adj, v, pruned, ids, ts[k - 1], b1, o1),
        }
    }
}

/// Once resolving a prefix of `ch` is refused, resolving any longer prefix is refused alike.
proof fn lemma_expand_all_err(
    adj: Map<Seq<char>, Seq<Seq<char>>>,
    v: IndexV,
    pruned: Seq<Seq<char>>,
    ids: Seq<Seq<char>>,
    ch: Seq<Seq<char>>,
    k: nat,
    m: nat,
    active: Seq<Seq<char>>,
    b: (int, int),
    out: Seq<Seq<char>>,
)
    requires
        1 <= k <= m <= ch.len(),
        expand_all_v(adj, v, pruned, ids, ch, k, active, b, out) is Err,
    ensures
        expand_all_v(adj, v, pruned, ids, ch, m, active, b, out) == expand_all_v(adj, v, pruned, ids, ch, k, active, b, out),
    decreases m - k,
{
    if m > k {
        lemma_expand_all_err(adj, v, pruned, ids, ch, k, (m - 1) as nat, active, b, out);
    }
}

/// Resolve `t` on the active path `active`, appending the resolved targets to `out`.
fn expand_target(
    t: &str,
    orientation: &CompositeOrientation,
    conns: &Connections,
    ids: &Vec<String>,
    specialization: &Specialization,
    active: &mut Vec<String>,
    budget: &mut BoundaryBudget,
    out: &mut Vec<String>,
) -> (r: Result<(), Diagnostic>)
    requires
        old(budget).wf(),
    ensures
        final(budget).wf(),
        match expand_v(
            conns.view().adjacency,
            orientation.view(),
            specialization.pruned(),
            names(ids@),
            t@,
            names(old(active)@),
            old(budget).view(),
            names(old(out)@),
        ) {
            Ok((b, o)) => r is Ok && final(budget).view() == b && names(final(out)@) == o && final(active)@ == old(
                active,
            )@,
            Err(f) => r matches Err(d) && is_finding(d, f),
        },
    decreases 65 - old(active)@.len(),
{
    let ghost adj = conns.view().adjacency;
    let ghost v = orientation.view();
    let ghost pruned = specialization.pruned();
    let ghost ns = names(ids@);
    let ghost act = names(active@);
    if let Err(d) = budget.examine(t) {
        return Err(d);
    }
    let ghost b1 = budget.view();
    if specialization.is_inactive(t) || !orientation.is_elided_boundary_source(t) || contains_str(active, t)
        || !contains_str(ids, t) {
        let ghost o0 = names(out@);
        out.push(owned(t));
        assert(names(out@) =~= o0.push(t@));
        return Ok(());
    }
    if active.len() >= MAX_COMPOSITE_BOUNDARY_HOPS {
        return Err(
            Diagnostic::error(
                DiagCode::MalformedDocument,
                owned("composite boundary resolution exceeds the supported isConnectedTo hop count (64)"),
            ),
        );
    }
    let ghost a0 = active@;
    active.push(owned(t));
    let ghost pv = active@.last();
    assert(active@ =~= a0.push(pv));
    assert(names(active@) =~= act.push(t@));
    let ghost ch = targets_of(adj, t@);
    let ghost o0 = names(out@);
    assert(expand_v(adj, v, pruned, ns, t@, act, old(budget).view(), names(old(out)@)) == expand_all_v(
        adj,
        v,
        pruned,
        ns,
        ch,
        ch.len(),
        act.push(t@),
        b1,
        o0,
    ));
    match conns.adjacency.get(t) {
        Some(children) => {
            assert(names(children@) == ch);
            let mut k: usize = 0;
            while k < children.len()
                invariant
                    adj == conns.view().adjacency,
                    v == orientation.view(),
                    pruned == specialization.pruned(),
                    ns == names(ids@),
                    names(children@) == ch,
                    k <= children@.len(),
                    active@ == a0.push(pv),
                    names(active@) == act.push(t@),
                    act.len() < 64,
                    old(active)@.len() == act.len(),
                    names(old(active)@) == act,
                    expand_v(adj, v, pruned, ns, t@, act, old(budget).view(), names(old(out)@)) == expand_all_v(
                        adj,
                        v,
                        pruned,
                        ns,
                        ch,
                        ch.len(),
                        act.push(t@),
                        b1,
                        o0,
                    ),
                    budget.wf(),
                    expand_all_v(adj, v, pruned, ns, ch, k as nat, act.push(t@), b1, o0) == Ok::<
                        ((int, int), Seq<Seq<char>>),
                        Finding,
                    >((budget.view(), names(out@))),
                decreases children@.len() - k,
            {
                let ghost before = (budget.view(), names(out@));
                match expand_target(children[k].as_str(), orientation, conns, ids, specialization, active, budget, out) {
                    Err(d) => {
                        proof {
                            let e = expand_v(adj, v, pruned, ns, ch[k as int], act.push(t@), before.0, before.1);
                            assert(e is Err);
                            assert(expand_all_v(adj, v, pruned, ns, ch, (k + 1) as nat, act.push(t@), b1, o0) == e);
                            lemma_expand_all_err(adj, v, pruned, ns, ch, (k + 1) as nat, ch.len(), act.push(t@), b1, o0);
                            assert(expand_v(adj, v, pruned, ns, t@, act, old(budget).view(), names(old(out)@)) == e);
                            assert(act == names(old(active)@));
                            assert(is_finding(d, e->Err_0));
                        }
                        return Err(d);
                    },
                    Ok(()) => {},
                }
                k += 1;
            }
            assert(ch.len() == children@.len());
        },
        None => {
            assert(ch =~= seq![]);
        },
    }
    active.pop();
    assert(active@ =~= a0);
    Ok(())
}

// ---- ordering crossed drivers' targets ----

/// The `@graph` position of `t`, with unknown IRIs ordered last.
pub open spec fn pos_of(v: IndexV, t: Seq<char>) -> int {
    if v.positions.contains_key(t) {
        v.positions[t] as int
    } else {
        usize::MAX as int
    }
}

/// `x` inserted into `s` after every element whose position is not greater than its own.
pub open spec fn insert_by_pos(v: IndexV, s: Seq<Seq<char>>, x: Seq<char>) -> Seq<Seq<char>>
    decreases s.len(),
{
    if s.len() == 0 {
        seq![x]
    } else if pos_of(v, s.last()) <= pos_of(v, x) {
        s.push(x)
    } else {
        insert_by_pos(v, s.drop_last(), x).push(s.last())
    }
}

/// `s` stably sorted by `@graph` position: equal positions keep their order.
pub open spec fn sort_by_pos(v: IndexV, s: Seq<Seq<char>>) -> Seq<Seq<char>>
    decreases s.len(),
{
    if s.len() == 0 {
        seq![]
    } else {
        insert_by_pos(v, sort_by_pos(v, s.drop_last()), s.last())
    }
}

proof fn lemma_insert_by_pos(v: IndexV, s: Seq<Seq<char>>, x: Seq<char>, j: int)
    requires
        0 <= j <= s.len(),
        forall|i: int| j <= i < s.len() ==> pos_of(v, #[trigger] s[i]) > pos_of(v, x),
        j == 0 || pos_of(v, s[j - 1]) <= pos_of(v, x),
    ensures
        insert_by_pos(v, s, x) == s.insert(j, x),
    decreases s.len(),
{
    if s.len() == 0 {
        assert(s.insert(j, x) =~= seq![x]);
    } else if j == s.len() {
        assert(s.insert(j, x) =~= s.push(x));
    } else {
        assert(pos_of(v, s[s.len() - 1]) > pos_of(v, x));
        lemma_insert_by_pos(v, s.drop_last(), x, j);
        assert(s.insert(j, x) =~= s.drop_last().insert(j, x).push(s.last()));
    }
}

/// `targets` stably sorted by `@graph` position.
fn sort_by_position(orientation: &CompositeOrientation, targets: &Vec<String>) -> (r: Vec<String>)
    ensures
        names(r@) == sort_by_pos(orientation.view(), names(targets@)),
{
    let ghost v = orientation.view();
    let ghost ts = names(targets@);
    let mut r: Vec<String> = Vec::new();
    let mut i: usize = 0;
    while i < targets.len()
        invariant
            v == orientation.view(),
            ts == names(targets@),
            i <= targets@.len(),
            names(r@) == sort_by_pos(v, ts.take(i as int)),
        decreases targets@.len() - i,
    {
        let x = targets[i].as_str();
        let px = orientation.position(x);
        let ghost rs = names(r@);
        let mut j: usize = r.len();
        while j > 0 && orientation.position(r[j - 1].as_str()) > px
            invariant
                v == orientation.view(),
                rs == names(r@),
                j <= r@.len(),
                px as int == pos_of(v, x@),
                forall|q: int| j <= q < r@.len() ==> pos_of(v, #[trigger] rs[q]) > pos_of(v, x@),
            decreases j,
        {
            j -= 1;
        }
        proof {
            lemma_insert_by_pos(v, rs, x@, j as int);
            assert(ts.take(i + 1).drop_last() =~= ts.take(i as int));
        }
        r.insert(j, owned(x));
        assert(names(r@) =~= rs.insert(j as int, x@));
        i += 1;
    }
    assert(ts.take(targets@.len() as int) =~= ts);
    r
}

// ---- rewriting connections ----

/// Rewritten connections: each source with its resolved targets, in source order.
pub type Rewritten = Result<((int, int), Seq<(Seq<char>, Seq<Seq<char>>)>), Finding>;

/// Rewrite the first `k` of `sources`: a pruned source and an elided boundary source keep
/// nothing; every other source's canonical targets are resolved through elided boundaries, a
/// crossed driver's targets are ordered by `@graph` position, and a non-empty list is kept.
/// Lists are never deduplicated.
pub open spec fn rewrite_v(
    adj: Map<Seq<char>, Seq<Seq<char>>>,
    v: IndexV,
    pruned: Seq<Seq<char>>,
    ids: Seq<Seq<char>>,
    crossed: Set<Seq<char>>,
    sources: Seq<Seq<char>>,
    k: nat,
    b: (int, int),
) -> Rewritten
    decreases k,
{
    if k == 0 || k > sources.len() {
        Ok((b, seq![]))
    } else {
        match rewrite_v(adj, v, pruned, ids, crossed, sources, (k - 1) as nat, b) {
            Err(f) => Err(f),
            Ok((b1, acc)) => {
                let src = sources[k - 1];
                if pruned.contains(src) || elided_v(v, src) {
                    Ok((b1, acc))
                } else {
                    let ts = targets_of(adj, src);
                    match authored_all_v(adj, v, pruned, ids, ts, ts.len(), b1) {
                        Err(f) => Err(f),
                        Ok((b2, out)) => {
                            let sorted = if crossed.contains(src) {
                                sort_by_pos(v, out)
                            } else {
                                out
                            };
                            Ok(
                                (
                                    b2,
                                    if sorted.len() > 0 {
                                        acc.push((src, sorted))
                                    } else {
                                        acc
                                    },
                                ),
                            )
                        },
                    }
                }
            },
        }
    }
}

/// The map built by inserting each pair in turn; a later pair for a source replaces an earlier.
pub open spec fn pairs_map(acc: Seq<(Seq<char>, Seq<Seq<char>>)>) -> Map<Seq<char>, Seq<Seq<char>>>
    decreases acc.len(),
{
    if acc.len() == 0 {
        Map::empty()
    } else {
        pairs_map(acc.drop_last()).insert(acc.last().0, acc.last().1)
    }
}

/// A string-keyed map of target lists as a specification map.
pub open spec fn lists_view(m: StrMap<Vec<String>>) -> Map<Seq<char>, Seq<Seq<char>>> {
    Map::new(|k: Seq<char>| m.at(k) is Some, |k: Seq<char>| names(m.at(k)->0@))
}

/// The sources of connection rewriting: the `@graph` nodes in order, then the node-less
/// derived connectors.
pub open spec fn rewrite_sources(nodes: Seq<Node>, v: IndexV) -> Seq<Seq<char>> {
    node_ids(nodes) + v.synthesized
}

/// The outcome of rewriting a document's connections.
pub open spec fn rewrite_outcome(
    nodes: Seq<Node>,
    v: IndexV,
    conns: ConnV,
    pruned: Seq<Seq<char>>,
) -> Rewritten {
    let sources = rewrite_sources(nodes, v);
    rewrite_v(conns.adjacency, v, pruned, node_ids(nodes), conns.crossed, sources, sources.len(), (0, 0))
}

/// Resolve one authored target, appending what it resolves to: an elided boundary is resolved
/// through its canonical targets, charging the budget; anything else stands as authored and
/// charges nothing. `ids` are the `@graph` node `@id`s.
pub fn resolve_authored_target(
    target: &str,
    orientation: &CompositeOrientation,
    conns: &Connections,
    ids: &Vec<String>,
    specialization: &Specialization,
    budget: &mut BoundaryBudget,
    out: &mut Vec<String>,
) -> (r: Result<(), Diagnostic>)
    requires
        old(budget).wf(),
    ensures
        final(budget).wf(),
        match authored_v(
            conns.view().adjacency,
            orientation.view(),
            specialization.pruned(),
            names(ids@),
            target@,
            old(budget).view(),
            names(old(out)@),
        ) {
            Ok((b, o)) => r is Ok && final(budget).view() == b && names(final(out)@) == o,
            Err(f) => r matches Err(d) && is_finding(d, f),
        },
{
    if orientation.is_elided_boundary_source(target) {
        let mut active: Vec<String> = Vec::new();
        assert(names(active@) =~= seq![]);
        expand_target(target, orientation, conns, ids, specialization, &mut active, budget, out)
    } else {
        let ghost o0 = names(out@);
        out.push(owned(target));
        assert(names(out@) =~= o0.push(target@));
        Ok(())
    }
}

/// Resolve every authored target of `ts` in turn.
fn resolve_authored_targets(
    ts: &Vec<String>,
    orientation: &CompositeOrientation,
    conns: &Connections,
    ids: &Vec<String>,
    specialization: &Specialization,
    budget: &mut BoundaryBudget,
) -> (r: Result<Vec<String>, Diagnostic>)
    requires
        old(budget).wf(),
    ensures
        final(budget).wf(),
        match authored_all_v(
            conns.view().adjacency,
            orientation.view(),
            specialization.pruned(),
            names(ids@),
            names(ts@),
            ts@.len(),
            old(budget).view(),
        ) {
            Ok((b, o)) => r matches Ok(out) && final(budget).view() == b && names(out@) == o,
            Err(f) => r matches Err(d) && is_finding(d, f),
        },
{
    let ghost adj = conns.view().adjacency;
    let ghost v = orientation.view();
    let ghost pruned = specialization.pruned();
    let ghost ns = names(ids@);
    let ghost tv = names(ts@);
    let mut out: Vec<String> = Vec::new();
    assert(names(out@) =~= seq![]);
    let mut k: usize = 0;
    while k < ts.len()
        invariant
            adj == conns.view().adjacency,
            v == orientation.view(),
            pruned == specialization.pruned(),
            ns == names(ids@),
            tv == names(ts@),
            k <= ts@.len(),
            budget.wf(),
            authored_all_v(adj, v, pruned, ns, tv, k as nat, old(budget).view()) == Ok::<
                ((int, int), Seq<Seq<char>>),
                Finding,
            >((budget.view(), names(out@))),
        decreases ts@.len() - k,
    {
        let t = ts[k].as_str();
        assert(tv[k as int] == t@);
        match resolve_authored_target(t, orientation, conns, ids, specialization, budget, &mut out) {
            Err(d) => {
                proof {
                    lemma_authored_all_err(adj, v, pruned, ns, tv, (k + 1) as nat, ts@.len(), old(budget).view());
                }
                return Err(d);
            },
            Ok(()) => {},
        }
        k += 1;
    }
    Ok(out)
}

/// Once resolving a prefix of `ts` is refused, resolving any longer prefix is refused alike.
proof fn lemma_authored_all_err(
    adj: Map<Seq<char>, Seq<Seq<char>>>,
    v: IndexV,
    pruned: Seq<Seq<char>>,
    ids: Seq<Seq<char>>,
    ts: Seq<Seq<char>>,
    k: nat,
    m: nat,
    b: (int, int),
)
    requires
        1 <= k <= m <= ts.len(),
        authored_all_v(adj, v, pruned, ids, ts, k, b) is Err,
    ensures
        authored_all_v(adj, v, pruned, ids, ts, m, b) == authored_all_v(adj, v, pruned, ids, ts, k, b),
    decreases m - k,
{
    if m > k {
        lemma_authored_all_err(adj, v, pruned, ids, ts, k, (m - 1) as nat, b);
    }
}

/// Once rewriting a prefix of the sources is refused, rewriting any longer prefix is refused
/// alike.
proof fn lemma_rewrite_err(
    adj: Map<Seq<char>, Seq<Seq<char>>>,
    v: IndexV,
    pruned: Seq<Seq<char>>,
    ids: Seq<Seq<char>>,
    crossed: Set<Seq<char>>,
    sources: Seq<Seq<char>>,
    k: nat,
    m: nat,
    b: (int, int),
)
    requires
        1 <= k <= m <= sources.len(),
        rewrite_v(adj, v, pruned, ids, crossed, sources, k, b) is Err,
    ensures
        rewrite_v(adj, v, pruned, ids, crossed, sources, m, b) == rewrite_v(adj, v, pruned, ids, crossed, sources, k, b),
    decreases m - k,
{
    if m > k {
        lemma_rewrite_err(adj, v, pruned, ids, crossed, sources, k, (m - 1) as nat, b);
    }
}

/// Rewrite the document's connections onto the lowered shape: each active source that is not
/// an elided boundary gets its canonical targets resolved through elided boundaries. Returns
/// the rewritten lists by source with the orientation pass's deferred diagnostic, or the
/// refusal that stopped the boundary walk.
pub fn rewrite_connections(
    doc: &CxfDocument,
    root: &str,
    specialization: &Specialization,
    orientation: &CompositeOrientation,
) -> (r: Result<(StrMap<Vec<String>>, Option<Diagnostic>), Diagnostic>)
    ensures
        ({
            let conns = connections_v(
                orientation.view(),
                doc.graph@,
                root@,
                specialization.pruned(),
                doc.graph@.len(),
            );
            match rewrite_outcome(doc.graph@, orientation.view(), conns, specialization.pruned()) {
                Ok((_, acc)) => r matches Ok((m, deferred)) && lists_view(m) == pairs_map(acc) && match deferred {
                    Some(d) => conns.deferred == Some((d.code, d.message@)) && d.severity == crate::diag::Severity::Error
                        && d.subject is None,
                    None => conns.deferred is None,
                },
                Err(f) => r matches Err(d) && is_finding(d, f),
            }
        }),
{
    let conns = orientation.canonical_connections(doc, root, specialization);
    let ghost cv = conns.view();
    let ghost v = orientation.view();
    let ghost pruned = specialization.pruned();
    let ids = node_id_list(&doc.graph);
    let ghost ns = names(ids@);
    let ghost sources = rewrite_sources(doc.graph@, v);
    let synthesized = orientation.synthesized_sources();
    let mut all: Vec<String> = Vec::new();
    let mut q: usize = 0;
    while q < ids.len()
        invariant
            ns == names(ids@),
            q <= ids@.len(),
            names(all@) == ns.take(q as int),
        decreases ids@.len() - q,
    {
        let ghost a0 = names(all@);
        all.push(owned(ids[q].as_str()));
        assert(names(all@) =~= a0.push(ns[q as int]));
        assert(ns.take(q + 1) =~= ns.take(q as int).push(ns[q as int]));
        q += 1;
    }
    let mut q: usize = 0;
    while q < synthesized.len()
        invariant
            ns == names(ids@),
            q <= synthesized@.len(),
            names(all@) == ns + names(synthesized@).take(q as int),
        decreases synthesized@.len() - q,
    {
        let ghost a0 = names(all@);
        all.push(owned(synthesized[q].as_str()));
        assert(names(all@) =~= a0.push(names(synthesized@)[q as int]));
        assert(names(synthesized@).take(q + 1) =~= names(synthesized@).take(q as int).push(names(synthesized@)[q as int]));
        q += 1;
    }
    assert(names(synthesized@).take(synthesized@.len() as int) =~= names(synthesized@));
    assert(names(all@) == sources);
    let mut budget = BoundaryBudget::new();
    let mut map: StrMap<Vec<String>> = StrMap::new();
    let ghost mut acc: Seq<(Seq<char>, Seq<Seq<char>>)> = seq![];
    assert(lists_view(map) =~= pairs_map(acc));
    let mut k: usize = 0;
    while k < all.len()
        invariant
            cv == conns.view(),
            v == orientation.view(),
            pruned == specialization.pruned(),
            ns == names(ids@),
            ns == node_ids(doc.graph@),
            names(all@) == sources,
            sources == rewrite_sources(doc.graph@, v),
            cv == connections_v(v, doc.graph@, root@, pruned, doc.graph@.len()),
            conns.deferred_ok(),
            k <= all@.len(),
            budget.wf(),
            rewrite_v(cv.adjacency, v, pruned, ns, cv.crossed, sources, k as nat, (0, 0)) == Ok::<
                ((int, int), Seq<(Seq<char>, Seq<Seq<char>>)>),
                Finding,
            >((budget.view(), acc)),
            lists_view(map) == pairs_map(acc),
        decreases all@.len() - k,
    {
        let src = all[k].as_str();
        assert(sources[k as int] == src@);
        if specialization.is_inactive(src) || orientation.is_elided_boundary_source(src) {
        } else {
            let ghost ts = targets_of(cv.adjacency, src@);
            let empty: Vec<String> = Vec::new();
            let authored: &Vec<String> = match conns.adjacency.get(src) {
                Some(list) => list,
                None => &empty,
            };
            assert(names(authored@) == ts) by {
                if !cv.adjacency.contains_key(src@) {
                    assert(names(empty@) =~= seq![]);
                }
            }
            let ghost budget_before = budget;
            match resolve_authored_targets(authored, orientation, &conns, &ids, specialization, &mut budget) {
                Err(d) => {
                    proof {
                        let e = authored_all_v(cv.adjacency, v, pruned, ns, ts, ts.len(), budget_before.view());
                        assert(e is Err);
                        assert(rewrite_v(cv.adjacency, v, pruned, ns, cv.crossed, sources, (k + 1) as nat, (0, 0))
                            == Err::<((int, int), Seq<(Seq<char>, Seq<Seq<char>>)>), Finding>(e->Err_0));
                        lemma_rewrite_err(cv.adjacency, v, pruned, ns, cv.crossed, sources, (k + 1) as nat, sources.len(), (0, 0));
                        assert(names(all@).len() == all@.len());
                        assert(rewrite_v(cv.adjacency, v, pruned, ns, cv.crossed, sources, sources.len(), (0, 0))
                            == Err::<((int, int), Seq<(Seq<char>, Seq<Seq<char>>)>), Finding>(e->Err_0));
                        assert(sources == rewrite_sources(doc.graph@, v));
                        assert(rewrite_outcome(doc.graph@, v, cv, pruned) == Err::<
                            ((int, int), Seq<(Seq<char>, Seq<Seq<char>>)>),
                            Finding,
                        >(e->Err_0));
                    }
                    return Err(d);
                },
                Ok(out) => {
                    let sorted = if contains_str(&conns.crossed, src) {
                        sort_by_position(orientation, &out)
                    } else {
                        out
                    };
                    if sorted.len() > 0 {
                        let ghost m0 = lists_view(map);
                        let ghost sv = names(sorted@);
                        let ghost old_map = map;
                        let ghost acc0 = acc;
                        proof {
                            acc = acc.push((src@, sv));
                        }
                        map.insert(src, sorted);
                        assert forall|x: Seq<char>| #[trigger] lists_view(map).contains_key(x) == m0.insert(
                            src@,
                            sv,
                        ).contains_key(x) && (lists_view(map).contains_key(x) ==> lists_view(map)[x] == m0.insert(
                            src@,
                            sv,
                        )[x]) by {
                            assert(map.at(x) == if x == src@ {
                                Some(map.at(src@)->0)
                            } else {
                                old_map.at(x)
                            });
                        }
                        assert(lists_view(map) =~= m0.insert(src@, sv));
                        assert(acc.drop_last() =~= acc0);
                    }
                },
            }
        }
        k += 1;
    }
    assert(names(all@).len() == all@.len());
    assert(rewrite_outcome(doc.graph@, v, cv, pruned) == Ok::<((int, int), Seq<(Seq<char>, Seq<Seq<char>>)>), Finding>(
        (budget.view(), acc),
    ));
    Ok((map, conns.deferred))
}

/// The `@id`s of the `@graph` nodes, in order.
fn node_id_list(nodes: &Vec<Node>) -> (r: Vec<String>)
    ensures
        names(r@) == node_ids(nodes@),
{
    let mut r: Vec<String> = Vec::new();
    let mut i: usize = 0;
    while i < nodes.len()
        invariant
            i <= nodes@.len(),
            names(r@) == node_ids(nodes@).take(i as int),
        decreases nodes@.len() - i,
    {
        let ghost prev = names(r@);
        r.push(owned(nodes[i].id.as_str()));
        assert(names(r@) =~= prev.push(nodes@[i as int].id@));
        assert(node_ids(nodes@).take(i + 1) =~= node_ids(nodes@).take(i as int).push(nodes@[i as int].id@));
        i += 1;
    }
    assert(node_ids(nodes@).take(nodes@.len() as int) =~= node_ids(nodes@));
    r
}

// ---- the lowered document ----

/// `r` is the reference list of `ids`: absent when empty, a single reference for one, a list
/// otherwise, each reference carrying nothing but its `@id`.
pub open spec fn refs_match(ids: Seq<Seq<char>>, r: OneOrMany<IriRef>) -> bool {
    &&& r.items().map_values(|x: IriRef| x.id@) == ids
    &&& forall|k: int| 0 <= k < r.items().len() ==> (#[trigger] r.items()[k]).other@.len() == 0
    &&& (ids.len() == 0 ==> r is Absent)
    &&& (ids.len() == 1 ==> r is One)
    &&& (ids.len() > 1 ==> r is Many)
}

/// The reference list of `ids`.
pub fn make_refs(ids: &Vec<String>) -> (r: OneOrMany<IriRef>)
    ensures
        refs_match(names(ids@), r),
{
    if ids.len() == 0 {
        let r: OneOrMany<IriRef> = OneOrMany::Absent;
        assert(names(ids@) =~= seq![]);
        assert(r.items().map_values(|x: IriRef| x.id@) =~= names(ids@));
        r
    } else if ids.len() == 1 {
        let r = OneOrMany::One(IriRef { id: owned(ids[0].as_str()), other: Vec::new() });
        assert(r.items().map_values(|x: IriRef| x.id@) =~= names(ids@));
        assert(r.items()[0].other@.len() == 0);
        r
    } else {
        let mut v: Vec<IriRef> = Vec::new();
        let mut i: usize = 0;
        while i < ids.len()
            invariant
                i <= ids@.len(),
                v@.map_values(|x: IriRef| x.id@) == names(ids@).take(i as int),
                forall|k: int| 0 <= k < v@.len() ==> (#[trigger] v@[k]).other@.len() == 0,
            decreases ids@.len() - i,
        {
            let ghost v0 = v@;
            v.push(IriRef { id: owned(ids[i].as_str()), other: Vec::new() });
            assert(v@.map_values(|x: IriRef| x.id@) =~= v0.map_values(|x: IriRef| x.id@).push(ids@[i as int]@));
            assert(names(ids@).take(i + 1) =~= names(ids@).take(i as int).push(ids@[i as int]@));
            i += 1;
        }
        assert(names(ids@).take(ids@.len() as int) =~= names(ids@));
        let r = OneOrMany::Many(v);
        assert(forall|k: int| 0 <= k < r.items().len() ==> (#[trigger] r.items()[k]).other@.len() == 0) by {
            assert(r.items() == v@);
        }
        r
    }
}

/// The index the orientation pass builds for `root`.
pub open spec fn orientation_v(
    nodes: Seq<Node>,
    registered: Seq<bool>,
    port_names: Seq<Option<(Vec<String>, Vec<String>)>>,
    root: Seq<char>,
    pruned: Seq<Seq<char>>,
) -> IndexV {
    let v = nodes_v(nodes, registered, port_names, root, pruned, nodes.len());
    IndexV { tree: v.tree && !has_cycle(v.parents), ..v }
}

/// Move each node-less derived source's rewritten list out of `m`, in order: the moved pairs
/// and what remains.
pub open spec fn take_synth(
    m: Map<Seq<char>, Seq<Seq<char>>>,
    syn: Seq<Seq<char>>,
) -> (Seq<(Seq<char>, Seq<Seq<char>>)>, Map<Seq<char>, Seq<Seq<char>>>)
    decreases syn.len(),
{
    if syn.len() == 0 {
        (seq![], m)
    } else {
        let (o, m1) = take_synth(m, syn.drop_last());
        let x = syn.last();
        if m1.contains_key(x) {
            (o.push((x, m1[x])), m1.remove(x))
        } else {
            (o, m1)
        }
    }
}

/// The leaf `@id`s of a flattening, in lowered order.
pub open spec fn leaves_of(w: WalkS) -> Seq<Seq<char>> {
    w.1.map_values(|l: (Seq<char>, int)| l.0)
}

/// `m` is `n` lowered: the root lists the flattened leaves, every other composite contains
/// nothing, and an active node's connections are its rewritten list; nothing else changes.
pub open spec fn lowered_ok(
    n: Node,
    m: Node,
    root: Seq<char>,
    v: IndexV,
    leaves: Seq<Seq<char>>,
    pruned: Seq<Seq<char>>,
    rest: Map<Seq<char>, Seq<Seq<char>>>,
) -> bool {
    &&& m == Node { contains_block: m.contains_block, is_connected_to: m.is_connected_to, ..n }
    &&& if n.id@ == root {
        refs_match(leaves, m.contains_block)
    } else if v.composites.contains(n.id@) {
        m.contains_block is Absent
    } else {
        m.contains_block == n.contains_block
    }
    &&& if !pruned.contains(n.id@) {
        refs_match(targets_of(rest, n.id@), m.is_connected_to)
    } else {
        m.is_connected_to == n.is_connected_to
    }
}

/// The orientation pass's deferred diagnostic, as findings.
pub open spec fn deferred_findings(c: ConnV) -> Seq<Finding> {
    match c.deferred {
        Some((code, message)) => seq![(code, message, None)],
        None => seq![],
    }
}

/// A CXF document lowered to the single-root, flat-child resolver shape, with the flattening
/// that names each leaf's composite visit and the canonical connections whose source is a
/// node-less derived connector.
pub struct LoweredCxf {
    pub doc: CxfDocument,
    pub root_iri: Option<String>,
    pub walk: LeafWalk,
    pub synthesized_connections: Vec<(String, Vec<String>)>,
    pub boundary_traversal_failed: bool,
}

/// Pairs of a source and its target list, as characters.
pub open spec fn pairs_view(p: Seq<(String, Vec<String>)>) -> Seq<(Seq<char>, Seq<Seq<char>>)> {
    p.map_values(|x: (String, Vec<String>)| (x.0@, names(x.1@)))
}

/// A copy of a list of strings.
pub(crate) fn copy_strings(v: &Vec<String>) -> (r: Vec<String>)
    ensures
        names(r@) == names(v@),
{
    let mut r: Vec<String> = Vec::new();
    let mut i: usize = 0;
    while i < v.len()
        invariant
            i <= v@.len(),
            names(r@) == names(v@).take(i as int),
        decreases v@.len() - i,
    {
        let ghost r0 = names(r@);
        r.push(owned(v[i].as_str()));
        assert(names(r@) =~= r0.push(v@[i as int]@));
        assert(names(v@).take(i + 1) =~= names(v@).take(i as int).push(v@[i as int]@));
        i += 1;
    }
    assert(names(v@).take(v@.len() as int) =~= names(v@));
    r
}

/// Lower the supported nested-composite subset before dense block and connector ids are
/// assigned: select the top composite, refuse constructs outside the subset, flatten its
/// `containsBlock` nesting, and rewrite connections through elided boundaries. The document
/// comes back unchanged when no single root exists or the boundary walk is refused.
/// `registered[i]` says whether node `i`'s class is a registered leaf, `port_names[i]` gives
/// that class's declared input and output port names.
pub fn lower(
    doc: CxfDocument,
    registered: &[bool],
    port_names: &[Option<(Vec<String>, Vec<String>)>],
    specialization: &Specialization,
    diags: &mut Vec<Diagnostic>,
) -> (r: LoweredCxf)
    requires
        registered@.len() == doc.graph@.len(),
        port_names@.len() == doc.graph@.len(),
    ensures
        ({
            let nodes = doc.graph@;
            let pruned = specialization.pruned();
            let roots = root_candidates(nodes, registered@);
            if roots.len() != 1 {
                &&& r.doc == doc
                &&& r.root_iri is None
                &&& r.walk.view() == (Seq::<(Seq<char>, Option<int>)>::empty(), Seq::<(Seq<char>, int)>::empty())
                &&& r.synthesized_connections@.len() == 0
                &&& !r.boundary_traversal_failed
                &&& appends(
                    old(diags)@,
                    final(diags)@,
                    seq![if roots.len() == 0 { no_root_finding() } else { many_roots_finding(roots) }],
                )
            } else {
                let root = roots[0];
                let v = orientation_v(nodes, registered@, port_names@, root, pruned);
                let walked = visit_v(nodes, registered@, pruned, root, 1, None, seq![], (seq![], seq![]));
                let early = construct_findings(nodes, pruned, nodes.len()) + walked.1;
                let conns = connections_v(v, nodes, root, pruned, nodes.len());
                &&& r.root_iri matches Some(x) && x@ == root
                &&& r.walk.view() == walked.0
                &&& match rewrite_outcome(nodes, v, conns, pruned) {
                    Err(f) => {
                        &&& r.doc == doc
                        &&& r.boundary_traversal_failed
                        &&& r.synthesized_connections@.len() == 0
                        &&& appends(old(diags)@, final(diags)@, early + seq![f])
                    },
                    Ok((_, acc)) => {
                        let moved = take_synth(pairs_map(acc), v.synthesized);
                        &&& !r.boundary_traversal_failed
                        &&& appends(old(diags)@, final(diags)@, early + deferred_findings(conns))
                        &&& pairs_view(r.synthesized_connections@) == moved.0
                        &&& r.doc.context == doc.context
                        &&& r.doc.other == doc.other
                        &&& r.doc.graph@.len() == nodes.len()
                        &&& forall|i: int| 0 <= i < nodes.len() ==> #[trigger] lowered_ok(
                            nodes[i],
                            r.doc.graph@[i],
                            root,
                            v,
                            leaves_of(walked.0),
                            pruned,
                            moved.1,
                        )
                    },
                }
            }
        }),
{
    let ghost nodes = doc.graph@;
    let ghost pruned = specialization.pruned();
    let ghost d0 = diags@;
    let mut walk = LeafWalk { visits: Vec::new(), leaves: Vec::new() };
    assert(walk.view().0 =~= seq![] && walk.view().1 =~= seq![]);
    let root: String = match root_composite(&doc, registered, diags) {
        Some(root) => owned(root),
        None => {
            return LoweredCxf {
                doc,
                root_iri: None,
                walk,
                synthesized_connections: Vec::new(),
                boundary_traversal_failed: false,
            };
        },
    };
    let ghost d1 = diags@;
    reject_unsupported_constructs(&doc, specialization, diags);
    let orientation = CompositeOrientation::new(&doc, registered, port_names, root.as_str(), specialization);
    let ghost d2 = diags@;
    let mut path: Vec<String> = Vec::new();
    assert(names(path@) =~= seq![]);
    collect_leaves(root.as_str(), 1, None, &doc, registered, specialization, diags, &mut path, &mut walk);
    let ghost d3 = diags@;
    let ghost v = orientation.view();
    let ghost walked = visit_v(nodes, registered@, pruned, root@, 1, None, seq![], (seq![], seq![]));
    proof {
        lemma_appends_trans(d1, d2, d3, construct_findings(nodes, pruned, nodes.len()), walked.1);
    }
    let rewritten = match rewrite_connections(&doc, root.as_str(), specialization, &orientation) {
        Err(d) => {
            proof {
                let f = rewrite_outcome(nodes, v, connections_v(v, nodes, root@, pruned, nodes.len()), pruned)->Err_0;
                lemma_appends_one(diags@, d, f);
                lemma_appends_trans(d1, d3, diags@.push(d), construct_findings(nodes, pruned, nodes.len()) + walked.1, seq![f]);
            }
            diags.push(d);
            return LoweredCxf {
                doc,
                root_iri: Some(root),
                walk,
                synthesized_connections: Vec::new(),
                boundary_traversal_failed: true,
            };
        },
        Ok((map, deferred)) => {
            let ghost conns = connections_v(v, nodes, root@, pruned, nodes.len());
            match deferred {
                Some(d) => {
                    proof {
                        lemma_appends_one(diags@, d, (d.code, d.message@, None));
                        assert(deferred_findings(conns) =~= seq![(d.code, d.message@, None::<Seq<char>>)]);
                    }
                    diags.push(d);
                },
                None => {
                    proof {
                        lemma_appends_none(diags@);
                    }
                },
            }
            proof {
                lemma_appends_trans(
                    d1,
                    d3,
                    diags@,
                    construct_findings(nodes, pruned, nodes.len()) + walked.1,
                    deferred_findings(conns),
                );
            }
            map
        },
    };
    // The node-less derived sources' lists move out of the rewritten map.
    let ghost m0 = lists_view(rewritten);
    let synthesized = orientation.synthesized_sources();
    let mut moved: Vec<(String, Vec<String>)> = Vec::new();
    let mut taken: Vec<String> = Vec::new();
    let mut q: usize = 0;
    while q < synthesized.len()
        invariant
            m0 == lists_view(rewritten),
            names(synthesized@) == v.synthesized,
            q <= synthesized@.len(),
            pairs_view(moved@) == take_synth(m0, v.synthesized.take(q as int)).0,
            forall|x: Seq<char>| #[trigger] take_synth(m0, v.synthesized.take(q as int)).1.contains_key(x) == (
            m0.contains_key(x) && !names(taken@).contains(x)),
            forall|x: Seq<char>| #[trigger] take_synth(m0, v.synthesized.take(q as int)).1.contains_key(x) ==> take_synth(
                m0,
                v.synthesized.take(q as int),
            ).1[x] == m0[x],
        decreases synthesized@.len() - q,
    {
        let x = synthesized[q].as_str();
        let ghost before = take_synth(m0, v.synthesized.take(q as int));
        assert(v.synthesized.take(q + 1).drop_last() =~= v.synthesized.take(q as int));
        assert(v.synthesized[q as int] == x@);
        let ghost t0 = names(taken@);
        if !contains_str(&taken, x) {
            match rewritten.get(x) {
                Some(list) => {
                    assert(m0.contains_key(x@) && m0[x@] == names(list@));
                    assert(before.1.contains_key(x@));
                    let ghost p0 = pairs_view(moved@);
                    moved.push((owned(x), copy_strings(list)));
                    assert(pairs_view(moved@) =~= p0.push((x@, m0[x@])));
                    taken.push(owned(x));
                    assert(names(taken@) =~= t0.push(x@));
                    assert forall|y: Seq<char>| #[trigger] before.1.remove(x@).contains_key(y) == (m0.contains_key(y)
                        && !names(taken@).contains(y)) by {
                        if y == x@ {
                            assert(names(taken@)[t0.len() as int] == y);
                        }
                        if t0.contains(y) {
                            let j = choose|j: int| 0 <= j < t0.len() && t0[j] == y;
                            assert(names(taken@)[j] == y);
                        }
                        if names(taken@).contains(y) {
                            let j = choose|j: int| 0 <= j < names(taken@).len() && names(taken@)[j] == y;
                            if j < t0.len() {
                                assert(t0[j] == y);
                            }
                        }
                    }
                },
                None => {
                    assert(!before.1.contains_key(x@));
                },
            }
        } else {
            assert(!before.1.contains_key(x@));
        }
        q += 1;
    }
    assert(v.synthesized.take(synthesized@.len() as int) =~= v.synthesized);
    let ghost rest = take_synth(m0, v.synthesized).1;
    // The leaves in lowered order.
    let mut leaf_ids: Vec<String> = Vec::new();
    let mut q: usize = 0;
    while q < walk.leaves.len()
        invariant
            q <= walk.leaves@.len(),
            names(leaf_ids@) == leaves_of(walk.view()).take(q as int),
        decreases walk.leaves@.len() - q,
    {
        let ghost l0 = names(leaf_ids@);
        leaf_ids.push(owned(walk.leaves[q].0.as_str()));
        assert(names(leaf_ids@) =~= l0.push(walk.leaves@[q as int].0@));
        assert(leaves_of(walk.view()).take(q + 1) =~= leaves_of(walk.view()).take(q as int).push(
            walk.leaves@[q as int].0@,
        ));
        q += 1;
    }
    assert(leaves_of(walk.view()).take(walk.leaves@.len() as int) =~= leaves_of(walk.view()));
    let ghost doc0 = doc;
    let mut lowered = doc;
    let ghost g0 = lowered.graph@;
    let mut i: usize = 0;
    while i < lowered.graph.len()
        invariant
            g0 == nodes,
            lowered.context == doc0.context,
            lowered.other == doc0.other,
            lowered.graph@.len() == nodes.len(),
            i <= nodes.len(),
            v == orientation.view(),
            pruned == specialization.pruned(),
            names(leaf_ids@) == leaves_of(walked.0),
            forall|x: Seq<char>| #[trigger] rest.contains_key(x) == (m0.contains_key(x) && !names(taken@).contains(x)),
            forall|x: Seq<char>| #[trigger] rest.contains_key(x) ==> rest[x] == m0[x],
            m0 == lists_view(rewritten),
            forall|j: int| 0 <= j < i ==> #[trigger] lowered_ok(nodes[j], lowered.graph@[j], root@, v, leaves_of(walked.0), pruned, rest),
            forall|j: int| i <= j < nodes.len() ==> #[trigger] lowered.graph@[j] == nodes[j],
        decreases nodes.len() - i,
    {
        let ghost n = nodes[i as int];
        let is_root = str_eq(lowered.graph[i].id.as_str(), root.as_str());
        let is_composite = contains_str(&orientation.composites, lowered.graph[i].id.as_str());
        let active = !specialization.is_inactive(lowered.graph[i].id.as_str());
        let conn = if active {
            let id = lowered.graph[i].id.as_str();
            let targets = if contains_str(&taken, id) {
                Vec::new()
            } else {
                match rewritten.get(id) {
                    Some(list) => copy_strings(list),
                    None => Vec::new(),
                }
            };
            proof {
                assert(names(targets@) == targets_of(rest, n.id@)) by {
                    if !rest.contains_key(n.id@) {
                        assert(names(targets@) =~= seq![]);
                    }
                }
            }
            Some(make_refs(&targets))
        } else {
            None
        };
        let contained = if is_root {
            Some(make_refs(&leaf_ids))
        } else if is_composite {
            Some(OneOrMany::Absent)
        } else {
            None
        };
        let node = &mut lowered.graph[i];
        if let Some(c) = contained {
            node.contains_block = c;
        }
        if let Some(c) = conn {
            node.is_connected_to = c;
        }
        assert(lowered_ok(nodes[i as int], lowered.graph@[i as int], root@, v, leaves_of(walked.0), pruned, rest));
        i += 1;
    }
    LoweredCxf {
        doc: lowered,
        root_iri: Some(root),
        walk,
        synthesized_connections: moved,
        boundary_traversal_failed: false,
    }
}

impl LoweredCxf {
    /// Authored edges in `@graph` order, then the node-less derived sources' edges.
    pub fn connection_edges(&self) -> (r: Vec<(String, String)>)
        ensures
            r@.map_values(|e: (String, String)| (e.0@, e.1@)) == authored_edges(self.doc.graph@, self.doc.graph@.len())
                + pair_edges(pairs_view(self.synthesized_connections@), self.synthesized_connections@.len()),
    {
        let mut r: Vec<(String, String)> = Vec::new();
        let mut i: usize = 0;
        while i < self.doc.graph.len()
            invariant
                i <= self.doc.graph@.len(),
                r@.map_values(|e: (String, String)| (e.0@, e.1@)) == authored_edges(self.doc.graph@, i as nat),
            decreases self.doc.graph@.len() - i,
        {
            let node = &self.doc.graph[i];
            let targets = node.is_connected_to.as_slice();
            let ghost r0 = r@.map_values(|e: (String, String)| (e.0@, e.1@));
            let mut k: usize = 0;
            while k < targets.len()
                invariant
                    i < self.doc.graph@.len(),
                    *node == self.doc.graph@[i as int],
                    targets@ == self.doc.graph@[i as int].is_connected_to.items(),
                    k <= targets@.len(),
                    r@.map_values(|e: (String, String)| (e.0@, e.1@)) == r0 + edges_from(
                        self.doc.graph@[i as int].id@,
                        ref_ids(self.doc.graph@[i as int].is_connected_to).take(k as int),
                    ),
                decreases targets@.len() - k,
            {
                let ghost rk = r@.map_values(|e: (String, String)| (e.0@, e.1@));
                r.push((owned(node.id.as_str()), owned(targets[k].id.as_str())));
                proof {
                    let ts = ref_ids(self.doc.graph@[i as int].is_connected_to);
                    assert(ts.take(k + 1) =~= ts.take(k as int).push(targets@[k as int].id@));
                    assert(ts.take(k + 1).drop_last() =~= ts.take(k as int));
                    assert(edges_from(node.id@, ts.take(k + 1)) =~= edges_from(node.id@, ts.take(k as int)).push(
                        (node.id@, targets@[k as int].id@),
                    ));
                    assert(r@.map_values(|e: (String, String)| (e.0@, e.1@)) =~= rk.push((node.id@, targets@[k as int].id@)));
                    assert(rk.push((node.id@, targets@[k as int].id@)) =~= r0 + edges_from(node.id@, ts.take(k as int)).push(
                        (node.id@, targets@[k as int].id@),
                    ));
                }
                k += 1;
            }
            proof {
                let ts = ref_ids(self.doc.graph@[i as int].is_connected_to);
                assert(ts.take(targets@.len() as int) =~= ts);
            }
            i += 1;
        }
        let ghost ra = r@.map_values(|e: (String, String)| (e.0@, e.1@));
        let mut j: usize = 0;
        while j < self.synthesized_connections.len()
            invariant
                j <= self.synthesized_connections@.len(),
                r@.map_values(|e: (String, String)| (e.0@, e.1@)) == ra + pair_edges(
                    pairs_view(self.synthesized_connections@),
                    j as nat,
                ),
            decreases self.synthesized_connections@.len() - j,
        {
            let source = self.synthesized_connections[j].0.as_str();
            let targets = &self.synthesized_connections[j].1;
            let ghost rj = r@.map_values(|e: (String, String)| (e.0@, e.1@));
            let mut k: usize = 0;
            while k < targets.len()
                invariant
                    j < self.synthesized_connections@.len(),
                    source@ == self.synthesized_connections@[j as int].0@,
                    targets@ == self.synthesized_connections@[j as int].1@,
                    k <= targets@.len(),
                    r@.map_values(|e: (String, String)| (e.0@, e.1@)) == rj + edges_from(source@, names(targets@).take(k as int)),
                decreases targets@.len() - k,
            {
                let ghost rk = r@.map_values(|e: (String, String)| (e.0@, e.1@));
                r.push((owned(source), owned(targets[k].as_str())));
                proof {
                    assert(names(targets@).take(k + 1) =~= names(targets@).take(k as int).push(targets@[k as int]@));
                    assert(names(targets@).take(k + 1).drop_last() =~= names(targets@).take(k as int));
                    assert(edges_from(source@, names(targets@).take(k + 1)) =~= edges_from(
                        source@,
                        names(targets@).take(k as int),
                    ).push((source@, targets@[k as int]@)));
                    assert(r@.map_values(|e: (String, String)| (e.0@, e.1@)) =~= rk.push((source@, targets@[k as int]@)));
                    assert(rk.push((source@, targets@[k as int]@)) =~= rj + edges_from(source@, names(targets@).take(k as int)).push(
                        (source@, targets@[k as int]@),
                    ));
                }
                k += 1;
            }
            proof {
                assert(names(targets@).take(targets@.len() as int) =~= names(targets@));
                assert(pairs_view(self.synthesized_connections@)[j as int] == (source@, names(targets@)));
            }
            j += 1;
        }
        r
    }
}

/// The edges from `source` to each of `targets`, in order.
pub open spec fn edges_from(source: Seq<char>, targets: Seq<Seq<char>>) -> Seq<(Seq<char>, Seq<char>)>
    decreases targets.len(),
{
    if targets.len() == 0 {
        seq![]
    } else {
        edges_from(source, targets.drop_last()).push((source, targets.last()))
    }
}

/// The authored edges of the first `k` nodes, in `@graph` and then `isConnectedTo` order.
pub open spec fn authored_edges(nodes: Seq<Node>, k: nat) -> Seq<(Seq<char>, Seq<char>)>
    decreases k,
{
    if k == 0 || k > nodes.len() {
        seq![]
    } else {
        authored_edges(nodes, (k - 1) as nat) + edges_from(nodes[k - 1].id@, ref_ids(nodes[k - 1].is_connected_to))
    }
}

/// The edges of the first `k` source/targets pairs.
pub open spec fn pair_edges(p: Seq<(Seq<char>, Seq<Seq<char>>)>, k: nat) -> Seq<(Seq<char>, Seq<char>)>
    decreases k,
{
    if k == 0 || k > p.len() {
        seq![]
    } else {
        pair_edges(p, (k - 1) as nat) + edges_from(p[k - 1].0, p[k - 1].1)
    }
}

} // verus!
