//! Child-instance interface derivation from `hasInstance` (scalar ports only).
//!
//! A portless instance carrying a `hasInstance` list derives its interface from its class: each
//! member is classified by its local name alone — a declared input or output port name makes it
//! a port, a declared parameter name a parameter, anything else is refused. A class publishing no
//! port names is refused whole: its port count depends on a parameter. Members must be direct
//! members of their owner and not themselves block instances. A member without a node becomes a
//! synthesized connector; a declared output the list omits is padded with the identity
//! `<owner>.<port name>`. An instance whose list cannot be classified in full is skipped whole.
//!
//! The class facts (declared port names, port value types, parameter names) come from the block
//! registry; the caller looks them up and hands them in.
use vstd::prelude::*;
use crate::boundary_inputs::ref_ids;
use crate::composite::Finding;
use crate::composite_rules::{prefix_of, rule_code, rule_id, RuleKind};
use crate::declaration_plan::{first_named, lemma_first_named};
use crate::diag::{appends, is_finding, lemma_appends_none, lemma_appends_one, lemma_appends_trans, DiagCode, Diagnostic};
use crate::diag_order::{int_order, lemma_text_order_antisym, lemma_text_order_trans, text_order, text_order_exec};
use crate::dto::Node;
use crate::model::{BlockId, Dir, ValueType};
use crate::report::local_name;
use crate::specialize::{contains_str, names, Specialization};
use crate::strmap::StrMap;
use crate::text::{after_last_in, chars_of, owned, push_str, starts_with};

verus! {

/// The declared port names of a class, in signature order.
pub struct ClassPorts {
    pub inputs: Vec<String>,
    pub outputs: Vec<String>,
}

/// What the registry's catalog publishes for a class: its declared parameter names and the
/// value type of each declared port, in signature order.
pub struct ClassEntry {
    pub params: Vec<String>,
    pub input_types: Vec<ValueType>,
    pub output_types: Vec<ValueType>,
}

/// One synthesized connector: a listed member without a node, or a padded declared output.
pub struct SynthesizedConnector {
    /// The connector's durable IRI.
    pub identity: String,
    /// The deriving instance.
    pub owner: BlockId,
    /// Its direction, from the declared list its name appears in.
    pub dir: Dir,
    /// The declared port's value type.
    pub value_type: ValueType,
}

/// A derived instance's port identities in class-signature order.
pub struct DerivedInterface {
    pub inputs: Vec<String>,
    pub outputs: Vec<String>,
}

/// The document-wide outcome of interface derivation.
pub struct InstanceDerivation {
    /// Each derived instance's interface.
    pub interfaces: StrMap<DerivedInterface>,
    /// The instances derivation refused.
    pub skipped: Vec<String>,
    /// The synthesized connectors, in their ruled order.
    pub synthesized: Vec<SynthesizedConnector>,
    /// The declared value type of each node-bearing derived port member.
    pub member_value_fallback: StrMap<ValueType>,
    /// Each derived instance's node-bearing parameter members, in class-signature order.
    pub param_appendix: StrMap<Vec<String>>,
}

/// A synthesized connector as a specification value.
pub type SynthV = (Seq<char>, BlockId, Dir, ValueType);

/// A synthesized connector with its sort key: the owner's document position and the port's
/// position in the class signature's inputs followed by outputs.
pub type KeyedSynthV = ((int, int), SynthV);

/// The view of a keyed synthesized connector.
pub open spec fn keyed_view(k: ((usize, usize), SynthesizedConnector)) -> KeyedSynthV {
    ((k.0.0 as int, k.0.1 as int), (k.1.identity@, k.1.owner, k.1.dir, k.1.value_type))
}

/// The local member name of a dotted `@id`: what follows its last `.`.
pub open spec fn local_spec(iri: Seq<char>) -> Seq<char> {
    after_last_in(iri, seq!['.'])
}

/// A refusal under rule `k`.
pub open spec fn rule_finding(k: RuleKind, detail: Seq<char>, subject: Seq<char>) -> Finding {
    (rule_code(k), prefix_of(rule_id(k)) + detail, Some(subject))
}

fn rule_error(k: RuleKind, detail: &str, subject: &str) -> (d: Diagnostic)
    ensures
        is_finding(d, rule_finding(k, detail@, subject@)),
{
    let rule = k.rule();
    Diagnostic::error(rule.code, rule.message(detail)).with_subject(owned(subject))
}

fn cat3(a: &str, b: &str, c: &str) -> (r: String)
    ensures
        r@ == a@ + b@ + c@,
{
    let mut r = owned(a);
    push_str(&mut r, b);
    push_str(&mut r, c);
    r
}

fn cat5(a: &str, b: &str, c: &str, d: &str, e: &str) -> (r: String)
    ensures
        r@ == a@ + b@ + c@ + d@ + e@,
{
    let mut r = owned(a);
    push_str(&mut r, b);
    push_str(&mut r, c);
    push_str(&mut r, d);
    push_str(&mut r, e);
    r
}

// ---- member domain ----

/// `member` is a direct member of `owner`: the owner's `@id`, one `.`, one non-empty segment.
pub open spec fn direct_member(owner: Seq<char>, member: Seq<char>) -> bool {
    &&& member.len() > owner.len() + 1
    &&& member.take(owner.len() as int) == owner
    &&& member[owner.len() as int] == '.'
    &&& !member.skip(owner.len() + 1int).contains('.')
}

/// The refusal of a member outside its owner's domain: not a direct member, or itself a block
/// instance (a `containsBlock` referent, or a node carrying `containsBlock` or `hasInstance`).
pub open spec fn violation_v(
    owner: Seq<char>,
    member: Seq<char>,
    referents: Seq<Seq<char>>,
    carriers: Seq<Seq<char>>,
) -> Option<Finding> {
    if !direct_member(owner, member) {
        Some(
            rule_finding(
                RuleKind::UnsupportedInstanceMember,
                "member is not a direct member of `"@ + owner + "`"@,
                member,
            ),
        )
    } else if referents.contains(member) || carriers.contains(member) {
        Some(
            rule_finding(
                RuleKind::UnsupportedInstanceMember,
                "member `"@ + member + "` is itself a block instance"@,
                member,
            ),
        )
    } else {
        None
    }
}

fn is_direct_member(owner: &str, member: &str) -> (b: bool)
    ensures
        b == direct_member(owner@, member@),
{
    let oc = chars_of(owner);
    let mc = chars_of(member);
    let n = oc.len();
    if mc.len() <= n || mc.len() - n <= 1 {
        return false;
    }
    if !starts_with(mc.as_slice(), oc.as_slice()) {
        return false;
    }
    assert(member@.take(n as int) =~= owner@);
    if mc[n] != '.' {
        return false;
    }
    let mut i: usize = n + 1;
    while i < mc.len()
        invariant
            mc@ == member@,
            n == owner@.len(),
            member@.take(n as int) == owner@,
            member@[n as int] == '.',
            n + 1 <= i <= mc@.len(),
            forall|j: int| n + 1 <= j < i ==> mc@[j] != '.',
        decreases mc@.len() - i,
    {
        if mc[i] == '.' {
            proof {
                let rest = member@.skip(n + 1int);
                let j: int = i - (n + 1);
                assert(rest[j] == '.');
                assert(rest.contains('.'));
            }
            return false;
        }
        i += 1;
    }
    proof {
        let rest = member@.skip(n + 1int);
        if rest.contains('.') {
            let j = choose|j: int| 0 <= j < rest.len() && #[trigger] rest[j] == '.';
            assert(mc@[j + n + 1] == '.');
        }
    }
    true
}

/// Refuse a member outside its owner's domain.
pub fn member_domain_violation(owner: &str, member: &str, referents: &Vec<String>, carriers: &Vec<String>) -> (r: Option<
    Diagnostic,
>)
    ensures
        match violation_v(owner@, member@, names(referents@), names(carriers@)) {
            Some(f) => r matches Some(d) && is_finding(d, f),
            None => r is None,
        },
{
    if !is_direct_member(owner, member) {
        return Some(
            rule_error(
                RuleKind::UnsupportedInstanceMember,
                cat3("member is not a direct member of `", owner, "`").as_str(),
                member,
            ),
        );
    }
    if contains_str(referents, member) || contains_str(carriers, member) {
        return Some(
            rule_error(
                RuleKind::UnsupportedInstanceMember,
                cat3("member `", member, "` is itself a block instance").as_str(),
                member,
            ),
        );
    }
    None
}

/// The first `k` listed members split into those in the owner's domain and the refusals.
pub open spec fn members_v(
    owner: Seq<char>,
    ids: Seq<Seq<char>>,
    referents: Seq<Seq<char>>,
    carriers: Seq<Seq<char>>,
    k: nat,
) -> (Seq<Seq<char>>, Seq<Finding>)
    decreases k,
{
    if k == 0 || k > ids.len() {
        (seq![], seq![])
    } else {
        let (kept, f) = members_v(owner, ids, referents, carriers, (k - 1) as nat);
        match violation_v(owner, ids[k - 1], referents, carriers) {
            Some(x) => (kept, f.push(x)),
            None => (kept.push(ids[k - 1]), f),
        }
    }
}

// ---- classification ----

/// The classification of the kept members: the member filling each declared input and output
/// slot (the last listed wins), the parameter members in order, and the refusals.
pub struct SlotsV {
    pub inputs: Seq<Option<Seq<char>>>,
    pub outputs: Seq<Option<Seq<char>>>,
    pub params: Seq<Seq<char>>,
    pub findings: Seq<Finding>,
}

/// The index of the first occurrence of `x` in `s`, or -1.
pub open spec fn index_of(s: Seq<Seq<char>>, x: Seq<char>) -> int {
    first_named(s, x, s.len() as int)
}

/// Classify the first `k` kept members by local name: a declared input, then a declared output,
/// then a declared parameter; anything else is refused.
pub open spec fn classify_v(
    kept: Seq<Seq<char>>,
    inputs: Seq<Seq<char>>,
    outputs: Seq<Seq<char>>,
    params: Seq<Seq<char>>,
    class_path: Seq<char>,
    k: nat,
) -> SlotsV
    decreases k,
{
    if k == 0 || k > kept.len() {
        SlotsV {
            inputs: Seq::new(inputs.len(), |i: int| None::<Seq<char>>),
            outputs: Seq::new(outputs.len(), |i: int| None::<Seq<char>>),
            params: seq![],
            findings: seq![],
        }
    } else {
        let s = classify_v(kept, inputs, outputs, params, class_path, (k - 1) as nat);
        let m = kept[k - 1];
        let name = local_spec(m);
        let i = index_of(inputs, name);
        let j = index_of(outputs, name);
        if i >= 0 {
            SlotsV { inputs: s.inputs.update(i, Some(m)), ..s }
        } else if j >= 0 {
            SlotsV { outputs: s.outputs.update(j, Some(m)), ..s }
        } else if params.contains(name) {
            SlotsV { params: s.params.push(m), ..s }
        } else {
            SlotsV {
                findings: s.findings.push(
                    rule_finding(
                        RuleKind::UnsupportedInstanceMember,
                        "`"@ + name + "` is neither a declared port nor a declared parameter of `"@ + class_path + "`"@,
                        m,
                    ),
                ),
                ..s
            }
        }
    }
}

fn find_name(v: &Vec<String>, x: &str) -> (r: Option<usize>)
    ensures
        match r {
            Some(i) => i < v@.len() && i as int == index_of(names(v@), x@),
            None => index_of(names(v@), x@) == -1,
        },
{
    let ghost ns = names(v@);
    let mut i: usize = 0;
    while i < v.len()
        invariant
            ns == names(v@),
            i <= v@.len(),
            forall|j: int| 0 <= j < i ==> ns[j] != x@,
        decreases v@.len() - i,
    {
        if crate::port_binding::str_eq(v[i].as_str(), x) {
            proof {
                lemma_first_named(ns, x@, ns.len() as int);
                assert(ns[i as int] == x@);
            }
            return Some(i);
        }
        i += 1;
    }
    proof {
        lemma_first_named(ns, x@, ns.len() as int);
    }
    None
}

/// The exec form of the classification.
pub struct Slots {
    pub inputs: Vec<Option<String>>,
    pub outputs: Vec<Option<String>>,
    pub params: Vec<String>,
}

/// Optional strings as characters.
pub open spec fn opt_names(v: Seq<Option<String>>) -> Seq<Option<Seq<char>>> {
    v.map_values(|o: Option<String>| match o {
        Some(s) => Some(s@),
        None => None,
    })
}

fn none_slots(n: usize) -> (r: Vec<Option<String>>)
    ensures
        opt_names(r@) == Seq::new(n as nat, |i: int| None::<Seq<char>>),
{
    let mut r: Vec<Option<String>> = Vec::new();
    while r.len() < n
        invariant
            r@.len() <= n,
            forall|j: int| 0 <= j < r@.len() ==> (#[trigger] r@[j]) is None,
        decreases n - r@.len(),
    {
        r.push(None);
    }
    assert(opt_names(r@) =~= Seq::new(n as nat, |i: int| None::<Seq<char>>));
    r
}

fn classify(
    kept: &Vec<String>,
    ports: &ClassPorts,
    params: &Vec<String>,
    class_path: &str,
    diags: &mut Vec<Diagnostic>,
) -> (r: Slots)
    ensures
        ({
            let s = classify_v(names(kept@), names(ports.inputs@), names(ports.outputs@), names(params@), class_path@, kept@.len());
            &&& opt_names(r.inputs@) == s.inputs
            &&& opt_names(r.outputs@) == s.outputs
            &&& names(r.params@) == s.params
            &&& appends(old(diags)@, final(diags)@, s.findings)
        }),
{
    let ghost kv = names(kept@);
    let ghost iv = names(ports.inputs@);
    let ghost ov = names(ports.outputs@);
    let ghost pv = names(params@);
    let mut inputs = none_slots(ports.inputs.len());
    let mut outputs = none_slots(ports.outputs.len());
    let mut cparams: Vec<String> = Vec::new();
    proof {
        lemma_appends_none(diags@);
    }
    let mut k: usize = 0;
    while k < kept.len()
        invariant
            kv == names(kept@),
            iv == names(ports.inputs@),
            ov == names(ports.outputs@),
            pv == names(params@),
            k <= kept@.len(),
            ({
                let s = classify_v(kv, iv, ov, pv, class_path@, k as nat);
                &&& opt_names(inputs@) == s.inputs
                &&& opt_names(outputs@) == s.outputs
                &&& names(cparams@) == s.params
                &&& appends(old(diags)@, diags@, s.findings)
            }),
        decreases kept@.len() - k,
    {
        let m = kept[k].as_str();
        let name = local_name(m);
        assert(kv[k as int] == m@);
        let ghost s = classify_v(kv, iv, ov, pv, class_path@, k as nat);
        proof {
            lemma_classify_len(kv, iv, ov, pv, class_path@, k as nat);
        }
        match find_name(&ports.inputs, name) {
            Some(i) => {
                let ghost before = inputs@;
                inputs.set(i, Some(owned(m)));
                assert(opt_names(inputs@) =~= opt_names(before).update(i as int, Some(m@)));
            },
            None => match find_name(&ports.outputs, name) {
                Some(j) => {
                    let ghost before = outputs@;
                    outputs.set(j, Some(owned(m)));
                    assert(opt_names(outputs@) =~= opt_names(before).update(j as int, Some(m@)));
                },
                None => {
                    if contains_str(params, name) {
                        let ghost before = cparams@;
                        cparams.push(owned(m));
                        assert(names(cparams@) =~= names(before).push(m@));
                    } else {
                        let ghost dk = diags@;
                        let detail = cat5("`", name, "` is neither a declared port nor a declared parameter of `", class_path, "`");
                        let d = rule_error(RuleKind::UnsupportedInstanceMember, detail.as_str(), m);
                        let ghost f = rule_finding(RuleKind::UnsupportedInstanceMember, detail@, m@);
                        proof {
                            lemma_appends_one(diags@, d, f);
                            lemma_appends_trans(old(diags)@, dk, dk.push(d), s.findings, seq![f]);
                        }
                        diags.push(d);
                    }
                },
            },
        }
        k += 1;
    }
    Slots { inputs, outputs, params: cparams }
}

proof fn lemma_classify_len(
    kept: Seq<Seq<char>>,
    inputs: Seq<Seq<char>>,
    outputs: Seq<Seq<char>>,
    params: Seq<Seq<char>>,
    class_path: Seq<char>,
    k: nat,
)
    ensures
        classify_v(kept, inputs, outputs, params, class_path, k).inputs.len() == inputs.len(),
        classify_v(kept, inputs, outputs, params, class_path, k).outputs.len() == outputs.len(),
    decreases k,
{
    if k > 0 && k <= kept.len() {
        lemma_classify_len(kept, inputs, outputs, params, class_path, (k - 1) as nat);
        lemma_first_named(inputs, local_spec(kept[k - 1]), inputs.len() as int);
        lemma_first_named(outputs, local_spec(kept[k - 1]), outputs.len() as int);
    }
}


fn collect_members(
    owner: &str,
    node: &Node,
    referents: &Vec<String>,
    carriers: &Vec<String>,
    diags: &mut Vec<Diagnostic>,
) -> (r: Vec<String>)
    ensures
        ({
            let v = members_v(owner@, ref_ids(node.has_instance), names(referents@), names(carriers@), ref_ids(node.has_instance).len());
            &&& names(r@) == v.0
            &&& appends(old(diags)@, final(diags)@, v.1)
        }),
{
    let refs = node.has_instance.as_slice();
    let ghost ids = ref_ids(node.has_instance);
    let mut kept: Vec<String> = Vec::new();
    proof {
        lemma_appends_none(diags@);
    }
    let mut k: usize = 0;
    while k < refs.len()
        invariant
            refs@ == node.has_instance.items(),
            ids == ref_ids(node.has_instance),
            k <= refs@.len(),
            ({
                let v = members_v(owner@, ids, names(referents@), names(carriers@), k as nat);
                &&& names(kept@) == v.0
                &&& appends(old(diags)@, diags@, v.1)
            }),
        decreases refs@.len() - k,
    {
        let member = refs[k].id.as_str();
        assert(ids[k as int] == member@);
        let ghost prev = members_v(owner@, ids, names(referents@), names(carriers@), k as nat);
        let ghost dk = diags@;
        match member_domain_violation(owner, member, referents, carriers) {
            Some(d) => {
                let ghost f = violation_v(owner@, member@, names(referents@), names(carriers@))->0;
                proof {
                    lemma_appends_one(diags@, d, f);
                    lemma_appends_trans(old(diags)@, dk, dk.push(d), prev.1, seq![f]);
                }
                diags.push(d);
            },
            None => {
                let ghost k0 = kept@;
                kept.push(owned(member));
                assert(names(kept@) =~= names(k0).push(member@));
            },
        }
        k += 1;
    }
    kept
}

// ---- identity uniqueness ----

/// The number of times `x` occurs among the first `k` of `s`.
pub open spec fn count_of(s: Seq<Seq<char>>, x: Seq<char>, k: nat) -> nat
    decreases k,
{
    if k == 0 || k > s.len() {
        0
    } else {
        count_of(s, x, (k - 1) as nat) + if s[k - 1] == x {
            1nat
        } else {
            0nat
        }
    }
}

/// `m`'s local name is a declared port name.
pub open spec fn port_named(inputs: Seq<Seq<char>>, outputs: Seq<Seq<char>>, m: Seq<char>) -> bool {
    inputs.contains(local_spec(m)) || outputs.contains(local_spec(m))
}

/// Scan the first `k` kept members: a node-less port member listed more than once mints one
/// identity twice, refused once.
pub open spec fn twice_v(
    kept: Seq<Seq<char>>,
    inputs: Seq<Seq<char>>,
    outputs: Seq<Seq<char>>,
    node_ids: Seq<Seq<char>>,
    owner: Seq<char>,
    k: nat,
) -> (Seq<Seq<char>>, Seq<Finding>)
    decreases k,
{
    if k == 0 || k > kept.len() {
        (seq![], seq![])
    } else {
        let (reported, f) = twice_v(kept, inputs, outputs, node_ids, owner, (k - 1) as nat);
        let m = kept[k - 1];
        if port_named(inputs, outputs, m) && count_of(kept, m, kept.len()) > 1 && !node_ids.contains(m)
            && !reported.contains(m) {
            (
                reported.push(m),
                f.push(
                    rule_finding(
                        RuleKind::CollidingMemberIdentity,
                        "connector identity `"@ + m + "` is minted twice by `"@ + owner + "`"@,
                        m,
                    ),
                ),
            )
        } else {
            (reported, f)
        }
    }
}

fn count_in(v: &Vec<String>, x: &str) -> (n: usize)
    ensures
        n == count_of(names(v@), x@, v@.len()),
{
    let ghost ns = names(v@);
    let mut n: usize = 0;
    let mut i: usize = 0;
    while i < v.len()
        invariant
            ns == names(v@),
            i <= v@.len(),
            n == count_of(ns, x@, i as nat),
            n <= i,
        decreases v@.len() - i,
    {
        if crate::port_binding::str_eq(v[i].as_str(), x) {
            n += 1;
        }
        i += 1;
    }
    n
}

fn report_twice(
    kept: &Vec<String>,
    ports: &ClassPorts,
    node_ids: &Vec<String>,
    owner: &str,
    diags: &mut Vec<Diagnostic>,
)
    ensures
        appends(
            old(diags)@,
            final(diags)@,
            twice_v(names(kept@), names(ports.inputs@), names(ports.outputs@), names(node_ids@), owner@, kept@.len()).1,
        ),
{
    let ghost kv = names(kept@);
    let ghost iv = names(ports.inputs@);
    let ghost ov = names(ports.outputs@);
    let mut reported: Vec<String> = Vec::new();
    proof {
        lemma_appends_none(diags@);
    }
    let mut k: usize = 0;
    while k < kept.len()
        invariant
            kv == names(kept@),
            iv == names(ports.inputs@),
            ov == names(ports.outputs@),
            k <= kept@.len(),
            ({
                let v = twice_v(kv, iv, ov, names(node_ids@), owner@, k as nat);
                &&& names(reported@) == v.0
                &&& appends(old(diags)@, diags@, v.1)
            }),
        decreases kept@.len() - k,
    {
        let m = kept[k].as_str();
        assert(kv[k as int] == m@);
        let ghost prev = twice_v(kv, iv, ov, names(node_ids@), owner@, k as nat);
        let ghost dk = diags@;
        let name = local_name(m);
        if (contains_str(&ports.inputs, name) || contains_str(&ports.outputs, name)) && count_in(kept, m) > 1
            && !contains_str(node_ids, m) && !contains_str(&reported, m) {
            let detail = cat5("connector identity `", m, "` is minted twice by `", owner, "`");
            let d = rule_error(RuleKind::CollidingMemberIdentity, detail.as_str(), m);
            let ghost f = rule_finding(RuleKind::CollidingMemberIdentity, detail@, m@);
            proof {
                lemma_appends_one(diags@, d, f);
                lemma_appends_trans(old(diags)@, dk, dk.push(d), prev.1, seq![f]);
            }
            diags.push(d);
            let ghost r0 = reported@;
            reported.push(owned(m));
            assert(names(reported@) =~= names(r0).push(m@));
        }
        k += 1;
    }
}

/// The local names a node declares under `hasParameter` then `hasConstant`.
pub open spec fn authored_param_names(node: Node) -> Seq<Seq<char>> {
    (ref_ids(node.has_parameter) + ref_ids(node.has_constant)).map_values(|x: Seq<char>| local_spec(x))
}

/// Scan the first `k` parameter members: a repeat is refused, and so is a name the node also
/// declares under `hasParameter` or `hasConstant`.
pub open spec fn param_checks_v(params: Seq<Seq<char>>, authored: Seq<Seq<char>>, owner: Seq<char>, k: nat) -> (
    Seq<Seq<char>>,
    Seq<Finding>,
)
    decreases k,
{
    if k == 0 || k > params.len() {
        (seq![], seq![])
    } else {
        let (seen, f) = param_checks_v(params, authored, owner, (k - 1) as nat);
        let m = params[k - 1];
        let name = local_spec(m);
        if seen.contains(m) {
            (
                seen,
                f.push(
                    rule_finding(
                        RuleKind::CollidingMemberIdentity,
                        "parameter `"@ + name + "` is declared twice by `"@ + owner + "`"@,
                        m,
                    ),
                ),
            )
        } else if authored.contains(name) {
            (
                seen.push(m),
                f.push(
                    rule_finding(
                        RuleKind::CollidingMemberIdentity,
                        "parameter `"@ + name + "` is declared by both `hasParameter` and `hasInstance` on `"@ + owner
                            + "`"@,
                        m,
                    ),
                ),
            )
        } else {
            (seen.push(m), f)
        }
    }
}

fn authored_names(node: &Node) -> (r: Vec<String>)
    ensures
        names(r@) == authored_param_names(*node),
{
    let a = node.has_parameter.as_slice();
    let b = node.has_constant.as_slice();
    let ghost all = ref_ids(node.has_parameter) + ref_ids(node.has_constant);
    let mut r: Vec<String> = Vec::new();
    let mut i: usize = 0;
    while i < a.len()
        invariant
            a@ == node.has_parameter.items(),
            all == ref_ids(node.has_parameter) + ref_ids(node.has_constant),
            i <= a@.len(),
            names(r@) == all.take(i as int).map_values(|x: Seq<char>| local_spec(x)),
        decreases a@.len() - i,
    {
        let ghost r0 = r@;
        r.push(owned(local_name(a[i].id.as_str())));
        assert(ref_ids(node.has_parameter)[i as int] == a@[i as int].id@);
        assert(all[i as int] == a@[i as int].id@);
        assert(names(r@) =~= names(r0).push(local_spec(all[i as int])));
        assert(all.take(i + 1).map_values(|x: Seq<char>| local_spec(x)) =~= all.take(i as int).map_values(
            |x: Seq<char>| local_spec(x),
        ).push(local_spec(all[i as int])));
        i += 1;
    }
    let mut j: usize = 0;
    while j < b.len()
        invariant
            a@ == node.has_parameter.items(),
            b@ == node.has_constant.items(),
            all == ref_ids(node.has_parameter) + ref_ids(node.has_constant),
            j <= b@.len(),
            names(r@) == all.take(a@.len() + j).map_values(|x: Seq<char>| local_spec(x)),
        decreases b@.len() - j,
    {
        let ghost r0 = r@;
        r.push(owned(local_name(b[j].id.as_str())));
        assert(ref_ids(node.has_constant)[j as int] == b@[j as int].id@);
        assert(ref_ids(node.has_parameter).len() == a@.len());
        assert(all[a@.len() + j] == b@[j as int].id@);
        assert(names(r@) =~= names(r0).push(local_spec(all[a@.len() + j])));
        assert(all.take(a@.len() + j + 1).map_values(|x: Seq<char>| local_spec(x)) =~= all.take(a@.len() + j).map_values(
            |x: Seq<char>| local_spec(x),
        ).push(local_spec(all[a@.len() + j])));
        j += 1;
    }
    assert(all.take(a@.len() + j) =~= all);
    r
}

fn check_param_members(params: &Vec<String>, node: &Node, owner: &str, diags: &mut Vec<Diagnostic>)
    ensures
        appends(
            old(diags)@,
            final(diags)@,
            param_checks_v(names(params@), authored_param_names(*node), owner@, params@.len()).1,
        ),
{
    let authored = authored_names(node);
    let ghost pv = names(params@);
    let mut seen: Vec<String> = Vec::new();
    proof {
        lemma_appends_none(diags@);
    }
    let mut k: usize = 0;
    while k < params.len()
        invariant
            pv == names(params@),
            names(authored@) == authored_param_names(*node),
            k <= params@.len(),
            ({
                let v = param_checks_v(pv, authored_param_names(*node), owner@, k as nat);
                &&& names(seen@) == v.0
                &&& appends(old(diags)@, diags@, v.1)
            }),
        decreases params@.len() - k,
    {
        let m = params[k].as_str();
        assert(pv[k as int] == m@);
        let name = local_name(m);
        let ghost prev = param_checks_v(pv, authored_param_names(*node), owner@, k as nat);
        let ghost dk = diags@;
        if contains_str(&seen, m) {
            let detail = cat5("parameter `", name, "` is declared twice by `", owner, "`");
            let d = rule_error(RuleKind::CollidingMemberIdentity, detail.as_str(), m);
            let ghost f = rule_finding(RuleKind::CollidingMemberIdentity, detail@, m@);
            proof {
                lemma_appends_one(diags@, d, f);
                lemma_appends_trans(old(diags)@, dk, dk.push(d), prev.1, seq![f]);
            }
            diags.push(d);
        } else {
            if contains_str(&authored, name) {
                let detail = cat5("parameter `", name, "` is declared by both `hasParameter` and `hasInstance` on `", owner, "`");
                let d = rule_error(RuleKind::CollidingMemberIdentity, detail.as_str(), m);
                let ghost f = rule_finding(RuleKind::CollidingMemberIdentity, detail@, m@);
                proof {
                    lemma_appends_one(diags@, d, f);
                    lemma_appends_trans(old(diags)@, dk, dk.push(d), prev.1, seq![f]);
                }
                diags.push(d);
            }
            let ghost s0 = seen@;
            seen.push(owned(m));
            assert(names(seen@) =~= names(s0).push(m@));
        }
        k += 1;
    }
}


// ---- padded outputs ----

/// Scan the first `k` declared outputs: each one the list omits is padded with the identity
/// `<owner>.<name>`, unless that identity is already a document node or already minted (both
/// refused).
pub open spec fn padded_v(
    slots: Seq<Option<Seq<char>>>,
    outputs: Seq<Seq<char>>,
    owner: Seq<char>,
    node_ids: Seq<Seq<char>>,
    minted: Seq<Seq<char>>,
    k: nat,
) -> (Seq<(int, Seq<char>)>, Seq<Finding>)
    decreases k,
{
    if k == 0 || k > outputs.len() {
        (seq![], seq![])
    } else {
        let (p, f) = padded_v(slots, outputs, owner, node_ids, minted, (k - 1) as nat);
        let j = k - 1;
        let identity = owner + "."@ + outputs[j];
        if slots[j] is Some {
            (p, f)
        } else if node_ids.contains(identity) {
            (
                p,
                f.push(
                    rule_finding(
                        RuleKind::CollidingMemberIdentity,
                        "synthesized connector identity `"@ + identity + "` is already an `@graph` node"@,
                        identity,
                    ),
                ),
            )
        } else if minted.contains(identity) {
            (
                p,
                f.push(
                    rule_finding(
                        RuleKind::CollidingMemberIdentity,
                        "connector identity `"@ + identity + "` is minted twice by `"@ + owner + "`"@,
                        identity,
                    ),
                ),
            )
        } else {
            (p.push((j, identity)), f)
        }
    }
}

/// Padded identities as specification values.
pub open spec fn padded_view(p: Seq<(usize, String)>) -> Seq<(int, Seq<char>)> {
    p.map_values(|x: (usize, String)| (x.0 as int, x.1@))
}

fn padded_outputs(
    slots: &Vec<Option<String>>,
    ports: &ClassPorts,
    owner: &str,
    node_ids: &Vec<String>,
    minted: &Vec<String>,
    diags: &mut Vec<Diagnostic>,
) -> (r: Vec<(usize, String)>)
    requires
        slots@.len() == ports.outputs@.len(),
    ensures
        ({
            let v = padded_v(opt_names(slots@), names(ports.outputs@), owner@, names(node_ids@), names(minted@), ports.outputs@.len());
            &&& padded_view(r@) == v.0
            &&& appends(old(diags)@, final(diags)@, v.1)
        }),
{
    let ghost sv = opt_names(slots@);
    let ghost ov = names(ports.outputs@);
    let mut padded: Vec<(usize, String)> = Vec::new();
    proof {
        lemma_appends_none(diags@);
    }
    let mut j: usize = 0;
    while j < ports.outputs.len()
        invariant
            sv == opt_names(slots@),
            ov == names(ports.outputs@),
            slots@.len() == ports.outputs@.len(),
            j <= ports.outputs@.len(),
            ({
                let v = padded_v(sv, ov, owner@, names(node_ids@), names(minted@), j as nat);
                &&& padded_view(padded@) == v.0
                &&& appends(old(diags)@, diags@, v.1)
            }),
        decreases ports.outputs@.len() - j,
    {
        let ghost prev = padded_v(sv, ov, owner@, names(node_ids@), names(minted@), j as nat);
        let ghost dk = diags@;
        assert(ov[j as int] == ports.outputs@[j as int]@);
        if slots[j].is_none() {
            let identity = cat3(owner, ".", ports.outputs[j].as_str());
            if contains_str(node_ids, identity.as_str()) {
                let detail = cat3("synthesized connector identity `", identity.as_str(), "` is already an `@graph` node");
                let d = rule_error(RuleKind::CollidingMemberIdentity, detail.as_str(), identity.as_str());
                let ghost f = rule_finding(RuleKind::CollidingMemberIdentity, detail@, identity@);
                proof {
                    lemma_appends_one(diags@, d, f);
                    lemma_appends_trans(old(diags)@, dk, dk.push(d), prev.1, seq![f]);
                }
                diags.push(d);
            } else if contains_str(minted, identity.as_str()) {
                let detail = cat5("connector identity `", identity.as_str(), "` is minted twice by `", owner, "`");
                let d = rule_error(RuleKind::CollidingMemberIdentity, detail.as_str(), identity.as_str());
                let ghost f = rule_finding(RuleKind::CollidingMemberIdentity, detail@, identity@);
                proof {
                    lemma_appends_one(diags@, d, f);
                    lemma_appends_trans(old(diags)@, dk, dk.push(d), prev.1, seq![f]);
                }
                diags.push(d);
            } else {
                let ghost p0 = padded@;
                padded.push((j, identity));
                assert(padded_view(padded@) =~= padded_view(p0).push((j as int, owner@ + "."@ + ov[j as int])));
            }
        }
        j += 1;
    }
    padded
}

// ---- parameters without a node ----

/// A parameter member without a node has no value to ground: each is refused, in order.
pub open spec fn grounding_v(params: Seq<Seq<char>>, node_ids: Seq<Seq<char>>, k: nat) -> Seq<Finding>
    decreases k,
{
    if k == 0 || k > params.len() {
        seq![]
    } else {
        grounding_v(params, node_ids, (k - 1) as nat) + if node_ids.contains(params[k - 1]) {
            seq![]
        } else {
            seq![(DiagCode::GroundingFailed, "parameter has no value (Ground mode)"@, Some(params[k - 1]))]
        }
    }
}

fn refuse_nodeless_params(params: &Vec<String>, node_ids: &Vec<String>, diags: &mut Vec<Diagnostic>)
    ensures
        appends(old(diags)@, final(diags)@, grounding_v(names(params@), names(node_ids@), params@.len())),
{
    let ghost pv = names(params@);
    proof {
        lemma_appends_none(diags@);
    }
    let mut k: usize = 0;
    while k < params.len()
        invariant
            pv == names(params@),
            k <= params@.len(),
            appends(old(diags)@, diags@, grounding_v(pv, names(node_ids@), k as nat)),
        decreases params@.len() - k,
    {
        let m = params[k].as_str();
        assert(pv[k as int] == m@);
        let ghost prev = grounding_v(pv, names(node_ids@), k as nat);
        let ghost dk = diags@;
        if !contains_str(node_ids, m) {
            let d = Diagnostic::error(DiagCode::GroundingFailed, owned("parameter has no value (Ground mode)")).with_subject(
                owned(m),
            );
            let ghost f: Finding = (DiagCode::GroundingFailed, "parameter has no value (Ground mode)"@, Some(m@));
            proof {
                lemma_appends_one(diags@, d, f);
                lemma_appends_trans(old(diags)@, dk, dk.push(d), prev, seq![f]);
            }
            diags.push(d);
        } else {
            proof {
                lemma_appends_none(diags@);
                lemma_appends_trans(old(diags)@, dk, dk, prev, seq![]);
            }
        }
        k += 1;
    }
}


// ---- the derived interface ----

/// What building a derived interface adds: the interface's identities in signature order, the
/// declared type of each node-bearing member, the identities minted, and the synthesized
/// connectors.
pub struct BuildV {
    pub iface: Seq<Seq<char>>,
    pub fallback: Seq<(Seq<char>, ValueType)>,
    pub mint: Seq<Seq<char>>,
    pub synth: Seq<KeyedSynthV>,
}

/// Nothing built yet.
pub open spec fn empty_build() -> BuildV {
    BuildV { iface: seq![], fallback: seq![], mint: seq![], synth: seq![] }
}

/// One listed port member: an inactive one derives nothing; an active one joins the interface,
/// its declared type becoming its fallback when it has a node, or it is minted and synthesized
/// when it has none.
pub open spec fn port_step(
    b: BuildV,
    m: Seq<char>,
    kind: ValueType,
    node_ids: Seq<Seq<char>>,
    pruned: Seq<Seq<char>>,
    key: (int, int),
    block: BlockId,
    dir: Dir,
) -> BuildV {
    if pruned.contains(m) {
        b
    } else if node_ids.contains(m) {
        BuildV { iface: b.iface.push(m), fallback: b.fallback.push((m, kind)), ..b }
    } else {
        BuildV { iface: b.iface.push(m), mint: b.mint.push(m), synth: b.synth.push((key, (m, block, dir, kind))), ..b }
    }
}

/// The first `k` declared inputs, in signature order; an unlisted input leaves the interface
/// short.
pub open spec fn inputs_v(
    slots: Seq<Option<Seq<char>>>,
    types: Seq<ValueType>,
    node_ids: Seq<Seq<char>>,
    pruned: Seq<Seq<char>>,
    owner_pos: int,
    block: BlockId,
    k: nat,
) -> BuildV
    decreases k,
{
    if k == 0 || k > slots.len() {
        empty_build()
    } else {
        let b = inputs_v(slots, types, node_ids, pruned, owner_pos, block, (k - 1) as nat);
        match slots[k - 1] {
            Some(m) => port_step(b, m, types[k - 1], node_ids, pruned, (owner_pos, k - 1), block, Dir::In),
            None => b,
        }
    }
}

/// The padded identity of output slot `j`, if any.
pub open spec fn padded_at(padded: Seq<(int, Seq<char>)>, j: int) -> Option<Seq<char>>
    decreases padded.len(),
{
    if padded.len() == 0 {
        None
    } else {
        match padded_at(padded.drop_last(), j) {
            Some(x) => Some(x),
            None => if padded.last().0 == j {
                Some(padded.last().1)
            } else {
                None
            },
        }
    }
}

/// The first `k` declared outputs, in signature order, keyed after the `n_inputs` inputs; an
/// unlisted output takes its padded identity.
pub open spec fn outputs_v(
    slots: Seq<Option<Seq<char>>>,
    types: Seq<ValueType>,
    padded: Seq<(int, Seq<char>)>,
    n_inputs: int,
    node_ids: Seq<Seq<char>>,
    pruned: Seq<Seq<char>>,
    owner_pos: int,
    block: BlockId,
    k: nat,
) -> BuildV
    decreases k,
{
    if k == 0 || k > slots.len() {
        empty_build()
    } else {
        let b = outputs_v(slots, types, padded, n_inputs, node_ids, pruned, owner_pos, block, (k - 1) as nat);
        let key = (owner_pos, n_inputs + k - 1);
        match slots[k - 1] {
            Some(m) => port_step(b, m, types[k - 1], node_ids, pruned, key, block, Dir::Out),
            None => match padded_at(padded, k - 1) {
                Some(id) => BuildV {
                    iface: b.iface.push(id),
                    mint: b.mint.push(id),
                    synth: b.synth.push((key, (id, block, Dir::Out, types[k - 1]))),
                    ..b
                },
                None => b,
            },
        }
    }
}

/// The value `x` has after the inserts `ups`, starting from `old`.
pub open spec fn updated_at<V>(old: Option<V>, ups: Seq<(Seq<char>, V)>, x: Seq<char>) -> Option<V>
    decreases ups.len(),
{
    if ups.len() == 0 {
        old
    } else if ups.last().0 == x {
        Some(ups.last().1)
    } else {
        updated_at(old, ups.drop_last(), x)
    }
}

/// Keyed synthesized connectors as specification values.
pub open spec fn synth_view(v: Seq<((usize, usize), SynthesizedConnector)>) -> Seq<KeyedSynthV> {
    v.map_values(|k: ((usize, usize), SynthesizedConnector)| keyed_view(k))
}

/// The mutable state one port adds to.
pub struct PortSinks {
    pub iface: Vec<String>,
    pub fallback: StrMap<ValueType>,
    pub minted: Vec<String>,
    pub synth: Vec<((usize, usize), SynthesizedConnector)>,
}

/// `now` is `before` with `b` added.
pub open spec fn sinks_add(before: PortSinks, now: PortSinks, b: BuildV) -> bool {
    &&& names(now.iface@) == names(before.iface@) + b.iface
    &&& forall|x: Seq<char>| #[trigger] now.fallback.at(x) == updated_at(before.fallback.at(x), b.fallback, x)
    &&& names(now.minted@) == names(before.minted@) + b.mint
    &&& synth_view(now.synth@) == synth_view(before.synth@) + b.synth
}

fn add_port(
    sinks: &mut PortSinks,
    m: &str,
    kind: ValueType,
    node_ids: &Vec<String>,
    sp: &Specialization,
    key: (usize, usize),
    block: BlockId,
    dir: Dir,
    Ghost(before): Ghost<PortSinks>,
    Ghost(b): Ghost<BuildV>,
)
    requires
        sinks_add(before, *old(sinks), b),
    ensures
        sinks_add(
            before,
            *final(sinks),
            port_step(b, m@, kind, names(node_ids@), sp.pruned(), (key.0 as int, key.1 as int), block, dir),
        ),
{
    if sp.is_inactive(m) {
        return;
    }
    let ghost s0 = *sinks;
    let ghost b2 = port_step(b, m@, kind, names(node_ids@), sp.pruned(), (key.0 as int, key.1 as int), block, dir);
    sinks.iface.push(owned(m));
    assert(names(sinks.iface@) =~= names(s0.iface@).push(m@));
    if contains_str(node_ids, m) {
        sinks.fallback.insert(m, kind);
        proof {
            assert forall|x: Seq<char>| #[trigger] sinks.fallback.at(x) == updated_at(before.fallback.at(x), b2.fallback, x) by {
                assert(b2.fallback.drop_last() =~= b.fallback);
                assert(s0.fallback.at(x) == updated_at(before.fallback.at(x), b.fallback, x));
            }
        }
    } else {
        sinks.minted.push(owned(m));
        sinks.synth.push((key, SynthesizedConnector { identity: owned(m), owner: block, dir, value_type: kind }));
        assert(names(sinks.minted@) =~= names(s0.minted@).push(m@));
        assert(synth_view(sinks.synth@) =~= synth_view(s0.synth@).push(((key.0 as int, key.1 as int), (m@, block, dir, kind))));
    }
}


proof fn lemma_sinks_none(s: PortSinks)
    ensures
        sinks_add(s, s, empty_build()),
{
    assert(names(s.iface@) =~= names(s.iface@) + seq![]);
    assert(names(s.minted@) =~= names(s.minted@) + seq![]);
    assert(synth_view(s.synth@) =~= synth_view(s.synth@) + seq![]);
}

fn build_inputs(
    sinks: &mut PortSinks,
    slots: &Vec<Option<String>>,
    types: &Vec<ValueType>,
    node_ids: &Vec<String>,
    sp: &Specialization,
    owner_pos: usize,
    block: BlockId,
)
    requires
        types@.len() >= slots@.len(),
    ensures
        sinks_add(
            *old(sinks),
            *final(sinks),
            inputs_v(opt_names(slots@), types@, names(node_ids@), sp.pruned(), owner_pos as int, block, slots@.len()),
        ),
{
    let ghost s0 = *sinks;
    let ghost sv = opt_names(slots@);
    proof {
        lemma_sinks_none(s0);
    }
    let mut i: usize = 0;
    while i < slots.len()
        invariant
            sv == opt_names(slots@),
            types@.len() >= slots@.len(),
            i <= slots@.len(),
            sinks_add(s0, *sinks, inputs_v(sv, types@, names(node_ids@), sp.pruned(), owner_pos as int, block, i as nat)),
        decreases slots@.len() - i,
    {
        let ghost b = inputs_v(sv, types@, names(node_ids@), sp.pruned(), owner_pos as int, block, i as nat);
        match &slots[i] {
            Some(m) => {
                add_port(sinks, m.as_str(), types[i], node_ids, sp, (owner_pos, i), block, Dir::In, Ghost(s0), Ghost(b));
            },
            None => {},
        }
        i += 1;
    }
}

fn find_padded(padded: &Vec<(usize, String)>, j: usize) -> (r: Option<&String>)
    ensures
        match r {
            Some(s) => padded_at(padded_view(padded@), j as int) == Some(s@),
            None => padded_at(padded_view(padded@), j as int) is None,
        },
{
    let ghost pv = padded_view(padded@);
    let mut k: usize = 0;
    while k < padded.len()
        invariant
            pv == padded_view(padded@),
            k <= padded@.len(),
            padded_at(pv.take(k as int), j as int) is None,
        decreases padded@.len() - k,
    {
        assert(pv.take(k + 1).drop_last() =~= pv.take(k as int));
        if padded[k].0 == j {
            proof {
                lemma_padded_at_prefix(pv, k + 1, j as int);
            }
            return Some(&padded[k].1);
        }
        k += 1;
    }
    assert(pv.take(k as int) =~= pv);
    None
}

proof fn lemma_padded_at_prefix(p: Seq<(int, Seq<char>)>, m: int, j: int)
    requires
        0 <= m <= p.len(),
        padded_at(p.take(m), j) is Some,
    ensures
        padded_at(p, j) == padded_at(p.take(m), j),
    decreases p.len() - m,
{
    if m < p.len() {
        assert(p.drop_last().take(m) =~= p.take(m));
        lemma_padded_at_prefix(p.drop_last(), m, j);
    } else {
        assert(p.take(m) =~= p);
    }
}

fn build_outputs(
    sinks: &mut PortSinks,
    slots: &Vec<Option<String>>,
    types: &Vec<ValueType>,
    padded: &Vec<(usize, String)>,
    n_inputs: usize,
    node_ids: &Vec<String>,
    sp: &Specialization,
    owner_pos: usize,
    block: BlockId,
)
    requires
        types@.len() >= slots@.len(),
        n_inputs + slots@.len() <= usize::MAX,
    ensures
        sinks_add(
            *old(sinks),
            *final(sinks),
            outputs_v(
                opt_names(slots@),
                types@,
                padded_view(padded@),
                n_inputs as int,
                names(node_ids@),
                sp.pruned(),
                owner_pos as int,
                block,
                slots@.len(),
            ),
        ),
{
    let ghost s0 = *sinks;
    let ghost sv = opt_names(slots@);
    let ghost pv = padded_view(padded@);
    proof {
        lemma_sinks_none(s0);
    }
    let mut j: usize = 0;
    while j < slots.len()
        invariant
            sv == opt_names(slots@),
            pv == padded_view(padded@),
            types@.len() >= slots@.len(),
            n_inputs + slots@.len() <= usize::MAX,
            j <= slots@.len(),
            sinks_add(
                s0,
                *sinks,
                outputs_v(sv, types@, pv, n_inputs as int, names(node_ids@), sp.pruned(), owner_pos as int, block, j as nat),
            ),
        decreases slots@.len() - j,
    {
        let ghost b = outputs_v(sv, types@, pv, n_inputs as int, names(node_ids@), sp.pruned(), owner_pos as int, block, j as nat);
        let key = (owner_pos, n_inputs + j);
        let kind = types[j];
        match &slots[j] {
            Some(m) => {
                add_port(sinks, m.as_str(), kind, node_ids, sp, key, block, Dir::Out, Ghost(s0), Ghost(b));
            },
            None => match find_padded(padded, j) {
                Some(identity) => {
                    let ghost s1 = *sinks;
                    sinks.iface.push(owned(identity.as_str()));
                    sinks.minted.push(owned(identity.as_str()));
                    sinks.synth.push(
                        (key, SynthesizedConnector { identity: owned(identity.as_str()), owner: block, dir: Dir::Out, value_type: kind }),
                    );
                    proof {
                        assert(names(sinks.iface@) =~= names(s1.iface@).push(identity@));
                        assert(names(sinks.minted@) =~= names(s1.minted@).push(identity@));
                        assert(synth_view(sinks.synth@) =~= synth_view(s1.synth@).push(
                            ((owner_pos as int, n_inputs + j), (identity@, block, Dir::Out, kind)),
                        ));
                    }
                },
                None => {},
            },
        }
        j += 1;
    }
}


// ---- the parameter appendix ----

/// The parameter members that have a node, among the first `k`, in order.
pub open spec fn bearing_v(params: Seq<Seq<char>>, node_ids: Seq<Seq<char>>, k: nat) -> Seq<Seq<char>>
    decreases k,
{
    if k == 0 || k > params.len() {
        seq![]
    } else {
        bearing_v(params, node_ids, (k - 1) as nat) + if node_ids.contains(params[k - 1]) {
            seq![params[k - 1]]
        } else {
            seq![]
        }
    }
}

/// A member's position in the class signature's parameters (`usize::MAX` when absent).
pub open spec fn param_pos(declared: Seq<Seq<char>>, m: Seq<char>) -> int {
    let i = index_of(declared, local_spec(m));
    if i >= 0 {
        i
    } else {
        usize::MAX as int
    }
}

/// The appendix order: by signature position, then by local name.
pub open spec fn appendix_order(declared: Seq<Seq<char>>, a: Seq<char>, b: Seq<char>) -> int {
    let c = int_order(param_pos(declared, a), param_pos(declared, b));
    if c != 0 {
        c
    } else {
        text_order(local_spec(a), local_spec(b))
    }
}

/// `v` is in appendix order.
pub open spec fn appendix_sorted(declared: Seq<Seq<char>>, v: Seq<Seq<char>>) -> bool {
    forall|i: int, j: int| 0 <= i < j < v.len() ==> appendix_order(declared, #[trigger] v[i], #[trigger] v[j]) <= 0
}

proof fn lemma_appendix_order(declared: Seq<Seq<char>>, a: Seq<char>, b: Seq<char>, c: Seq<char>)
    ensures
        appendix_order(declared, a, b) == -appendix_order(declared, b, a),
        appendix_order(declared, a, b) <= 0 && appendix_order(declared, b, c) <= 0 ==> appendix_order(declared, a, c) <= 0,
{
    lemma_text_order_antisym(local_spec(a), local_spec(b));
    lemma_text_order_antisym(local_spec(b), local_spec(c));
    lemma_text_order_antisym(local_spec(a), local_spec(c));
    if appendix_order(declared, a, b) <= 0 && appendix_order(declared, b, c) <= 0 {
        if param_pos(declared, a) == param_pos(declared, b) && param_pos(declared, b) == param_pos(declared, c) {
            lemma_text_order_trans(local_spec(a), local_spec(b), local_spec(c));
        }
    }
}

fn pos_of(declared: &Vec<String>, m: &str) -> (p: usize)
    ensures
        p as int == param_pos(names(declared@), m@),
{
    match find_name(declared, local_name(m)) {
        Some(i) => i,
        None => usize::MAX,
    }
}

fn appendix_order_exec(declared: &Vec<String>, a: &str, pa: usize, b: &str, pb: usize) -> (r: i8)
    requires
        pa as int == param_pos(names(declared@), a@),
        pb as int == param_pos(names(declared@), b@),
    ensures
        r as int == appendix_order(names(declared@), a@, b@),
{
    if pa < pb {
        -1
    } else if pa > pb {
        1
    } else {
        text_order_exec(local_name(a), local_name(b))
    }
}

fn sort_appendix(params: &Vec<String>, node_ids: &Vec<String>, declared: &Vec<String>) -> (r: Vec<String>)
    ensures
        names(r@).to_multiset() == bearing_v(names(params@), names(node_ids@), params@.len()).to_multiset(),
        appendix_sorted(names(declared@), names(r@)),
{
    let ghost pv = names(params@);
    let ghost dv = names(declared@);
    let mut out: Vec<String> = Vec::new();
    let mut keys: Vec<usize> = Vec::new();
    assert(names(out@) =~= bearing_v(pv, names(node_ids@), 0));
    let mut k: usize = 0;
    while k < params.len()
        invariant
            pv == names(params@),
            dv == names(declared@),
            k <= params@.len(),
            out@.len() == keys@.len(),
            forall|i: int| 0 <= i < keys@.len() ==> keys@[i] as int == param_pos(dv, #[trigger] out@[i]@),
            names(out@).to_multiset() == bearing_v(pv, names(node_ids@), k as nat).to_multiset(),
            appendix_sorted(dv, names(out@)),
        decreases params@.len() - k,
    {
        let m = params[k].as_str();
        assert(pv[k as int] == m@);
        if contains_str(node_ids, m) {
            let pm = pos_of(declared, m);
            let mut p: usize = 0;
            while p < out.len()
                invariant_except_break
                    forall|i: int| 0 <= i < p ==> appendix_order(dv, #[trigger] names(out@)[i], m@) <= 0,
                invariant
                    dv == names(declared@),
                    p <= out@.len(),
                    out@.len() == keys@.len(),
                    forall|i: int| 0 <= i < keys@.len() ==> keys@[i] as int == param_pos(dv, #[trigger] out@[i]@),
                    pm as int == param_pos(dv, m@),
                ensures
                    p <= out@.len(),
                    forall|i: int| 0 <= i < p ==> appendix_order(dv, #[trigger] names(out@)[i], m@) <= 0,
                    p < out@.len() ==> appendix_order(dv, m@, names(out@)[p as int]) < 0,
                decreases out@.len() - p,
            {
                assert(keys@[p as int] as int == param_pos(dv, out@[p as int]@));
                let c = appendix_order_exec(declared, m, pm, out[p].as_str(), keys[p]);
                if c < 0 {
                    break;
                }
                proof {
                    lemma_appendix_order(dv, m@, names(out@)[p as int], m@);
                }
                p += 1;
            }
            let ghost before = names(out@);
            let ghost bo = out@;
            out.insert(p, owned(m));
            keys.insert(p, pm);
            proof {
                assert(names(out@) =~= before.insert(p as int, m@));
                let now = names(out@);
                assert forall|i: int, j: int| 0 <= i < j < now.len() implies appendix_order(dv, #[trigger] now[i], #[trigger] now[j])
                    <= 0 by {
                    if i < p && j == p {
                    } else if i < p && j > p {
                        assert(now[j] == before[j - 1]);
                        assert(now[i] == before[i]);
                    } else if i == p && j > p {
                        assert(now[j] == before[j - 1]);
                        lemma_appendix_order(dv, m@, before[p as int], before[j - 1]);
                        if j - 1 == p {
                            lemma_appendix_order(dv, before[p as int], before[p as int], before[p as int]);
                        }
                    } else if j < p {
                        assert(now[j] == before[j]);
                        assert(now[i] == before[i]);
                    } else {
                        assert(now[j] == before[j - 1]);
                        assert(now[i] == before[i - 1]);
                    }
                }
                assert forall|i: int| 0 <= i < keys@.len() implies keys@[i] as int == param_pos(dv, #[trigger] out@[i]@) by {
                    if i < p {
                        assert(out@[i] == bo[i]);
                    } else if i > p {
                        assert(out@[i] == bo[i - 1]);
                    }
                }
                vstd::seq_lib::to_multiset_insert(before, p as int, m@);
                vstd::seq_lib::to_multiset_build(bearing_v(pv, names(node_ids@), k as nat), m@);
                assert(bearing_v(pv, names(node_ids@), (k + 1) as nat) =~= bearing_v(pv, names(node_ids@), k as nat).push(m@));
            }
        } else {
            assert(bearing_v(pv, names(node_ids@), (k + 1) as nat) =~= bearing_v(pv, names(node_ids@), k as nat));
        }
        k += 1;
    }
    out
}


// ---- one instance ----

/// How one instance's derivation ends.
#[derive(PartialEq, Eq, Structural)]
pub enum Outcome {
    /// Nothing is recorded: the class has no catalog entry.
    Unchanged,
    /// The instance is refused whole.
    Skipped,
    /// The interface is derived.
    Derived,
}

/// Everything deriving one instance produces.
pub struct DeriveV {
    pub findings: Seq<Finding>,
    pub outcome: Outcome,
    pub inputs: BuildV,
    pub outputs: BuildV,
    pub bearing: Seq<Seq<char>>,
}

/// The refusal of a class whose port count depends on a parameter.
pub open spec fn vector_finding(owner: Seq<char>, class_path: Seq<char>) -> Finding {
    rule_finding(
        RuleKind::VectorPortInstance,
        "instance of class `"@ + class_path
            + "` derives its port count from a parameter; this subset derives scalar interfaces only"@,
        owner,
    )
}

/// A document position, `usize::MAX` when unknown.
pub open spec fn position_of(graph_pos: StrMap<usize>, iri: Seq<char>) -> int {
    match graph_pos.at(iri) {
        Some(p) => p as int,
        None => usize::MAX as int,
    }
}

/// Derive one portless instance: members outside the owner's domain are refused; a class with
/// no published port names is refused whole; a class with no catalog entry records nothing;
/// otherwise the members are classified, and any refusal (an unsupported member, a doubly
/// minted connector, a repeated or doubly declared parameter, a padded identity colliding with a
/// node or a minted identity) skips the instance whole. A derived instance refuses its
/// node-less parameter members, lists its active ports in signature order (padding omitted
/// outputs), records each node-bearing port's declared type, synthesizes each node-less port,
/// and lists its node-bearing parameter members.
pub open spec fn derive_one_v(
    block: BlockId,
    node: Node,
    class_path: Seq<char>,
    ports: Option<ClassPorts>,
    entry: Option<ClassEntry>,
    node_ids: Seq<Seq<char>>,
    owner_pos: int,
    pruned: Seq<Seq<char>>,
    referents: Seq<Seq<char>>,
    carriers: Seq<Seq<char>>,
    minted: Seq<Seq<char>>,
) -> DeriveV {
    let owner = node.id@;
    let ids = ref_ids(node.has_instance);
    let a = members_v(owner, ids, referents, carriers, ids.len());
    let none = DeriveV {
        findings: a.1,
        outcome: Outcome::Unchanged,
        inputs: empty_build(),
        outputs: empty_build(),
        bearing: seq![],
    };
    match ports {
        None => DeriveV { findings: a.1.push(vector_finding(owner, class_path)), outcome: Outcome::Skipped, ..none },
        Some(p) => match entry {
            None => none,
            Some(e) => {
                let iv = names(p.inputs@);
                let ov = names(p.outputs@);
                let s = classify_v(a.0, iv, ov, names(e.params@), class_path, a.0.len());
                let c = twice_v(a.0, iv, ov, node_ids, owner, a.0.len()).1;
                let d = param_checks_v(s.params, authored_param_names(node), owner, s.params.len()).1;
                let pd = padded_v(s.outputs, ov, owner, node_ids, minted, ov.len());
                let pre = a.1 + s.findings + c + d + pd.1;
                if pre.len() > 0 {
                    DeriveV { findings: pre, outcome: Outcome::Skipped, ..none }
                } else {
                    DeriveV {
                        findings: grounding_v(s.params, node_ids, s.params.len()),
                        outcome: Outcome::Derived,
                        inputs: inputs_v(s.inputs, e.input_types@, node_ids, pruned, owner_pos, block, s.inputs.len()),
                        outputs: outputs_v(
                            s.outputs,
                            e.output_types@,
                            pd.0,
                            iv.len() as int,
                            node_ids,
                            pruned,
                            owner_pos,
                            block,
                            s.outputs.len(),
                        ),
                        bearing: bearing_v(s.params, node_ids, s.params.len()),
                    }
                }
            },
        },
    }
}

/// The registry facts are consistent: a type for each declared port, and port counts that fit.
pub open spec fn class_facts_ok(ports: Option<ClassPorts>, entry: Option<ClassEntry>) -> bool {
    match (ports, entry) {
        (Some(p), Some(e)) => e.input_types@.len() >= p.inputs@.len() && e.output_types@.len() >= p.outputs@.len()
            && p.inputs@.len() + p.outputs@.len() <= usize::MAX,
        _ => true,
    }
}

/// Derive one portless instance's interface; see [`derive_one_v`]. `node_ids` are the document's
/// node `@id`s, `graph_pos` their positions, `referents` and `carriers` the authored block
/// instances, and `minted` the identities minted so far.
pub fn derive_one(
    block: BlockId,
    node: &Node,
    class_path: &str,
    ports: &Option<ClassPorts>,
    entry: &Option<ClassEntry>,
    node_ids: &Vec<String>,
    graph_pos: &StrMap<usize>,
    specialization: &Specialization,
    referents: &Vec<String>,
    carriers: &Vec<String>,
    minted: &mut Vec<String>,
    synth_keyed: &mut Vec<((usize, usize), SynthesizedConnector)>,
    out: &mut InstanceDerivation,
    diags: &mut Vec<Diagnostic>,
)
    requires
        class_facts_ok(*ports, *entry),
    ensures
        ({
            let v = derive_one_v(
                block,
                *node,
                class_path@,
                *ports,
                *entry,
                names(node_ids@),
                position_of(*graph_pos, node.id@),
                specialization.pruned(),
                names(referents@),
                names(carriers@),
                names(old(minted)@),
            );
            let owner = node.id@;
            &&& appends(old(diags)@, final(diags)@, v.findings)
            &&& final(out).synthesized == old(out).synthesized
            &&& (v.outcome == Outcome::Skipped ==> names(final(out).skipped@) == names(old(out).skipped@).push(owner))
            &&& (v.outcome != Outcome::Skipped ==> final(out).skipped == old(out).skipped)
            &&& (v.outcome != Outcome::Derived ==> {
                &&& final(out).interfaces == old(out).interfaces
                &&& final(out).member_value_fallback == old(out).member_value_fallback
                &&& final(out).param_appendix == old(out).param_appendix
                &&& *final(minted) == *old(minted)
                &&& *final(synth_keyed) == *old(synth_keyed)
            })
            &&& (v.outcome == Outcome::Derived ==> {
                &&& final(out).interfaces.at(owner) matches Some(d) && names(d.inputs@) == v.inputs.iface && names(
                    d.outputs@,
                ) == v.outputs.iface
                &&& forall|x: Seq<char>| x != owner ==> #[trigger] final(out).interfaces.at(x) == old(out).interfaces.at(x)
                &&& forall|x: Seq<char>| #[trigger]
                    final(out).member_value_fallback.at(x) == updated_at(
                        old(out).member_value_fallback.at(x),
                        v.inputs.fallback + v.outputs.fallback,
                        x,
                    )
                &&& names(final(minted)@) == names(old(minted)@) + v.inputs.mint + v.outputs.mint
                &&& synth_view(final(synth_keyed)@) == synth_view(old(synth_keyed)@) + v.inputs.synth + v.outputs.synth
                &&& forall|x: Seq<char>| x != owner ==> #[trigger] final(out).param_appendix.at(x) == old(out).param_appendix.at(x)
                &&& (v.bearing.len() == 0 ==> final(out).param_appendix.at(owner) == old(out).param_appendix.at(owner))
                &&& (v.bearing.len() > 0 ==> (final(out).param_appendix.at(owner) matches Some(a) && names(a@).to_multiset()
                    == v.bearing.to_multiset() && appendix_sorted(names(entry->0.params@), names(a@))))
            })
        }),
{
    let owner = node.id.as_str();
    let ghost d0 = diags@;
    let start = diags.len();
    let kept = collect_members(owner, node, referents, carriers, diags);
    let ghost d1 = diags@;
    let p = match ports {
        Some(p) => p,
        None => {
            let detail = cat3(
                "instance of class `",
                class_path,
                "` derives its port count from a parameter; this subset derives scalar interfaces only",
            );
            let d = rule_error(RuleKind::VectorPortInstance, detail.as_str(), owner);
            proof {
                lemma_appends_one(diags@, d, vector_finding(owner@, class_path@));
                lemma_appends_trans(d0, d1, d1.push(d), members_v(owner@, ref_ids(node.has_instance), names(referents@), names(carriers@), ref_ids(node.has_instance).len()).1, seq![vector_finding(owner@, class_path@)]);
            }
            diags.push(d);
            let ghost s0 = out.skipped@;
            out.skipped.push(owned(owner));
            assert(names(out.skipped@) =~= names(s0).push(owner@));
            return;
        },
    };
    let e = match entry {
        Some(e) => e,
        None => {
            return;
        },
    };
    let ghost a = members_v(owner@, ref_ids(node.has_instance), names(referents@), names(carriers@), ref_ids(node.has_instance).len());
    let slots = classify(&kept, p, &e.params, class_path, diags);
    let ghost d2 = diags@;
    report_twice(&kept, p, node_ids, owner, diags);
    let ghost d3 = diags@;
    check_param_members(&slots.params, node, owner, diags);
    let ghost d4 = diags@;
    proof {
        lemma_classify_len(names(kept@), names(p.inputs@), names(p.outputs@), names(e.params@), class_path@, kept@.len());
    }
    let padded = padded_outputs(&slots.outputs, p, owner, node_ids, minted, diags);
    proof {
        let sv = classify_v(names(kept@), names(p.inputs@), names(p.outputs@), names(e.params@), class_path@, kept@.len());
        let c = twice_v(names(kept@), names(p.inputs@), names(p.outputs@), names(node_ids@), owner@, kept@.len()).1;
        let dd = param_checks_v(sv.params, authored_param_names(*node), owner@, sv.params.len()).1;
        let pd = padded_v(sv.outputs, names(p.outputs@), owner@, names(node_ids@), names(minted@), names(p.outputs@).len());
        lemma_appends_trans(d0, d1, d2, a.1, sv.findings);
        lemma_appends_trans(d0, d2, d3, a.1 + sv.findings, c);
        lemma_appends_trans(d0, d3, d4, a.1 + sv.findings + c, dd);
        lemma_appends_trans(d0, d4, diags@, a.1 + sv.findings + c + dd, pd.1);
    }
    if diags.len() > start {
        let ghost s0 = out.skipped@;
        out.skipped.push(owned(owner));
        assert(names(out.skipped@) =~= names(s0).push(owner@));
        return;
    }
    let ghost d5 = diags@;
    refuse_nodeless_params(&slots.params, node_ids, diags);
    proof {
        let sv = classify_v(names(kept@), names(p.inputs@), names(p.outputs@), names(e.params@), class_path@, kept@.len());
        let c = twice_v(names(kept@), names(p.inputs@), names(p.outputs@), names(node_ids@), owner@, kept@.len()).1;
        let dd = param_checks_v(sv.params, authored_param_names(*node), owner@, sv.params.len()).1;
        let pd = padded_v(sv.outputs, names(p.outputs@), owner@, names(node_ids@), names(minted@), names(p.outputs@).len());
        let pre = a.1 + sv.findings + c + dd + pd.1;
        assert(pre.len() == 0);
        let g = grounding_v(sv.params, names(node_ids@), sv.params.len());
        lemma_appends_trans(d0, d5, diags@, pre, g);
        assert(pre + g =~= g);
    }
    let owner_pos = match graph_pos.get(owner) {
        Some(p) => *p,
        None => usize::MAX,
    };
    let mut sinks = PortSinks { iface: Vec::new(), fallback: StrMap::new(), minted: Vec::new(), synth: Vec::new() };
    std::mem::swap(&mut sinks.fallback, &mut out.member_value_fallback);
    std::mem::swap(&mut sinks.minted, minted);
    std::mem::swap(&mut sinks.synth, synth_keyed);
    let ghost s_start = sinks;
    build_inputs(&mut sinks, &slots.inputs, &e.input_types, node_ids, specialization, owner_pos, block);
    let ghost s_in = sinks;
    let mut inputs: Vec<String> = Vec::new();
    std::mem::swap(&mut inputs, &mut sinks.iface);
    let ghost s_mid = sinks;
    proof {
        lemma_classify_len(names(kept@), names(p.inputs@), names(p.outputs@), names(e.params@), class_path@, kept@.len());
    }
    build_outputs(&mut sinks, &slots.outputs, &e.output_types, &padded, p.inputs.len(), node_ids, specialization, owner_pos, block);
    let ghost s_out = sinks;
    let mut outputs: Vec<String> = Vec::new();
    std::mem::swap(&mut outputs, &mut sinks.iface);
    std::mem::swap(&mut sinks.fallback, &mut out.member_value_fallback);
    std::mem::swap(&mut sinks.minted, minted);
    std::mem::swap(&mut sinks.synth, synth_keyed);
    let appendix = sort_appendix(&slots.params, node_ids, &e.params);
    proof {
        let bi = inputs_v(opt_names(slots.inputs@), e.input_types@, names(node_ids@), specialization.pruned(), owner_pos as int, block, slots.inputs@.len());
        let bo = outputs_v(
            opt_names(slots.outputs@),
            e.output_types@,
            padded_view(padded@),
            p.inputs@.len() as int,
            names(node_ids@),
            specialization.pruned(),
            owner_pos as int,
            block,
            slots.outputs@.len(),
        );
        assert(names(inputs@) =~= bi.iface);
        assert(names(outputs@) =~= bo.iface);
        assert forall|x: Seq<char>| #[trigger] out.member_value_fallback.at(x) == updated_at(
            s_start.fallback.at(x),
            bi.fallback + bo.fallback,
            x,
        ) by {
            lemma_updated_concat(s_start.fallback.at(x), bi.fallback, bo.fallback, x);
        }
        assert(names(minted@) =~= names(s_start.minted@) + bi.mint + bo.mint);
        assert(synth_view(synth_keyed@) =~= synth_view(s_start.synth@) + bi.synth + bo.synth);
        vstd::seq_lib::to_multiset_len(names(appendix@));
        vstd::seq_lib::to_multiset_len(bearing_v(names(slots.params@), names(node_ids@), slots.params@.len()));
        assert(names(appendix@).len() == appendix@.len());
    }
    let ghost o0 = *out;
    if appendix.len() > 0 {
        out.param_appendix.insert(owner, appendix);
    }
    out.interfaces.insert(owner, DerivedInterface { inputs, outputs });
    proof {
        assert(out.synthesized == o0.synthesized);
        assert(out.skipped == o0.skipped);
    }
}

proof fn lemma_updated_concat<V>(old: Option<V>, u1: Seq<(Seq<char>, V)>, u2: Seq<(Seq<char>, V)>, x: Seq<char>)
    ensures
        updated_at(updated_at(old, u1, x), u2, x) == updated_at(old, u1 + u2, x),
    decreases u2.len(),
{
    if u2.len() > 0 {
        assert((u1 + u2).drop_last() =~= u1 + u2.drop_last());
        assert((u1 + u2).last() == u2.last());
        lemma_updated_concat(old, u1, u2.drop_last(), x);
    } else {
        assert(u1 + u2 =~= u1);
    }
}

} // verus!
