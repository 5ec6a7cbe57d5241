//! Agreement between a document's declared block interface and the resolved class signature:
//! arity first, then port identity.
//!
//! Port position comes from `hasInput`/`hasOutput` array order, so whoever wrote the document
//! decided which connector lands at which index. A transposition between two ports of the same
//! kind passes every count and kind check and computes a different answer, and the reference
//! generator renders connectors alphabetically by label rather than in declaration order. So
//! ports are **bound** by name: when a document names its ports the way the class does, they are
//! permuted into signature order. A document naming no declared port binds by position; one
//! naming some but not all is reported; the exporter's positional markers (`in0`, `out1`) name
//! no declared port, so a document of markers alone binds by position.
use vstd::prelude::*;
use crate::diag::{is_error_about, DiagCode, Diagnostic};
use crate::model::{BlockInstance, ConnectorId};
use crate::text::{after_last_in, decimal, decimal_string, owned, push_str};
use crate::report::local_name;

verus! {

/// How a document's port array corresponds to its class's declared ports.
#[derive(Debug, PartialEq, Eq)]
pub enum Binding {
    /// No port IRI names a declared port: bind by array position.
    Positional,
    /// `order[i]` is the document-array index of the port belonging at signature position `i`.
    Permuted(Vec<usize>),
    /// Some ports name declared ports and some do not, so neither reading is safe.
    Partial {
        /// How many document ports named a declared port.
        matched: usize,
        /// How many ports the class declares on this side.
        total: usize,
    },
}

/// The local name of a port IRI: its segment after the last `.`.
pub open spec fn leaf(iri: Seq<char>) -> Seq<char> {
    after_last_in(iri, seq!['.'])
}

/// Document index `k` is claimed by one of the first `p` signature positions.
pub open spec fn taken(order: Seq<int>, k: int) -> bool {
    order.contains(k)
}

/// The first unclaimed document index whose leaf is `name`, or `-1`.
pub open spec fn first_free_match(leaves: Seq<Seq<char>>, order: Seq<int>, name: Seq<char>, k: int) -> int
    decreases leaves.len() - k,
{
    if k < 0 || k >= leaves.len() {
        -1
    } else if leaves[k] == name && !taken(order, k) {
        k
    } else {
        first_free_match(leaves, order, name, k + 1)
    }
}

/// The document index greedily bound to signature position `p` given the earlier claims
/// `order`: the first unclaimed port of the same local name, or `-1`.
pub open spec fn bind_one(leaves: Seq<Seq<char>>, names: Seq<Seq<char>>, order: Seq<int>, p: int) -> int {
    first_free_match(leaves, order, names[p], 0)
}

/// The greedy binding of the first `p` signature positions.
pub open spec fn bind_prefix(leaves: Seq<Seq<char>>, names: Seq<Seq<char>>, p: nat) -> Seq<int>
    decreases p,
{
    if p == 0 {
        seq![]
    } else {
        let prev = bind_prefix(leaves, names, (p - 1) as nat);
        prev.push(bind_one(leaves, names, prev, p - 1))
    }
}

/// How many positions of a binding are matched.
pub open spec fn matched_count(order: Seq<int>) -> nat
    decreases order.len(),
{
    if order.len() == 0 {
        0
    } else {
        matched_count(order.drop_last()) + if order.last() >= 0 {
            1nat
        } else {
            0nat
        }
    }
}

/// The binding `match_names` answers for these leaves and declared names.
pub open spec fn binding_spec(leaves: Seq<Seq<char>>, names: Seq<Seq<char>>) -> (nat, Seq<int>) {
    let order = bind_prefix(leaves, names, names.len());
    (matched_count(order), order)
}

pub open spec fn leaves_of(port_iris: Seq<&str>) -> Seq<Seq<char>> {
    port_iris.map_values(|iri: &str| leaf(iri@))
}

pub open spec fn names_of(names: Seq<&str>) -> Seq<Seq<char>> {
    names.map_values(|n: &str| n@)
}

proof fn lemma_bind_prefix_len(leaves: Seq<Seq<char>>, names: Seq<Seq<char>>, p: nat)
    ensures
        bind_prefix(leaves, names, p).len() == p,
    decreases p,
{
    if p > 0 {
        lemma_bind_prefix_len(leaves, names, (p - 1) as nat);
    }
}

proof fn lemma_first_free_match(leaves: Seq<Seq<char>>, order: Seq<int>, name: Seq<char>, k: int)
    requires
        0 <= k,
    ensures
        first_free_match(leaves, order, name, k) == -1 || (k <= first_free_match(leaves, order, name, k)
            < leaves.len() && leaves[first_free_match(leaves, order, name, k)] == name
            && !taken(order, first_free_match(leaves, order, name, k))),
        first_free_match(leaves, order, name, k) == -1 ==> forall|j: int|
            k <= j < leaves.len() ==> !(leaves[j] == name && !taken(order, j)),
    decreases leaves.len() - k,
{
    if k < leaves.len() && !(leaves[k] == name && !taken(order, k)) {
        lemma_first_free_match(leaves, order, name, k + 1);
    }
}

/// A binding claims each document index at most once and only in range.
pub open spec fn claims_ok(order: Seq<int>, n: int) -> bool {
    &&& forall|i: int| 0 <= i < order.len() ==> -1 <= #[trigger] order[i] < n
    &&& forall|i: int, j: int|
        0 <= i < j < order.len() && order[i] >= 0 ==> #[trigger] order[i] != #[trigger] order[j]
}

proof fn lemma_bind_prefix_claims(leaves: Seq<Seq<char>>, names: Seq<Seq<char>>, p: nat)
    requires
        p <= names.len(),
    ensures
        claims_ok(bind_prefix(leaves, names, p), leaves.len() as int),
    decreases p,
{
    if p > 0 {
        let prev = bind_prefix(leaves, names, (p - 1) as nat);
        lemma_bind_prefix_claims(leaves, names, (p - 1) as nat);
        lemma_first_free_match(leaves, prev, names[p - 1], 0);
        let b = bind_one(leaves, names, prev, p - 1);
        assert(b >= 0 ==> !prev.contains(b));
        let cur = prev.push(b);
        assert forall|i: int, j: int|
            0 <= i < j < cur.len() && cur[i] >= 0 implies #[trigger] cur[i] != #[trigger] cur[j] by {
            if j == cur.len() - 1 {
                assert(prev.contains(cur[i]));
            }
        }
    }
}

proof fn lemma_matched_le(order: Seq<int>)
    ensures
        matched_count(order) <= order.len(),
        matched_count(order) == order.len() ==> forall|i: int| 0 <= i < order.len() ==> order[i] >= 0,
        matched_count(order) == 0 ==> forall|i: int| 0 <= i < order.len() ==> order[i] < 0,
    decreases order.len(),
{
    if order.len() > 0 {
        lemma_matched_le(order.drop_last());
        assert forall|i: int| 0 <= i < order.len() - 1 implies order[i] == order.drop_last()[i] by {}
    }
}

/// Whether two strings are equal.
pub fn str_eq(a: &str, b: &str) -> (r: bool)
    ensures
        r == (a@ == b@),
{
    let ac = crate::text::chars_of(a);
    let bc = crate::text::chars_of(b);
    if ac.len() != bc.len() {
        return false;
    }
    let mut k: usize = 0;
    while k < ac.len()
        invariant
            ac@ == a@,
            bc@ == b@,
            ac@.len() == bc@.len(),
            k <= ac@.len(),
            forall|j: int| 0 <= j < k ==> ac@[j] == bc@[j],
        decreases ac@.len() - k,
    {
        if ac[k] != bc[k] {
            return false;
        }
        k += 1;
    }
    assert(ac@ =~= bc@);
    true
}

/// Whether document index `k` is already claimed in `order` (unclaimed positions hold
/// `usize::MAX`).
fn is_taken(order: &Vec<usize>, k: usize) -> (b: bool)
    ensures
        b == order@.contains(k),
{
    let mut i: usize = 0;
    while i < order.len()
        invariant
            i <= order@.len(),
            forall|j: int| 0 <= j < i ==> order@[j] != k,
        decreases order@.len() - i,
    {
        if order[i] == k {
            return true;
        }
        i += 1;
    }
    false
}

/// The first unclaimed document index whose leaf is `name`.
fn first_free(
    leaf_names: &Vec<&str>,
    name: &str,
    order: &Vec<usize>,
    Ghost(leaves): Ghost<Seq<Seq<char>>>,
    Ghost(prev): Ghost<Seq<int>>,
) -> (r: Option<usize>)
    requires
        leaf_names@.len() == leaves.len(),
        forall|j: int| 0 <= j < leaves.len() ==> (#[trigger] leaf_names@[j])@ == leaves[j],
        order_view(order@) == prev,
    ensures
        match r {
            Some(k) => k as int == first_free_match(leaves, prev, name@, 0),
            None => first_free_match(leaves, prev, name@, 0) == -1,
        },
{
    let mut k: usize = 0;
    while k < leaf_names.len()
        invariant
            leaf_names@.len() == leaves.len(),
            forall|j: int| 0 <= j < leaves.len() ==> (#[trigger] leaf_names@[j])@ == leaves[j],
            order_view(order@) == prev,
            k <= leaves.len(),
            first_free_match(leaves, prev, name@, 0) == first_free_match(leaves, prev, name@, k as int),
        decreases leaves.len() - k,
    {
        let taken_k = is_taken(order, k);
        proof {
            assert(taken_k == prev.contains(k as int)) by {
                if taken_k {
                    let j = choose|j: int| 0 <= j < order@.len() && order@[j] == k;
                    assert(prev[j] == k as int);
                }
                if prev.contains(k as int) {
                    let j = choose|j: int| 0 <= j < prev.len() && prev[j] == k as int;
                    assert(order@[j] == k);
                }
            }
        }
        if str_eq(leaf_names[k], name) && !taken_k {
            return Some(k);
        }
        k += 1;
    }
    None
}

/// The spec view of an executable binding prefix: unclaimed positions as `-1`.
pub open spec fn order_view(order: Seq<usize>) -> Seq<int> {
    order.map_values(|k: usize| if k == usize::MAX { -1int } else { k as int })
}

/// Match one side's port IRIs against the class's declared port names for that side.
///
/// Identity comes from the IRI's local name (the segment after the last `.`). Returns
/// `Positional` when the two sides disagree on count: arity is reported by the arity check.
pub fn match_names(port_iris: &[&str], names: &[&str]) -> (b: Binding)
    ensures
        port_iris@.len() != names@.len() ==> b == Binding::Positional,
        port_iris@.len() == names@.len() ==> {
            let (matched, order) = binding_spec(leaves_of(port_iris@), names_of(names@));
            match b {
                Binding::Positional => matched == 0,
                Binding::Permuted(v) => 0 < matched == names@.len() && order_view(v@) == order,
                Binding::Partial { matched: m, total } => 0 < matched < names@.len() && m == matched
                    && total == names@.len(),
            }
        },
{
    if port_iris.len() != names.len() {
        return Binding::Positional;
    }
    let n = names.len();
    let ghost leaves = leaves_of(port_iris@);
    let ghost want = names_of(names@);
    let mut leaf_names: Vec<&str> = Vec::new();
    let mut k: usize = 0;
    while k < n
        invariant
            n == port_iris@.len() == names@.len(),
            k <= n,
            leaf_names@.len() == k,
            forall|j: int| 0 <= j < k ==> (#[trigger] leaf_names@[j])@ == leaves[j],
            leaves == leaves_of(port_iris@),
        decreases n - k,
    {
        leaf_names.push(local_name(port_iris[k]));
        k += 1;
    }
    let mut order: Vec<usize> = Vec::new();
    let mut matched: usize = 0;
    let mut p: usize = 0;
    while p < n
        invariant
            n == port_iris@.len() == names@.len(),
            leaves == leaves_of(port_iris@),
            want == names_of(names@),
            leaf_names@.len() == n,
            forall|j: int| 0 <= j < n ==> (#[trigger] leaf_names@[j])@ == leaves[j],
            p <= n,
            order@.len() == p,
            order_view(order@) == bind_prefix(leaves, want, p as nat),
            matched == matched_count(bind_prefix(leaves, want, p as nat)),
            matched <= p,
        decreases n - p,
    {
        let ghost prev = bind_prefix(leaves, want, p as nat);
        proof {
            lemma_bind_prefix_claims(leaves, want, p as nat);
        }
        assert(want[p as int] == names@[p as int]@);
        let found: usize = match first_free(&leaf_names, names[p], &order, Ghost(leaves), Ghost(prev)) {
            Some(k) => k,
            None => usize::MAX,
        };
        proof {
            lemma_first_free_match(leaves, prev, want[p as int], 0);
        }
        let ghost before = order@;
        order.push(found);
        assert(order_view(order@) =~= order_view(before).push(bind_one(leaves, want, prev, p as int)));
        assert(bind_prefix(leaves, want, (p + 1) as nat) == prev.push(bind_one(leaves, want, prev, p as int)));
        if found != usize::MAX {
            matched += 1;
        }
        proof {
            let cur = bind_prefix(leaves, want, (p + 1) as nat);
            assert(cur.drop_last() =~= prev);
        }
        p += 1;
    }
    proof {
        lemma_matched_le(bind_prefix(leaves, want, n as nat));
    }
    if matched == 0 {
        Binding::Positional
    } else if matched == n {
        Binding::Permuted(order)
    } else {
        Binding::Partial { matched, total: n }
    }
}

/// A permutation of `0..n`: every entry in range and no entry twice.
pub open spec fn is_permutation(order: Seq<usize>, n: nat) -> bool {
    &&& order.len() == n
    &&& forall|i: int| 0 <= i < order.len() ==> (#[trigger] order[i] as int) < n
    &&& forall|i: int, j: int| 0 <= i < j < order.len() ==> #[trigger] order[i] != #[trigger] order[j]
}

/// A `Permuted` binding is a permutation of the document ports: no port is dropped or bound
/// twice.
pub proof fn lemma_permuted_is_permutation(port_iris: Seq<&str>, names: Seq<&str>, order: Seq<usize>)
    requires
        port_iris.len() == names.len(),
        binding_spec(leaves_of(port_iris), names_of(names)).0 == names.len(),
        order_view(order) == binding_spec(leaves_of(port_iris), names_of(names)).1,
    ensures
        is_permutation(order, names.len()),
{
    let leaves = leaves_of(port_iris);
    let want = names_of(names);
    let spec_order = bind_prefix(leaves, want, names.len());
    lemma_bind_prefix_len(leaves, want, names.len());
    lemma_bind_prefix_claims(leaves, want, names.len());
    lemma_matched_le(spec_order);
    assert forall|i: int| 0 <= i < order.len() implies (#[trigger] order[i] as int) < names.len() by {
        assert(order_view(order)[i] == spec_order[i]);
    }
    assert forall|i: int, j: int| 0 <= i < j < order.len() implies #[trigger] order[i] != #[trigger] order[j] by {
        assert(order_view(order)[i] == spec_order[i]);
        assert(order_view(order)[j] == spec_order[j]);
    }
}

/// Reorder `ports` so position `i` holds the connector named by signature position `i`.
///
/// `order` must be a total permutation of `ports`' indices: [`Binding::Permuted`] is the only
/// thing that produces one.
pub fn apply(order: &[usize], ports: &mut [ConnectorId])
    requires
        is_permutation(order@, old(ports)@.len()),
    ensures
        final(ports)@.len() == old(ports)@.len(),
        forall|i: int| 0 <= i < order@.len() ==> final(ports)@[i] == old(ports)@[order@[i] as int],
{
    let source: Vec<ConnectorId> = vstd::slice::slice_to_vec(ports);
    let mut i: usize = 0;
    while i < order.len()
        invariant
            is_permutation(order@, source@.len()),
            ports@.len() == source@.len(),
            source@ == old(ports)@,
            i <= order@.len(),
            forall|j: int| 0 <= j < i ==> ports@[j] == source@[order@[j] as int],
        decreases order@.len() - i,
    {
        let k = order[i];
        ports[i] = source[k];
        i += 1;
    }
}


pub open spec fn arity_message(class_path: Seq<char>, got: (nat, nat), want: (nat, nat)) -> Seq<char> {
    "block interface mismatch for `"@ + class_path + "`: declared "@ + decimal(got.0) + " input(s)/"@
        + decimal(got.1) + " output(s), class requires "@ + decimal(want.0) + "/"@ + decimal(want.1)
}

pub open spec fn partial_message(class_path: Seq<char>, matched: nat, total: nat, side: Seq<char>) -> Seq<
    char,
> {
    "block `"@ + class_path + "`: "@ + decimal(matched) + " of "@ + decimal(total) + " "@ + side
        + " port(s) name a declared port of the class and the rest do not, so the port list can be read neither by name nor by position"@
}

fn arity_diagnostic(class_path: &str, subject: &str, got: (usize, usize), want: (usize, usize)) -> (d: Diagnostic)
    ensures
        is_error_about(
            d,
            DiagCode::MalformedDocument,
            arity_message(class_path@, (got.0 as nat, got.1 as nat), (want.0 as nat, want.1 as nat)),
            subject@,
        ),
{
    let mut m = owned("block interface mismatch for `");
    push_str(&mut m, class_path);
    push_str(&mut m, "`: declared ");
    push_str(&mut m, decimal_string(got.0).as_str());
    push_str(&mut m, " input(s)/");
    push_str(&mut m, decimal_string(got.1).as_str());
    push_str(&mut m, " output(s), class requires ");
    push_str(&mut m, decimal_string(want.0).as_str());
    push_str(&mut m, "/");
    push_str(&mut m, decimal_string(want.1).as_str());
    Diagnostic::error(DiagCode::MalformedDocument, m).with_subject(owned(subject))
}

fn partial_diagnostic(class_path: &str, subject: &str, matched: usize, total: usize, side: &str) -> (d: Diagnostic)
    ensures
        is_error_about(
            d,
            DiagCode::PortNameMismatch,
            partial_message(class_path@, matched as nat, total as nat, side@),
            subject@,
        ),
{
    let mut m = owned("block `");
    push_str(&mut m, class_path);
    push_str(&mut m, "`: ");
    push_str(&mut m, decimal_string(matched).as_str());
    push_str(&mut m, " of ");
    push_str(&mut m, decimal_string(total).as_str());
    push_str(&mut m, " ");
    push_str(&mut m, side);
    push_str(
        &mut m,
        " port(s) name a declared port of the class and the rest do not, so the port list can be read neither by name nor by position",
    );
    Diagnostic::error(DiagCode::PortNameMismatch, m).with_subject(owned(subject))
}

/// What binding one side does to its ports and diagnostics.
pub open spec fn side_effect(
    port_iris: Seq<&str>,
    names: Seq<&str>,
    old_ports: Seq<ConnectorId>,
    new_ports: Seq<ConnectorId>,
    old_diags: Seq<Diagnostic>,
    new_diags: Seq<Diagnostic>,
    class_path: Seq<char>,
    subject: Seq<char>,
    side: Seq<char>,
) -> bool {
    let (matched, order) = binding_spec(leaves_of(port_iris), names_of(names));
    if port_iris.len() != names.len() || matched == 0 {
        new_ports == old_ports && new_diags == old_diags
    } else if matched == names.len() {
        &&& new_diags == old_diags
        &&& new_ports.len() == old_ports.len()
        &&& forall|i: int| 0 <= i < order.len() ==> new_ports[i] == old_ports[order[i]]
    } else {
        &&& new_ports == old_ports
        &&& new_diags.len() == old_diags.len() + 1
        &&& new_diags.drop_last() == old_diags
        &&& is_error_about(
            new_diags.last(),
            DiagCode::PortNameMismatch,
            partial_message(class_path, matched, names.len() as nat, side),
            subject,
        )
    }
}

fn bind_side(
    port_iris: &[&str],
    names: &[&str],
    ports: &mut Vec<ConnectorId>,
    class_path: &str,
    subject: &str,
    side: &str,
    diags: &mut Vec<Diagnostic>,
)
    requires
        old(ports)@.len() == names@.len(),
    ensures
        side_effect(
            port_iris@,
            names@,
            old(ports)@,
            final(ports)@,
            old(diags)@,
            final(diags)@,
            class_path@,
            subject@,
            side@,
        ),
{
    let b = match_names(port_iris, names);
    proof {
        let (matched, order) = binding_spec(leaves_of(port_iris@), names_of(names@));
        if port_iris@.len() == names@.len() {
            lemma_bind_prefix_len(leaves_of(port_iris@), names_of(names@), names@.len());
            lemma_matched_le(order);
        }
    }
    match b {
        Binding::Positional => {},
        Binding::Permuted(order) => {
            proof {
                lemma_permuted_is_permutation(port_iris@, names@, order@);
            }
            let ghost before = ports@;
            apply(order.as_slice(), ports.as_mut_slice());
            proof {
                let spec_order = binding_spec(leaves_of(port_iris@), names_of(names@)).1;
                assert forall|i: int| 0 <= i < spec_order.len() implies ports@[i] == before[spec_order[i]] by {
                    assert(order_view(order@)[i] == spec_order[i]);
                    assert((order@[i] as int) < names@.len());
                    assert(ports@[i] == before[order@[i] as int]);
                }
            }
        },
        Binding::Partial { matched, total } => {
            diags.push(partial_diagnostic(class_path, subject, matched, total, side));
            assert(diags@.drop_last() =~= old(diags)@);
        },
    }
}

/// Check one instance's declared interface against its resolved class signature, then bind its
/// ports. `named` carries the class's declared input and output port names when it declares any.
///
/// Arity is checked first and a disagreement stops there with a `MalformedDocument` error: the
/// engine emits by port index, so a wrong arity must never reach binding. Then each side is bound
/// by [`match_names`]: a full match permutes the side's ports into signature order, a partial one
/// reports `PortNameMismatch`, no match leaves the side positional.
pub fn check_and_bind(
    block: &mut BlockInstance,
    class_path: &str,
    subject: &str,
    want: (usize, usize),
    port_iris: (&[&str], &[&str]),
    named: Option<(&[&str], &[&str])>,
    diags: &mut Vec<Diagnostic>,
)
    requires
        named matches Some((ins, outs)) ==> ins@.len() == want.0 && outs@.len() == want.1,
    ensures
        (old(block).inputs@.len(), old(block).outputs@.len()) != (want.0 as nat, want.1 as nat) ==> {
            &&& *final(block) == *old(block)
            &&& final(diags)@.len() == old(diags)@.len() + 1
            &&& final(diags)@.drop_last() == old(diags)@
            &&& is_error_about(
                final(diags)@.last(),
                DiagCode::MalformedDocument,
                arity_message(
                    class_path@,
                    (old(block).inputs@.len(), old(block).outputs@.len()),
                    (want.0 as nat, want.1 as nat),
                ),
                subject@,
            )
        },
        (old(block).inputs@.len(), old(block).outputs@.len()) == (want.0 as nat, want.1 as nat)
            && named is None ==> *final(block) == *old(block) && final(diags)@ == old(diags)@,
        named matches Some((ins, outs)) ==> ((old(block).inputs@.len(), old(block).outputs@.len())
            == (want.0 as nat, want.1 as nat) ==> {
            &&& final(block).id == old(block).id
            &&& final(block).class_iri == old(block).class_iri
            &&& final(block).params == old(block).params
            &&& final(block).instance_iri == old(block).instance_iri
            &&& exists|mid: Seq<Diagnostic>|
                side_effect(
                    port_iris.0@,
                    ins@,
                    old(block).inputs@,
                    final(block).inputs@,
                    old(diags)@,
                    mid,
                    class_path@,
                    subject@,
                    "input"@,
                ) && side_effect(
                    port_iris.1@,
                    outs@,
                    old(block).outputs@,
                    final(block).outputs@,
                    mid,
                    final(diags)@,
                    class_path@,
                    subject@,
                    "output"@,
                )
        }),
{
    let got = (block.inputs.len(), block.outputs.len());
    if got.0 != want.0 || got.1 != want.1 {
        diags.push(arity_diagnostic(class_path, subject, got, want));
        return;
    }
    match named {
        None => {},
        Some((ins, outs)) => {
            bind_side(port_iris.0, ins, &mut block.inputs, class_path, subject, "input", diags);
            let ghost mid = diags@;
            bind_side(port_iris.1, outs, &mut block.outputs, class_path, subject, "output", diags);
            assert(side_effect(
                port_iris.1@,
                outs@,
                old(block).outputs@,
                block.outputs@,
                mid,
                diags@,
                class_path@,
                subject@,
                "output"@,
            ));
        },
    }
}

} // verus!
