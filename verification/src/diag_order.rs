//! The resolver's deterministic diagnostic order: by the subject's connector id (connector
//! subjects first), then subject, then code name, then message.
use vstd::prelude::*;
use crate::arrays::{all_digits, digits_at, digits_value, lemma_digits_nonneg};
use crate::diag::{code_name, Diagnostic};
use crate::model::ConnectorId;
use crate::strmap::StrMap;
use crate::text::{chars_of, seq_starts_with, starts_with, tail};

verus! {

/// The number an optional `+` followed by ASCII digits spells.
pub open spec fn uint_literal(s: Seq<char>) -> Option<int> {
    if s.len() > 0 && s[0] == '+' && all_digits(s.skip(1)) {
        Some(digits_value(s.skip(1)))
    } else if all_digits(s) {
        Some(digits_value(s))
    } else {
        None
    }
}

/// A literal accepted by [`uint_literal`] spells a natural number.
proof fn lemma_uint_literal_nonneg(s: Seq<char>)
    ensures
        uint_literal(s) matches Some(v) ==> v >= 0,
{
    if s.len() > 0 && s[0] == '+' && all_digits(s.skip(1)) {
        lemma_digits_nonneg(s.skip(1));
    } else if all_digits(s) {
        lemma_digits_nonneg(s);
    }
}

/// `str::parse::<u32>`: an optional `+` followed by one or more ASCII digits whose value fits in
/// `u32`; anything else (a `-` sign, whitespace, underscores, an empty string) is refused.
fn parse_u32(s: &str) -> (r: Option<u32>)
    ensures
        match uint_literal(s@) {
            Some(v) => if v <= u32::MAX {
                r == Some(v as u32)
            } else {
                r is None
            },
            None => r is None,
        },
{
    let chars = chars_of(s);
    let start: usize = if chars.len() > 0 && chars[0] == '+' {
        1
    } else {
        0
    };
    assert(chars@.skip(0) =~= chars@);
    match digits_at(chars.as_slice(), start, 4294967295) {
        Some(u) => Some(u as u32),
        None => None,
    }
}

/// The connector id a subject names: through the source-IRI map, else the synthetic
/// `connector#<n>` form; `u32::MAX` for anything else and for no subject.
pub open spec fn subject_key(subject: Option<String>, conn_of_iri: StrMap<ConnectorId>) -> int {
    match subject {
        None => u32::MAX as int,
        Some(s) => match conn_of_iri.at(s@) {
            Some(c) => c.0 as int,
            None => if seq_starts_with(s@, "connector#"@) {
                match uint_literal(s@.skip(10)) {
                    Some(v) => if v <= u32::MAX {
                        v
                    } else {
                        u32::MAX as int
                    },
                    None => u32::MAX as int,
                }
            } else {
                u32::MAX as int
            },
        },
    }
}

fn key_cid(d: &Diagnostic, conn_of_iri: &StrMap<ConnectorId>) -> (k: u32)
    ensures
        k as int == subject_key(d.subject, *conn_of_iri),
{
    match &d.subject {
        None => u32::MAX,
        Some(s) => match conn_of_iri.get(s.as_str()) {
            Some(c) => c.0,
            None => {
                let sc = chars_of(s.as_str());
                let pc = chars_of("connector#");
                if starts_with(sc.as_slice(), pc.as_slice()) {
                    proof {
                        reveal_strlit("connector#");
                    }
                    assert(s@.len() >= 10);
                    let rest = tail(s.as_str(), 10);
                    assert(rest@ =~= s@.skip(10));
                    let r = parse_u32(rest);
                    proof {
                        lemma_uint_literal_nonneg(rest@);
                    }
                    match r {
                        Some(v) => v,
                        None => u32::MAX,
                    }
                } else {
                    u32::MAX
                }
            },
        },
    }
}

/// The order of two texts by code point, lexicographically: negative, zero or positive.
pub open spec fn text_order(a: Seq<char>, b: Seq<char>) -> int
    decreases a.len(),
{
    if a.len() == 0 {
        if b.len() == 0 {
            0
        } else {
            -1
        }
    } else if b.len() == 0 {
        1
    } else if a[0] < b[0] {
        -1
    } else if a[0] > b[0] {
        1
    } else {
        text_order(a.skip(1), b.skip(1))
    }
}

/// The order of two optional texts: none first.
pub open spec fn opt_text_order(a: Option<Seq<char>>, b: Option<Seq<char>>) -> int {
    match (a, b) {
        (None, None) => 0,
        (None, Some(_)) => -1,
        (Some(_), None) => 1,
        (Some(x), Some(y)) => text_order(x, y),
    }
}

/// The order of two integers.
pub open spec fn int_order(a: int, b: int) -> int {
    if a < b {
        -1
    } else if a > b {
        1
    } else {
        0
    }
}

/// A diagnostic's sort key: its subject's connector id, its subject, its code name, its message.
pub type DiagKey = (int, Option<Seq<char>>, Seq<char>, Seq<char>);

/// The sort key of `d`.
pub open spec fn diag_key(d: Diagnostic, conn_of_iri: StrMap<ConnectorId>) -> DiagKey {
    (
        subject_key(d.subject, conn_of_iri),
        match d.subject {
            Some(s) => Some(s@),
            None => None,
        },
        code_name(d.code),
        d.message@,
    )
}

/// The lexicographic order of two keys.
pub open spec fn key_order(a: DiagKey, b: DiagKey) -> int {
    let c0 = int_order(a.0, b.0);
    let c1 = opt_text_order(a.1, b.1);
    let c2 = text_order(a.2, b.2);
    if c0 != 0 {
        c0
    } else if c1 != 0 {
        c1
    } else if c2 != 0 {
        c2
    } else {
        text_order(a.3, b.3)
    }
}

/// `d` is in key order.
pub open spec fn key_sorted(d: Seq<Diagnostic>, conn_of_iri: StrMap<ConnectorId>) -> bool {
    forall|i: int, j: int|
        0 <= i < j < d.len() ==> key_order(diag_key(#[trigger] d[i], conn_of_iri), diag_key(#[trigger] d[j], conn_of_iri))
            <= 0
}

/// Text order is antisymmetric, and zero exactly on equal texts.
pub proof fn lemma_text_order_antisym(a: Seq<char>, b: Seq<char>)
    ensures
        text_order(a, b) == -text_order(b, a),
        -1 <= text_order(a, b) <= 1,
        (text_order(a, b) == 0) == (a == b),
    decreases a.len(),
{
    if a.len() == 0 && b.len() == 0 {
        assert(a =~= b);
    }
    if a.len() > 0 && b.len() > 0 && a[0] == b[0] {
        lemma_text_order_antisym(a.skip(1), b.skip(1));
        if a.skip(1) == b.skip(1) {
            assert(a =~= seq![a[0]] + a.skip(1));
            assert(b =~= seq![b[0]] + b.skip(1));
        }
    }
}

/// Text order is transitive.
pub proof fn lemma_text_order_trans(a: Seq<char>, b: Seq<char>, c: Seq<char>)
    requires
        text_order(a, b) <= 0,
        text_order(b, c) <= 0,
    ensures
        text_order(a, c) <= 0,
    decreases a.len(),
{
    if a.len() > 0 && b.len() > 0 && c.len() > 0 && a[0] == b[0] && b[0] == c[0] {
        lemma_text_order_trans(a.skip(1), b.skip(1), c.skip(1));
    }
}

/// Key order is antisymmetric, and zero exactly on equal keys.
pub proof fn lemma_key_order_antisym(a: DiagKey, b: DiagKey)
    ensures
        key_order(a, b) == -key_order(b, a),
        (key_order(a, b) == 0) == (a == b),
{
    lemma_text_order_antisym(a.2, b.2);
    lemma_text_order_antisym(a.3, b.3);
    match (a.1, b.1) {
        (Some(x), Some(y)) => lemma_text_order_antisym(x, y),
        _ => {},
    }
}

/// Key order is transitive.
pub proof fn lemma_key_order_trans(a: DiagKey, b: DiagKey, c: DiagKey)
    requires
        key_order(a, b) <= 0,
        key_order(b, c) <= 0,
    ensures
        key_order(a, c) <= 0,
{
    lemma_key_order_antisym(a, b);
    lemma_key_order_antisym(b, c);
    lemma_key_order_antisym(a, c);
    lemma_text_order_antisym(a.2, b.2);
    lemma_text_order_antisym(b.2, c.2);
    lemma_text_order_antisym(a.2, c.2);
    lemma_text_order_antisym(a.3, b.3);
    lemma_text_order_antisym(b.3, c.3);
    lemma_text_order_antisym(a.3, c.3);
    match (a.1, b.1, c.1) {
        (Some(x), Some(y), Some(z)) => {
            lemma_text_order_antisym(x, y);
            lemma_text_order_antisym(y, z);
            lemma_text_order_antisym(x, z);
            if text_order(x, y) <= 0 && text_order(y, z) <= 0 {
                lemma_text_order_trans(x, y, z);
            }
        },
        _ => {},
    }
    if int_order(a.0, b.0) == 0 && int_order(b.0, c.0) == 0 && a.1 == b.1 && b.1 == c.1 {
        if text_order(a.2, b.2) <= 0 && text_order(b.2, c.2) <= 0 {
            lemma_text_order_trans(a.2, b.2, c.2);
        }
        if a.2 == b.2 && b.2 == c.2 {
            lemma_text_order_trans(a.3, b.3, c.3);
        }
    }
}

pub(crate) fn text_order_exec(a: &str, b: &str) -> (r: i8)
    ensures
        r as int == text_order(a@, b@),
{
    let ac = chars_of(a);
    let bc = chars_of(b);
    let mut i: usize = 0;
    assert(a@.skip(0) =~= a@);
    assert(b@.skip(0) =~= b@);
    while i < ac.len() && i < bc.len()
        invariant
            i <= ac@.len(),
            i <= bc@.len(),
            ac@ == a@,
            bc@ == b@,
            text_order(a@, b@) == text_order(a@.skip(i as int), b@.skip(i as int)),
        decreases ac@.len() - i,
    {
        let x = ac[i];
        let y = bc[i];
        assert(a@.skip(i as int)[0] == a@[i as int]);
        assert(b@.skip(i as int)[0] == b@[i as int]);
        if x < y {
            return -1;
        }
        if x > y {
            return 1;
        }
        assert(a@.skip(i as int).skip(1) =~= a@.skip(i + 1));
        assert(b@.skip(i as int).skip(1) =~= b@.skip(i + 1));
        i += 1;
    }
    if ac.len() == bc.len() {
        0
    } else if i == ac.len() {
        -1
    } else {
        1
    }
}

fn key_order_exec(a: &Diagnostic, ka: u32, b: &Diagnostic, kb: u32) -> (r: i8)
    ensures
        r as int == key_order(
            (ka as int, subject_view_of(a.subject), code_name(a.code), a.message@),
            (kb as int, subject_view_of(b.subject), code_name(b.code), b.message@),
        ),
{
    if ka < kb {
        return -1;
    }
    if ka > kb {
        return 1;
    }
    let c1: i8 = match (&a.subject, &b.subject) {
        (None, None) => 0,
        (None, Some(_)) => -1,
        (Some(_), None) => 1,
        (Some(x), Some(y)) => text_order_exec(x.as_str(), y.as_str()),
    };
    if c1 != 0 {
        return c1;
    }
    let c2 = text_order_exec(a.code.as_str(), b.code.as_str());
    if c2 != 0 {
        return c2;
    }
    text_order_exec(a.message.as_str(), b.message.as_str())
}

/// An optional subject as characters.
pub open spec fn subject_view_of(s: Option<String>) -> Option<Seq<char>> {
    match s {
        Some(x) => Some(x@),
        None => None,
    }
}

/// Sort diagnostics into the resolver's deterministic order: ascending by the subject's connector
/// id (a subject naming a connector by its source IRI or as `connector#<n>`; other subjects and
/// none sort after every connector), then by subject (none first), code name and message.
pub fn finalize_diags(diags: Vec<Diagnostic>, conn_of_iri: &StrMap<ConnectorId>) -> (r: Vec<Diagnostic>)
    ensures
        r@.to_multiset() == diags@.to_multiset(),
        key_sorted(r@, *conn_of_iri),
{
    let ghost m = *conn_of_iri;
    let mut out: Vec<Diagnostic> = Vec::new();
    let mut keys: Vec<u32> = Vec::new();
    let mut rest = diags;
    let ghost all = rest@;
    let n = rest.len();
    let mut taken: usize = 0;
    assert(all.take(0) =~= out@);
    while taken < n
        invariant
            n == all.len(),
            m == *conn_of_iri,
            taken <= all.len(),
            rest@ == all.skip(taken as int),
            out@.len() == keys@.len(),
            forall|i: int| 0 <= i < keys@.len() ==> keys@[i] as int == subject_key(out@[i].subject, m),
            out@.to_multiset() == all.take(taken as int).to_multiset(),
            key_sorted(out@, m),
        decreases all.len() - taken,
    {
        let d = rest.remove(0);
        assert(rest@ =~= all.skip(taken + 1));
        assert(d == all[taken as int]);
        let kd = key_cid(&d, conn_of_iri);
        let ghost kdv = diag_key(d, m);
        // The first position whose key is strictly after `d`'s keeps equal keys in arrival order.
        let mut p: usize = 0;
        while p < out.len()
            invariant_except_break
                forall|i: int| 0 <= i < p ==> key_order(diag_key(#[trigger] out@[i], m), kdv) <= 0,
            invariant
                m == *conn_of_iri,
                p <= out@.len(),
                out@.len() == keys@.len(),
                forall|i: int| 0 <= i < keys@.len() ==> keys@[i] as int == subject_key(out@[i].subject, m),
                kd as int == subject_key(d.subject, m),
                kdv == diag_key(d, m),
            ensures
                p <= out@.len(),
                forall|i: int| 0 <= i < p ==> key_order(diag_key(#[trigger] out@[i], m), kdv) <= 0,
                p < out@.len() ==> key_order(kdv, diag_key(out@[p as int], m)) < 0,
            decreases out@.len() - p,
        {
            let c = key_order_exec(&d, kd, &out[p], keys[p]);
            if c < 0 {
                break;
            }
            proof {
                lemma_key_order_antisym(kdv, diag_key(out@[p as int], m));
            }
            p += 1;
        }
        let ghost before = out@;
        proof {
            if p < before.len() {
                lemma_key_order_antisym(kdv, diag_key(before[p as int], m));
            }
        }
        out.insert(p, d);
        keys.insert(p, kd);
        proof {
            assert forall|i: int, j: int| 0 <= i < j < out@.len() implies key_order(
                diag_key(#[trigger] out@[i], m),
                diag_key(#[trigger] out@[j], m),
            ) <= 0 by {
                if i < p && j == p {
                } else if i < p && j > p {
                    assert(out@[j] == before[j - 1]);
                    assert(out@[i] == before[i]);
                } else if i == p && j > p {
                    assert(out@[j] == before[j - 1]);
                    if p < before.len() {
                        if j - 1 == p {
                            lemma_key_order_antisym(diag_key(before[p as int], m), diag_key(before[p as int], m));
                        }
                        lemma_key_order_trans(kdv, diag_key(before[p as int], m), diag_key(before[j - 1], m));
                    }
                } else if j < p {
                    assert(out@[j] == before[j]);
                    assert(out@[i] == before[i]);
                } else {
                    assert(out@[j] == before[j - 1]);
                    assert(out@[i] == before[i - 1]);
                }
            }
            assert forall|i: int| 0 <= i < keys@.len() implies keys@[i] as int == subject_key(out@[i].subject, m) by {
                if i < p {
                    assert(out@[i] == before[i]);
                } else if i > p {
                    assert(out@[i] == before[i - 1]);
                }
            }
            assert(all.take(taken + 1) =~= all.take(taken as int).push(d));
            vstd::seq_lib::to_multiset_insert(before, p as int, d);
            vstd::seq_lib::to_multiset_build(all.take(taken as int), d);
        }
        taken += 1;
    }
    proof {
        assert(all.take(all.len() as int) =~= all);
    }
    out
}

} // verus!
