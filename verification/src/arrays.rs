//! Array-parameter naming: the base name of a preserved array declaration, and the 1-based
//! row-major element names an array expands to (`k[2]` → `k_1`, `k_2`; `B[2,2]` → `B_1_1`,
//! `B_1_2`, `B_2_1`, `B_2_2`, last index fastest).
use vstd::prelude::*;
use crate::diag::{appends, lemma_appends_none, lemma_appends_one, lemma_appends_trans, DiagCode, Diagnostic};
use crate::specialize::{contains_str, names};
use crate::text::{
    chars_of, debug_quoted, debug_str, decimal, decimal_string, find, find_char, i64_string, lemma_find, owned, push_str,
    signed_decimal, slice, trim, trimmed,
};

verus! {

/// The most elements one array parameter may expand to: a guard against an input-derived
/// element count driving an allocation that aborts the process.
pub const MAX_ARRAY_ELEMENTS: usize = 1048576;

/// `name` without its trailing array decoration: everything before the first `[`.
pub open spec fn array_base(name: Seq<char>) -> Seq<char> {
    if find(name, '[') >= 0 {
        name.subrange(0, find(name, '['))
    } else {
        name
    }
}

/// Strip a trailing array decoration from a local name: `k[2]` → `k`, `k` → `k`.
pub fn strip_array_label(name: &str) -> (r: &str)
    ensures
        r@ == array_base(name@),
{
    let chars = chars_of(name);
    proof {
        lemma_find(name@, '[');
    }
    match find_char(chars.as_slice(), '[') {
        Some(i) => slice(name, 0, i),
        None => name,
    }
}

/// The element count of `dims[0..k]`, or `None` once a partial product overflows `usize`.
pub open spec fn checked_count(dims: Seq<usize>, k: nat) -> Option<nat>
    decreases k,
{
    if k == 0 || k > dims.len() {
        Some(1)
    } else {
        match checked_count(dims, (k - 1) as nat) {
            Some(c) => if c * dims[k - 1] > usize::MAX {
                None
            } else {
                Some((c * dims[k - 1]) as nat)
            },
            None => None,
        }
    }
}

/// The element names under `prefix` of an array with the dimension sizes `dims`, row-major.
pub open spec fn element_names(prefix: Seq<char>, dims: Seq<usize>) -> Seq<Seq<char>>
    decreases dims.len(), 1nat, 0nat,
{
    if dims.len() == 0 {
        seq![prefix]
    } else {
        names_upto(prefix, dims, dims[0] as nat)
    }
}

/// The element names under `prefix` whose first index is at most `i`.
pub open spec fn names_upto(prefix: Seq<char>, dims: Seq<usize>, i: nat) -> Seq<Seq<char>>
    decreases dims.len(), 0nat, i,
{
    if dims.len() == 0 {
        seq![]
    } else if i == 0 {
        seq![]
    } else {
        names_upto(prefix, dims, (i - 1) as nat) + element_names(prefix + "_"@ + decimal(i), dims.skip(1))
    }
}

/// The message refusing an element count over [`MAX_ARRAY_ELEMENTS`].
pub open spec fn too_many_message(count: nat) -> Seq<char> {
    "array element count "@ + decimal(count) + " exceeds the maximum supported (1048576)"@
}

/// Append the element names under `prefix` for `dims[d..]`.
fn push_names(prefix: &str, dims: &[usize], d: usize, out: &mut Vec<String>)
    requires
        d <= dims@.len(),
    ensures
        final(out)@.map_values(|s: String| s@) == old(out)@.map_values(|s: String| s@) + element_names(
            prefix@,
            dims@.skip(d as int),
        ),
    decreases dims@.len() - d,
{
    let ghost rest = dims@.skip(d as int);
    if d == dims.len() {
        let ghost before = out@;
        out.push(owned(prefix));
        assert(out@.map_values(|s: String| s@) =~= before.map_values(|s: String| s@).push(prefix@));
        assert(rest =~= Seq::<usize>::empty());
    } else {
        let n = dims[d];
        let len = dims.len();
        assert(rest[0] == n);
        assert(rest.skip(1) =~= dims@.skip(d + 1));
        let ghost start = out@.map_values(|s: String| s@);
        assert(start + names_upto(prefix@, rest, 0) =~= start);
        let mut i: usize = 0;
        while i < n
            invariant
                d < dims@.len(),
                len == dims@.len(),
                n == dims@[d as int],
                rest == dims@.skip(d as int),
                rest.skip(1) == dims@.skip(d + 1),
                i <= n,
                out@.map_values(|s: String| s@) == start + names_upto(prefix@, rest, i as nat),
            decreases n - i,
        {
            i += 1;
            let mut next = owned(prefix);
            push_str(&mut next, "_");
            push_str(&mut next, decimal_string(i).as_str());
            let ghost mid = out@.map_values(|s: String| s@);
            push_names(next.as_str(), dims, d + 1, out);
            assert(out@.map_values(|s: String| s@) =~= start + names_upto(prefix@, rest, i as nat));
        }
    }
}

/// The 1-based row-major element names of the array `base` with the given dimension sizes,
/// last index fastest; empty when a dimension is 0. Refused before anything is allocated when
/// the element count overflows `usize` or exceeds [`MAX_ARRAY_ELEMENTS`].
pub fn array_element_names(base: &str, dims: &[usize]) -> (r: Result<Vec<String>, String>)
    ensures
        checked_count(dims@, dims@.len()) is None ==> (r matches Err(m) && m@
            == "array element count overflows usize"@),
        checked_count(dims@, dims@.len()) matches Some(c) ==> (if c > MAX_ARRAY_ELEMENTS {
            r matches Err(m) && m@ == too_many_message(c)
        } else {
            r matches Ok(v) && v@.map_values(|s: String| s@) == element_names(base@, dims@)
        }),
{
    let mut count: usize = 1;
    let mut k: usize = 0;
    while k < dims.len()
        invariant
            k <= dims@.len(),
            checked_count(dims@, k as nat) == Some(count as nat),
        decreases dims@.len() - k,
    {
        match count.checked_mul(dims[k]) {
            Some(c) => {
                count = c;
            },
            None => {
                proof {
                    lemma_count_stays_none(dims@, (k + 1) as nat, dims@.len());
                }
                return Err(owned("array element count overflows usize"));
            },
        }
        k += 1;
    }
    assert(dims@.skip(0) =~= dims@);
    if count > MAX_ARRAY_ELEMENTS {
        let mut m = owned("array element count ");
        push_str(&mut m, decimal_string(count).as_str());
        push_str(&mut m, " exceeds the maximum supported (1048576)");
        return Err(m);
    }
    let mut names: Vec<String> = Vec::new();
    push_names(base, dims, 0, &mut names);
    assert(names@.map_values(|s: String| s@) =~= element_names(base@, dims@));
    Ok(names)
}

proof fn lemma_count_stays_none(dims: Seq<usize>, k: nat, n: nat)
    requires
        checked_count(dims, k) is None,
        k <= n <= dims.len(),
    ensures
        checked_count(dims, n) is None,
    decreases n - k,
{
    if n > k {
        lemma_count_stays_none(dims, k, (n - 1) as nat);
    }
}

// ---- the `sizeOfDimensions` string ----

/// The pieces of `s` between occurrences of `c`, as `str::split` yields them.
pub open spec fn split_v(s: Seq<char>, c: char) -> Seq<Seq<char>>
    decreases s.len(),
{
    if s.len() == 0 {
        seq![seq![]]
    } else {
        let r = split_v(s.drop_last(), c);
        if s.last() == c {
            r.push(seq![])
        } else {
            r.drop_last().push(r.last().push(s.last()))
        }
    }
}

/// `t` is wrapped in one pair of parentheses.
pub open spec fn parenthesized(t: Seq<char>) -> bool {
    t.len() >= 2 && t[0] == '(' && t.last() == ')'
}

/// The trimmed dimension terms of a parenthesized `sizeOfDimensions` string.
pub open spec fn dimension_terms(size: Seq<char>) -> Seq<Seq<char>> {
    let t = trimmed(size);
    split_v(t.subrange(1, t.len() - 1), ',').map_values(|p: Seq<char>| trimmed(p))
}

/// Split a `sizeOfDimensions` string `"(d1, d2, …)"` into its trimmed dimension terms, in
/// order; a term may be empty. A string that is not parenthesized once trimmed is refused.
pub fn size_terms(size: &str) -> (r: Result<Vec<String>, String>)
    ensures
        match r {
            Ok(terms) => parenthesized(trimmed(size@)) && names(terms@) == dimension_terms(size@),
            Err(m) => !parenthesized(trimmed(size@)) && m@ == "sizeOfDimensions "@ + debug_quoted(size@)
                + " is not parenthesized"@,
        },
{
    let t = trim(size);
    let tc = chars_of(t);
    let n = tc.len();
    if !(n >= 2 && tc[0] == '(' && tc[n - 1] == ')') {
        let mut m = owned("sizeOfDimensions ");
        push_str(&mut m, debug_str(size).as_str());
        push_str(&mut m, " is not parenthesized");
        return Err(m);
    }
    let inner = slice(t, 1, n - 1);
    let ic = chars_of(inner);
    let ghost iv = inner@;
    let mut terms: Vec<String> = Vec::new();
    let ghost mut segs: Seq<Seq<char>> = seq![];
    let mut start: usize = 0;
    let mut k: usize = 0;
    assert(iv.take(0) =~= seq![]);
    assert(iv.subrange(0, 0) =~= seq![]);
    while k < ic.len()
        invariant
            ic@ == iv,
            iv == inner@,
            start <= k <= ic@.len(),
            split_v(iv.take(k as int), ',') == segs.push(iv.subrange(start as int, k as int)),
            names(terms@) == segs.map_values(|p: Seq<char>| trimmed(p)),
        decreases ic@.len() - k,
    {
        assert(iv.take(k + 1).drop_last() =~= iv.take(k as int));
        if ic[k] == ',' {
            let piece = slice(inner, start, k);
            let ghost t0 = names(terms@);
            terms.push(owned(trim(piece)));
            proof {
                assert(names(terms@) =~= t0.push(trimmed(piece@)));
                segs = segs.push(iv.subrange(start as int, k as int));
                assert(iv.subrange(k + 1, k + 1) =~= seq![]);
            }
            start = k + 1;
        } else {
            assert(iv.subrange(start as int, k + 1) =~= iv.subrange(start as int, k as int).push(iv[k as int]));
        }
        k += 1;
    }
    let piece = slice(inner, start, ic.len());
    let ghost t0 = names(terms@);
    terms.push(owned(trim(piece)));
    proof {
        assert(iv.take(iv.len() as int) =~= iv);
        assert(names(terms@) =~= t0.push(trimmed(piece@)));
        assert(segs.push(piece@).map_values(|p: Seq<char>| trimmed(p)) =~= segs.map_values(|p: Seq<char>| trimmed(p)).push(
            trimmed(piece@),
        ));
    }
    Ok(terms)
}

/// The value of a non-empty run of ASCII decimal digits.
pub open spec fn digits_value(d: Seq<char>) -> int
    decreases d.len(),
{
    if d.len() == 0 {
        0
    } else {
        digits_value(d.drop_last()) * 10 + (d.last() as int - '0' as int)
    }
}

/// `d` is a non-empty run of ASCII decimal digits.
pub open spec fn all_digits(d: Seq<char>) -> bool {
    d.len() > 0 && forall|i: int| 0 <= i < d.len() ==> '0' <= #[trigger] d[i] <= '9'
}

/// The integer an optional `+` or `-` sign followed by ASCII digits spells.
pub open spec fn int_literal(s: Seq<char>) -> Option<int> {
    if s.len() > 0 && s[0] == '-' && all_digits(s.skip(1)) {
        Some(-digits_value(s.skip(1)))
    } else if s.len() > 0 && s[0] == '+' && all_digits(s.skip(1)) {
        Some(digits_value(s.skip(1)))
    } else if all_digits(s) {
        Some(digits_value(s))
    } else {
        None
    }
}

/// A run of ASCII digits has a non-negative value.
pub proof fn lemma_digits_nonneg(d: Seq<char>)
    requires
        forall|i: int| 0 <= i < d.len() ==> '0' <= #[trigger] d[i] <= '9',
    ensures
        digits_value(d) >= 0,
    decreases d.len(),
{
    if d.len() > 0 {
        lemma_digits_nonneg(d.drop_last());
    }
}

/// A run of ASCII digits is worth at least any of its prefixes.
proof fn lemma_digits_prefix(d: Seq<char>, i: int)
    requires
        forall|k: int| 0 <= k < d.len() ==> '0' <= #[trigger] d[k] <= '9',
        0 <= i <= d.len(),
    ensures
        digits_value(d) >= digits_value(d.take(i)),
    decreases d.len(),
{
    if i < d.len() {
        assert(d.drop_last().take(i) =~= d.take(i));
        lemma_digits_prefix(d.drop_last(), i);
        lemma_digits_nonneg(d.drop_last());
    } else {
        assert(d.take(i) =~= d);
    }
}

/// The value of the ASCII digits of `s` from `start` on, when they are one or more digits and
/// the value is at most `bound`.
pub fn digits_at(s: &[char], start: usize, bound: u64) -> (r: Option<u64>)
    requires
        start <= s@.len(),
    ensures
        match r {
            Some(v) => all_digits(s@.skip(start as int)) && v == digits_value(s@.skip(start as int)) && v <= bound,
            None => !all_digits(s@.skip(start as int)) || digits_value(s@.skip(start as int)) > bound,
        },
{
    let ghost d = s@.skip(start as int);
    if start >= s.len() {
        return None;
    }
    let mut acc: u64 = 0;
    let mut i: usize = start;
    assert(d.take(0) =~= Seq::<char>::empty());
    while i < s.len()
        invariant
            start < s@.len(),
            d == s@.skip(start as int),
            start <= i <= s@.len(),
            acc as int == digits_value(d.take(i - start)),
            acc <= bound,
            forall|k: int| 0 <= k < i - start ==> '0' <= #[trigger] d[k] <= '9',
        decreases s@.len() - i,
    {
        let c = s[i];
        assert(d[i - start] == c);
        if !('0' <= c && c <= '9') {
            return None;
        }
        let digit = (c as u32 - '0' as u32) as u64;
        let next: u128 = acc as u128 * 10 + digit as u128;
        assert(d.take(i - start + 1).drop_last() =~= d.take(i - start));
        assert(digits_value(d.take(i - start + 1)) == next);
        if next > bound as u128 {
            proof {
                if all_digits(d) {
                    lemma_digits_prefix(d, i - start + 1);
                }
            }
            return None;
        }
        acc = next as u64;
        i += 1;
    }
    assert(d.take(i - start) =~= d);
    Some(acc)
}

/// `str::parse::<i64>`: an optional `+` or `-` sign followed by one or more ASCII digits whose
/// value fits in `i64`; anything else, whitespace and underscores included, is refused.
pub fn dimension_literal(term: &str) -> (r: Option<i64>)
    ensures
        match int_literal(term@) {
            Some(v) => if i64::MIN <= v <= i64::MAX {
                r == Some(v as i64)
            } else {
                r is None
            },
            None => r is None,
        },
{
    let chars = chars_of(term);
    if chars.len() > 0 && chars[0] == '-' {
        match digits_at(chars.as_slice(), 1, 9223372036854775808) {
            Some(u) => if u == 9223372036854775808 {
                Some(i64::MIN)
            } else {
                Some(-(u as i64))
            },
            None => None,
        }
    } else if chars.len() > 0 && chars[0] == '+' {
        match digits_at(chars.as_slice(), 1, 9223372036854775807) {
            Some(u) => Some(u as i64),
            None => None,
        }
    } else {
        assert(chars@.skip(0) =~= chars@);
        match digits_at(chars.as_slice(), 0, 9223372036854775807) {
            Some(u) => Some(u as i64),
            None => None,
        }
    }
}

/// The refusal of an empty dimension term.
pub open spec fn empty_dimension_message(size: Seq<char>) -> Seq<char> {
    "empty array dimension in sizeOfDimensions "@ + debug_quoted(size)
}

/// The refusal of a negative dimension.
pub open spec fn negative_dimension_message(n: int, size: Seq<char>) -> Seq<char> {
    "negative array dimension "@ + signed_decimal(n) + " in sizeOfDimensions "@ + debug_quoted(size)
}

/// The dimension sizes of the first `k` resolved terms, or the first term's refusal: an empty
/// term, a term that did not resolve (its message), or a negative size.
pub open spec fn dims_v(size: Seq<char>, values: Seq<Option<Result<i64, String>>>, k: nat) -> Result<Seq<usize>, Seq<char>>
    decreases k,
{
    if k == 0 || k > values.len() {
        Ok(seq![])
    } else {
        match dims_v(size, values, (k - 1) as nat) {
            Err(e) => Err(e),
            Ok(d) => match values[k - 1] {
                None => Err(empty_dimension_message(size)),
                Some(Err(m)) => Err(m@),
                Some(Ok(n)) => if n < 0 {
                    Err(negative_dimension_message(n as int, size))
                } else {
                    Ok(d.push(n as usize))
                },
            },
        }
    }
}

/// The refusal of a `numberDimensions` that disagrees with the term count.
pub open spec fn arity_message(nd: i64, len: nat) -> Seq<char> {
    "numberDimensions "@ + signed_decimal(nd as int) + " disagrees with sizeOfDimensions arity "@ + decimal(len)
}

/// Check the resolved dimension terms of `size`, in term order: `None` for an empty term, else
/// the term's integer value or the message saying why it did not resolve to one. The first
/// failing term is refused; then a `numberDimensions` that is negative or disagrees with the
/// term count is refused.
pub fn check_dims(size: &str, n_dims: Option<i64>, values: &[Option<Result<i64, String>>]) -> (r: Result<
    Vec<usize>,
    String,
>)
    ensures
        match dims_v(size@, values@, values@.len()) {
            Err(e) => r matches Err(m) && m@ == e,
            Ok(d) => match n_dims {
                Some(nd) if nd < 0 || nd as int != d.len() => r matches Err(m) && m@ == arity_message(nd, d.len()),
                _ => r matches Ok(v) && v@ == d,
            },
        },
{
    let mut dims: Vec<usize> = Vec::new();
    let mut k: usize = 0;
    while k < values.len()
        invariant
            k <= values@.len(),
            dims_v(size@, values@, k as nat) == Ok::<Seq<usize>, Seq<char>>(dims@),
        decreases values@.len() - k,
    {
        match &values[k] {
            None => {
                let mut m = owned("empty array dimension in sizeOfDimensions ");
                push_str(&mut m, debug_str(size).as_str());
                proof {
                    lemma_dims_err(size@, values@, (k + 1) as nat, values@.len());
                }
                return Err(m);
            },
            Some(Err(e)) => {
                proof {
                    lemma_dims_err(size@, values@, (k + 1) as nat, values@.len());
                }
                return Err(owned(e.as_str()));
            },
            Some(Ok(n)) => {
                if *n < 0 {
                    let mut m = owned("negative array dimension ");
                    push_str(&mut m, i64_string(*n).as_str());
                    push_str(&mut m, " in sizeOfDimensions ");
                    push_str(&mut m, debug_str(size).as_str());
                    proof {
                        lemma_dims_err(size@, values@, (k + 1) as nat, values@.len());
                    }
                    return Err(m);
                }
                dims.push(*n as usize);
            },
        }
        k += 1;
    }
    if let Some(nd) = n_dims {
        if nd < 0 || nd as u64 != dims.len() as u64 {
            let mut m = owned("numberDimensions ");
            push_str(&mut m, i64_string(nd).as_str());
            push_str(&mut m, " disagrees with sizeOfDimensions arity ");
            push_str(&mut m, decimal_string(dims.len()).as_str());
            return Err(m);
        }
    }
    Ok(dims)
}

proof fn lemma_dims_err(size: Seq<char>, values: Seq<Option<Result<i64, String>>>, k: nat, m: nat)
    requires
        1 <= k <= m <= values.len(),
        dims_v(size, values, k) is Err,
    ensures
        dims_v(size, values, m) == dims_v(size, values, k),
    decreases m - k,
{
    if m > k {
        lemma_dims_err(size, values, k, (m - 1) as nat);
    }
}

/// The collision of a minted element name with a sibling parameter.
pub open spec fn collision_finding(ename: Seq<char>, piri: Seq<char>) -> (DiagCode, Seq<char>, Option<Seq<char>>) {
    (
        DiagCode::ArrayFlattenCollision,
        "array element "@ + debug_quoted(ename) + " collides with an existing sibling parameter of the same name"@,
        Some(piri),
    )
}

/// Refuse a minted element name that a sibling parameter of the instance already uses;
/// whether it was refused.
pub fn collides_with_sibling(siblings: &Vec<String>, ename: &str, piri: &str, diags: &mut Vec<Diagnostic>) -> (b: bool)
    ensures
        b == names(siblings@).contains(ename@),
        b ==> appends(old(diags)@, final(diags)@, seq![collision_finding(ename@, piri@)]),
        !b ==> final(diags)@ == old(diags)@,
{
    if !contains_str(siblings, ename) {
        return false;
    }
    let mut m = owned("array element ");
    push_str(&mut m, debug_str(ename).as_str());
    push_str(&mut m, " collides with an existing sibling parameter of the same name");
    let d = Diagnostic::error(DiagCode::ArrayFlattenCollision, m).with_subject(owned(piri));
    proof {
        lemma_appends_one(diags@, d, collision_finding(ename@, piri@));
    }
    diags.push(d);
    true
}


/// A list of `m` element values fits an array of `n` elements: one value per element, or a
/// single value broadcast to a non-empty array.
pub open spec fn list_fits(n: nat, m: nat) -> bool {
    m == n || (m == 1 && n >= 1)
}

/// The refusal of a value list whose length fits neither way.
pub open spec fn length_finding(piri: Seq<char>, m: nat, n: nat) -> (DiagCode, Seq<char>, Option<Seq<char>>) {
    (
        DiagCode::GroundingFailed,
        "array value list has "@ + decimal(m) + " element(s) but the declared dimensions imply "@ + decimal(n),
        Some(piri),
    )
}

/// The elements among the first `k` minted names that ground, each with the position of the
/// list value it takes (the single value when broadcast): every name no sibling uses.
pub open spec fn grounded_elements(ns: Seq<Seq<char>>, m: nat, siblings: Seq<Seq<char>>, k: nat) -> Seq<(Seq<char>, nat)>
    decreases k,
{
    if k == 0 || k > ns.len() {
        seq![]
    } else {
        grounded_elements(ns, m, siblings, (k - 1) as nat) + if siblings.contains(ns[k - 1]) {
            seq![]
        } else {
            seq![(ns[k - 1], if m == 1 { 0nat } else { (k - 1) as nat })]
        }
    }
}

/// The collisions among the first `k` minted names, in order.
pub open spec fn collisions(ns: Seq<Seq<char>>, siblings: Seq<Seq<char>>, piri: Seq<char>, k: nat) -> Seq<
    (DiagCode, Seq<char>, Option<Seq<char>>),
>
    decreases k,
{
    if k == 0 || k > ns.len() {
        seq![]
    } else {
        collisions(ns, siblings, piri, (k - 1) as nat) + if siblings.contains(ns[k - 1]) {
            seq![collision_finding(ns[k - 1], piri)]
        } else {
            seq![]
        }
    }
}

/// Lay a preserved array's value list of `m` entries over its minted element names `names`:
/// a list of the wrong length is refused; otherwise each element a sibling parameter already
/// names is refused, and every other element is listed with the position of the value it
/// grounds from, in element order.
pub fn plan_list_elements(
    piri: &str,
    names_in: &Vec<String>,
    m: usize,
    siblings: &Vec<String>,
    diags: &mut Vec<Diagnostic>,
) -> (r: Option<Vec<(String, usize)>>)
    ensures
        !list_fits(names_in@.len(), m as nat) ==> r is None && appends(
            old(diags)@,
            final(diags)@,
            seq![length_finding(piri@, m as nat, names_in@.len())],
        ),
        list_fits(names_in@.len(), m as nat) ==> (r matches Some(v) && v@.map_values(
            |e: (String, usize)| (e.0@, e.1 as nat),
        ) == grounded_elements(names(names_in@), m as nat, names(siblings@), names_in@.len()) && appends(
            old(diags)@,
            final(diags)@,
            collisions(names(names_in@), names(siblings@), piri@, names_in@.len()),
        )),
{
    let n = names_in.len();
    if !(m == n || (m == 1 && n >= 1)) {
        let mut msg = owned("array value list has ");
        push_str(&mut msg, decimal_string(m).as_str());
        push_str(&mut msg, " element(s) but the declared dimensions imply ");
        push_str(&mut msg, decimal_string(n).as_str());
        let d = Diagnostic::error(DiagCode::GroundingFailed, msg).with_subject(owned(piri));
        proof {
            lemma_appends_one(diags@, d, length_finding(piri@, m as nat, n as nat));
        }
        diags.push(d);
        return None;
    }
    let ghost ns = names(names_in@);
    let ghost sibs = names(siblings@);
    let mut out: Vec<(String, usize)> = Vec::new();
    proof {
        lemma_appends_none(diags@);
    }
    let mut k: usize = 0;
    while k < n
        invariant
            n == names_in@.len(),
            ns == names(names_in@),
            sibs == names(siblings@),
            list_fits(n as nat, m as nat),
            k <= n,
            out@.map_values(|e: (String, usize)| (e.0@, e.1 as nat)) == grounded_elements(ns, m as nat, sibs, k as nat),
            appends(old(diags)@, diags@, collisions(ns, sibs, piri@, k as nat)),
        decreases n - k,
    {
        let ghost before = diags@;
        let ghost prev = out@;
        assert(ns[k as int] == names_in@[k as int]@);
        if collides_with_sibling(siblings, names_in[k].as_str(), piri, diags) {
            proof {
                lemma_appends_trans(
                    old(diags)@,
                    before,
                    diags@,
                    collisions(ns, sibs, piri@, k as nat),
                    seq![collision_finding(ns[k as int], piri@)],
                );
            }
        } else {
            let source: usize = if m == 1 {
                0
            } else {
                k
            };
            out.push((names_in[k].clone(), source));
            proof {
                assert(out@.map_values(|e: (String, usize)| (e.0@, e.1 as nat)) =~= prev.map_values(
                    |e: (String, usize)| (e.0@, e.1 as nat),
                ).push((ns[k as int], source as nat)));
                assert(collisions(ns, sibs, piri@, (k + 1) as nat) =~= collisions(ns, sibs, piri@, k as nat));
            }
        }
        k += 1;
    }
    Some(out)
}

} // verus!
