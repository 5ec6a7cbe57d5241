//! The identifier census of a declaration's expression binding, and the order in which a block's
//! own declaration chain is evaluated.
//!
//! A block's own `hasParameter`/`hasConstant` declarations form one mutual scope: any right-hand
//! side may reference any sibling, earlier or later. Dependency edges come from the identifier
//! heads of `Expr` bindings ([`identifier_heads`]). A local name declared more than once refuses
//! every occurrence after the first; a reference cycle (self-loops included) refuses its
//! participants, one diagnostic per distinct cycle; everything else is evaluated in dependency
//! order, ties broken toward the smallest chained index.
use vstd::prelude::*;
use crate::expr_scan::{
    dotted_end, find_dotted_end, find_ident_end, find_number_end, find_string_end, find_ws_end,
    ident_end, ident_start_at, digit_char_at, is_digit, is_ident_start, lemma_run_ends,
    lemma_scan_ends, number_end, string_end_from, ws_end,
};
use crate::text::{chars_of, slice};

verus! {

/// Where identifiers of a group currently go.
pub const MODE_BODY: u8 = 0;
/// After `for`: the next identifier names an iterator.
pub const MODE_ITER_NAME: u8 = 1;
/// After an iterator name, before `in`.
pub const MODE_AFTER_NAME: u8 = 2;
/// After `in`: identifiers belong to the iterator's range.
pub const MODE_RANGE: u8 = 3;

/// The census state of one bracketed group (the whole expression is the outermost group).
pub ghost struct GroupV {
    pub body: Seq<(usize, usize)>,
    pub iters: Seq<(usize, usize)>,
    pub sources: Seq<(usize, usize)>,
    pub has_for: bool,
    pub mode: u8,
}

pub open spec fn empty_group() -> GroupV {
    GroupV { body: seq![], iters: seq![], sources: seq![], has_for: false, mode: MODE_BODY }
}

/// The text of range `r`.
pub open spec fn text_of(s: Seq<char>, r: (usize, usize)) -> Seq<char> {
    s.subrange(r.0 as int, r.1 as int)
}

/// Range `r` spells one of the iterator names `iters`.
pub open spec fn is_iter_name(s: Seq<char>, iters: Seq<(usize, usize)>, r: (usize, usize)) -> bool {
    exists|k: int| 0 <= k < iters.len() && text_of(s, #[trigger] iters[k]) == text_of(s, r)
}

/// `body` without the identifiers an iterator name shadows.
pub open spec fn unshadowed(
    s: Seq<char>,
    body: Seq<(usize, usize)>,
    iters: Seq<(usize, usize)>,
) -> Seq<(usize, usize)>
    decreases body.len(),
{
    if body.len() == 0 {
        seq![]
    } else {
        let rest = unshadowed(s, body.drop_last(), iters);
        if is_iter_name(s, iters, body.last()) {
            rest
        } else {
            rest.push(body.last())
        }
    }
}

/// What a closed group contributes: for a comprehension, the iterator ranges' heads followed by
/// the body heads no iterator shadows; otherwise its body heads.
pub open spec fn group_result(s: Seq<char>, g: GroupV) -> Seq<(usize, usize)> {
    if g.has_for {
        g.sources + unshadowed(s, g.body, g.iters)
    } else {
        g.body
    }
}

/// Route heads `r` into group `g`.
pub open spec fn add_heads(g: GroupV, r: Seq<(usize, usize)>) -> GroupV {
    if g.mode == MODE_BODY {
        GroupV { body: g.body + r, ..g }
    } else {
        GroupV { sources: g.sources + r, ..g }
    }
}

/// An identifier token inside group `g`.
pub open spec fn emit_ident(g: GroupV, r: (usize, usize)) -> GroupV {
    if g.mode == MODE_ITER_NAME {
        GroupV { iters: g.iters.push(r), mode: MODE_AFTER_NAME, ..g }
    } else {
        add_heads(g, seq![r])
    }
}

pub open spec fn on_for(g: GroupV) -> GroupV {
    GroupV { has_for: true, mode: MODE_ITER_NAME, ..g }
}

pub open spec fn on_in(g: GroupV) -> GroupV {
    if g.mode == MODE_AFTER_NAME {
        GroupV { mode: MODE_RANGE, ..g }
    } else {
        g
    }
}

pub open spec fn on_comma(g: GroupV) -> GroupV {
    if g.mode == MODE_RANGE {
        GroupV { mode: MODE_ITER_NAME, ..g }
    } else {
        g
    }
}

pub open spec fn map_top(st: Seq<GroupV>, g: GroupV) -> Seq<GroupV> {
    st.update(st.len() - 1, g)
}

/// Close the innermost group into its parent (the outermost group never closes early).
pub open spec fn close_group(s: Seq<char>, st: Seq<GroupV>) -> Seq<GroupV> {
    if st.len() <= 1 {
        st
    } else {
        let r = group_result(s, st.last());
        let rest = st.drop_last();
        rest.update(rest.len() - 1, add_heads(rest.last(), r))
    }
}

/// Close every open group and return what the outermost one contributes.
pub open spec fn finish(s: Seq<char>, st: Seq<GroupV>) -> Seq<(usize, usize)>
    decreases st.len(),
{
    if st.len() == 0 {
        seq![]
    } else if st.len() == 1 {
        group_result(s, st[0])
    } else {
        finish(s, close_group(s, st))
    }
}

/// The expression keywords, which never name a declaration.
pub open spec fn is_keyword(w: Seq<char>) -> bool {
    w == "for"@ || w == "in"@ || w == "and"@ || w == "or"@ || w == "not"@ || w == "if"@ || w
        == "then"@ || w == "else"@ || w == "elseif"@ || w == "true"@ || w == "false"@
}

pub open spec fn is_open(c: char) -> bool {
    c == '(' || c == '[' || c == '{'
}

pub open spec fn is_close(c: char) -> bool {
    c == ')' || c == ']' || c == '}'
}

/// One census step at identifier start `i`: the next position and state.
pub open spec fn word_step(s: Seq<char>, i: int, st: Seq<GroupV>) -> (int, Seq<GroupV>) {
    let e = ident_end(s, i + 1);
    let d = dotted_end(s, e);
    let w = s.subrange(i, e);
    if d > e {
        // A qualified path names no sibling declaration.
        (d, st)
    } else if w == "for"@ {
        (e, map_top(st, on_for(st.last())))
    } else if w == "in"@ {
        (e, map_top(st, on_in(st.last())))
    } else if is_keyword(w) {
        (e, st)
    } else if ws_end(s, e) < s.len() && s[ws_end(s, e)] == '(' {
        // A call head resolves against the builtin table, never against the scope.
        (e, st)
    } else {
        (e, map_top(st, emit_ident(st.last(), (i as usize, e as usize))))
    }
}

/// The census of `s` from position `i` in state `st`.
pub open spec fn scan(s: Seq<char>, i: int, st: Seq<GroupV>) -> Seq<(usize, usize)>
    decreases s.len() - i,
{
    if i < 0 || i >= s.len() {
        finish(s, st)
    } else {
        let c = s[i];
        proof {
            lemma_scan_ends(s, i);
            lemma_run_ends(s, i + 1);
        }
        if is_digit(c) {
            scan(s, number_end(s, i), st)
        } else if is_ident_start(c) {
            let (next, st2) = word_step(s, i, st);
            proof {
                lemma_word_step_advances(s, i, st);
            }
            scan(s, next, st2)
        } else if c == '"' {
            scan(s, string_end_from(s, i + 1), st)
        } else if is_open(c) {
            scan(s, i + 1, st.push(empty_group()))
        } else if is_close(c) {
            scan(s, i + 1, close_group(s, st))
        } else if c == ',' {
            scan(s, i + 1, map_top(st, on_comma(st.last())))
        } else {
            scan(s, i + 1, st)
        }
    }
}

pub proof fn lemma_word_step_advances(s: Seq<char>, i: int, st: Seq<GroupV>)
    requires
        0 <= i < s.len(),
    ensures
        i < word_step(s, i, st).0 <= s.len(),
{
    lemma_run_ends(s, i + 1);
    crate::expr_scan::lemma_dotted_end(s, ident_end(s, i + 1));
}

/// The head ranges of the census of `s`.
pub open spec fn head_ranges(s: Seq<char>) -> Seq<(usize, usize)> {
    scan(s, 0, seq![empty_group()])
}


// ---------------------------------------------------------------------------------------------
// The census, executably

/// Every range lies within a text of length `n`.
pub open spec fn ranges_ok(rs: Seq<(usize, usize)>, n: nat) -> bool {
    forall|k: int| 0 <= k < rs.len() ==> (#[trigger] rs[k]).0 <= rs[k].1 <= n
}

pub open spec fn group_ok(g: GroupV, n: nat) -> bool {
    ranges_ok(g.body, n) && ranges_ok(g.iters, n) && ranges_ok(g.sources, n)
}

pub open spec fn stack_ok(st: Seq<GroupV>, n: nat) -> bool {
    forall|k: int| 0 <= k < st.len() ==> group_ok(#[trigger] st[k], n)
}

struct Group {
    body: Vec<(usize, usize)>,
    iters: Vec<(usize, usize)>,
    sources: Vec<(usize, usize)>,
    has_for: bool,
    mode: u8,
}

impl View for Group {
    type V = GroupV;

    closed spec fn view(&self) -> GroupV {
        GroupV {
            body: self.body@,
            iters: self.iters@,
            sources: self.sources@,
            has_for: self.has_for,
            mode: self.mode,
        }
    }
}

spec fn stack_view(st: Seq<Group>) -> Seq<GroupV> {
    st.map_values(|g: Group| g@)
}

proof fn lemma_unshadowed_ok(s: Seq<char>, body: Seq<(usize, usize)>, iters: Seq<(usize, usize)>, n: nat)
    requires
        ranges_ok(body, n),
    ensures
        ranges_ok(unshadowed(s, body, iters), n),
    decreases body.len(),
{
    if body.len() > 0 {
        lemma_unshadowed_ok(s, body.drop_last(), iters, n);
    }
}

proof fn lemma_close_ok(s: Seq<char>, st: Seq<GroupV>, n: nat)
    requires
        stack_ok(st, n),
    ensures
        stack_ok(close_group(s, st), n),
        st.len() >= 1 ==> close_group(s, st).len() >= 1,
{
    if st.len() > 1 {
        let g = st.last();
        assert(group_ok(g, n));
        lemma_unshadowed_ok(s, g.body, g.iters, n);
        let r = group_result(s, g);
        assert(ranges_ok(r, n));
        let rest = st.drop_last();
        assert(group_ok(rest.last(), n));
        assert(group_ok(add_heads(rest.last(), r), n));
    }
}

proof fn lemma_map_top_ok(st: Seq<GroupV>, g: GroupV, n: nat)
    requires
        stack_ok(st, n),
        st.len() >= 1,
        group_ok(g, n),
    ensures
        stack_ok(map_top(st, g), n),
{
}

proof fn lemma_finish_ok(s: Seq<char>, st: Seq<GroupV>, n: nat)
    requires
        stack_ok(st, n),
    ensures
        ranges_ok(finish(s, st), n),
    decreases st.len(),
{
    if st.len() == 1 {
        assert(group_ok(st[0], n));
        lemma_unshadowed_ok(s, st[0].body, st[0].iters, n);
    } else if st.len() > 1 {
        lemma_close_ok(s, st, n);
        lemma_finish_ok(s, close_group(s, st), n);
    }
}

fn same_text(s: &[char], a: (usize, usize), b: (usize, usize)) -> (r: bool)
    requires
        a.0 <= a.1 <= s@.len(),
        b.0 <= b.1 <= s@.len(),
    ensures
        r == (text_of(s@, a) == text_of(s@, b)),
{
    if a.1 - a.0 != b.1 - b.0 {
        assert(text_of(s@, a).len() != text_of(s@, b).len());
        return false;
    }
    let len = a.1 - a.0;
    let mut k: usize = 0;
    while k < len
        invariant
            len == a.1 - a.0 == b.1 - b.0,
            a.0 <= a.1 <= s@.len(),
            b.0 <= b.1 <= s@.len(),
            k <= len,
            forall|j: int| 0 <= j < k ==> #[trigger] text_of(s@, a)[j] == text_of(s@, b)[j],
        decreases len - k,
    {
        if s[a.0 + k] != s[b.0 + k] {
            assert(text_of(s@, a)[k as int] != text_of(s@, b)[k as int]);
            return false;
        }
        k += 1;
    }
    assert(text_of(s@, a) =~= text_of(s@, b));
    true
}

fn names_iterator(s: &[char], iters: &Vec<(usize, usize)>, r: (usize, usize)) -> (b: bool)
    requires
        ranges_ok(iters@, s@.len()),
        r.0 <= r.1 <= s@.len(),
    ensures
        b == is_iter_name(s@, iters@, r),
{
    let mut k: usize = 0;
    while k < iters.len()
        invariant
            ranges_ok(iters@, s@.len()),
            r.0 <= r.1 <= s@.len(),
            k <= iters@.len(),
            forall|j: int| 0 <= j < k ==> text_of(s@, #[trigger] iters@[j]) != text_of(s@, r),
        decreases iters@.len() - k,
    {
        assert(iters@[k as int].0 <= iters@[k as int].1 <= s@.len());
        if same_text(s, iters[k], r) {
            return true;
        }
        k += 1;
    }
    false
}

fn unshadowed_heads(s: &[char], body: &Vec<(usize, usize)>, iters: &Vec<(usize, usize)>) -> (r: Vec<
    (usize, usize),
>)
    requires
        ranges_ok(body@, s@.len()),
        ranges_ok(iters@, s@.len()),
    ensures
        r@ == unshadowed(s@, body@, iters@),
{
    let mut r: Vec<(usize, usize)> = Vec::new();
    let mut i: usize = 0;
    while i < body.len()
        invariant
            ranges_ok(body@, s@.len()),
            ranges_ok(iters@, s@.len()),
            i <= body@.len(),
            r@ == unshadowed(s@, body@.take(i as int), iters@),
        decreases body@.len() - i,
    {
        let h = body[i];
        assert(body@.take(i + 1).drop_last() =~= body@.take(i as int));
        assert(body@.take(i + 1).last() == h);
        assert(body@[i as int].0 <= body@[i as int].1 <= s@.len());
        if !names_iterator(s, iters, h) {
            r.push(h);
        }
        i += 1;
    }
    assert(body@.take(body@.len() as int) =~= body@);
    r
}

fn group_heads(s: &[char], g: Group) -> (r: Vec<(usize, usize)>)
    requires
        group_ok(g@, s@.len()),
    ensures
        r@ == group_result(s@, g@),
{
    if g.has_for {
        let mut sources = g.sources;
        let mut rest = unshadowed_heads(s, &g.body, &g.iters);
        sources.append(&mut rest);
        sources
    } else {
        g.body
    }
}

fn add_group_heads(g: &mut Group, r: Vec<(usize, usize)>)
    ensures
        final(g)@ == add_heads(old(g)@, r@),
{
    let mut r = r;
    if g.mode == MODE_BODY {
        g.body.append(&mut r);
    } else {
        g.sources.append(&mut r);
    }
}

fn close_innermost(s: &[char], stack: &mut Vec<Group>)
    requires
        old(stack)@.len() >= 1,
        stack_ok(stack_view(old(stack)@), s@.len()),
    ensures
        stack_view(final(stack)@) == close_group(s@, stack_view(old(stack)@)),
        final(stack)@.len() >= 1,
{
    proof {
        lemma_close_ok(s@, stack_view(stack@), s@.len());
    }
    if stack.len() <= 1 {
        return;
    }
    let ghost st = stack_view(stack@);
    let top = stack.pop().unwrap();
    assert(top@ == st.last());
    assert(group_ok(st[st.len() - 1], s@.len()));
    let r = group_heads(s, top);
    let mut parent = stack.pop().unwrap();
    assert(parent@ == st[st.len() - 2]);
    add_group_heads(&mut parent, r);
    stack.push(parent);
    assert(stack_view(stack@) =~= close_group(s@, st));
}

fn update_top(stack: &mut Vec<Group>, g: Group)
    requires
        old(stack)@.len() >= 1,
    ensures
        stack_view(final(stack)@) == map_top(stack_view(old(stack)@), g@),
        final(stack)@.len() == old(stack)@.len(),
{
    let ghost st = stack_view(stack@);
    let _ = stack.pop();
    stack.push(g);
    assert(stack_view(stack@) =~= map_top(st, g@));
}

fn word_is(s: &[char], i: usize, e: usize, w: &str) -> (b: bool)
    requires
        i <= e <= s@.len(),
    ensures
        b == (s@.subrange(i as int, e as int) == w@),
{
    let wc = chars_of(w);
    if e - i != wc.len() {
        assert(s@.subrange(i as int, e as int).len() != w@.len());
        return false;
    }
    let mut k: usize = 0;
    while k < wc.len()
        invariant
            wc@ == w@,
            e - i == wc@.len(),
            i <= e <= s@.len(),
            k <= wc@.len(),
            forall|j: int| 0 <= j < k ==> s@[i + j] == wc@[j],
        decreases wc@.len() - k,
    {
        if s[i + k] != wc[k] {
            assert(s@.subrange(i as int, e as int)[k as int] != w@[k as int]);
            return false;
        }
        k += 1;
    }
    assert(s@.subrange(i as int, e as int) =~= w@);
    true
}

fn keyword_at(s: &[char], i: usize, e: usize) -> (b: bool)
    requires
        i <= e <= s@.len(),
    ensures
        b == is_keyword(s@.subrange(i as int, e as int)),
{
    word_is(s, i, e, "for") || word_is(s, i, e, "in") || word_is(s, i, e, "and") || word_is(
        s,
        i,
        e,
        "or",
    ) || word_is(s, i, e, "not") || word_is(s, i, e, "if") || word_is(s, i, e, "then")
        || word_is(s, i, e, "else") || word_is(s, i, e, "elseif") || word_is(s, i, e, "true")
        || word_is(s, i, e, "false")
}

fn new_group() -> (g: Group)
    ensures
        g@ == empty_group(),
{
    Group {
        body: Vec::new(),
        iters: Vec::new(),
        sources: Vec::new(),
        has_for: false,
        mode: MODE_BODY,
    }
}

fn take_top(stack: &mut Vec<Group>) -> (g: Group)
    requires
        old(stack)@.len() >= 1,
    ensures
        g == old(stack)@.last(),
        final(stack)@ == old(stack)@.drop_last(),
{
    stack.pop().unwrap()
}

/// The ranges of the identifier heads of `s`.
fn head_ranges_of(s: &[char]) -> (r: Vec<(usize, usize)>)
    ensures
        r@ == head_ranges(s@),
        ranges_ok(r@, s@.len()),
{
    let n = s.len();
    let mut stack: Vec<Group> = Vec::new();
    stack.push(new_group());
    let mut i: usize = 0;
    assert(stack_view(stack@) =~= seq![empty_group()]);
    while i < n
        invariant
            n == s@.len(),
            i <= n,
            stack@.len() >= 1,
            stack_ok(stack_view(stack@), n as nat),
            scan(s@, i as int, stack_view(stack@)) == head_ranges(s@),
        decreases n - i,
    {
        proof {
            lemma_scan_ends(s@, i as int);
            lemma_run_ends(s@, i + 1);
        }
        let ghost st = stack_view(stack@);
        if digit_char_at(s, i) {
            i = find_number_end(s, i);
        } else if ident_start_at(s, i) {
            proof {
                lemma_word_step_advances(s@, i as int, st);
            }
            let e = find_ident_end(s, i + 1);
            let d = find_dotted_end(s, e);
            if d > e {
                i = d;
            } else if word_is(s, i, e, "for") {
                let mut top = take_top(&mut stack);
                top.has_for = true;
                top.mode = MODE_ITER_NAME;
                stack.push(top);
                assert(stack_view(stack@) =~= map_top(st, on_for(st.last())));
                proof {
                    assert(group_ok(st[st.len() - 1], n as nat));
                    lemma_map_top_ok(st, on_for(st.last()), n as nat);
                }
                i = e;
            } else if word_is(s, i, e, "in") {
                let mut top = take_top(&mut stack);
                if top.mode == MODE_AFTER_NAME {
                    top.mode = MODE_RANGE;
                }
                stack.push(top);
                assert(stack_view(stack@) =~= map_top(st, on_in(st.last())));
                proof {
                    assert(group_ok(st[st.len() - 1], n as nat));
                    lemma_map_top_ok(st, on_in(st.last()), n as nat);
                }
                i = e;
            } else if keyword_at(s, i, e) {
                i = e;
            } else {
                let w = find_ws_end(s, e);
                if w < n && s[w] == '(' {
                    i = e;
                } else {
                    let ghost expected = emit_ident(st.last(), (i as usize, e as usize));
                    let mut top = take_top(&mut stack);
                    assert(top@ == st.last());
                    if top.mode == MODE_ITER_NAME {
                        top.iters.push((i, e));
                        top.mode = MODE_AFTER_NAME;
                    } else if top.mode == MODE_BODY {
                        top.body.push((i, e));
                        assert(top@.body =~= expected.body);
                    } else {
                        top.sources.push((i, e));
                        assert(top@.sources =~= expected.sources);
                    }
                    assert(top@ == expected);
                    assert(group_ok(st.last(), n as nat));
                    assert(group_ok(expected, n as nat));
                    stack.push(top);
                    assert(stack_view(stack@) =~= map_top(st, expected));
                    proof {
                        lemma_map_top_ok(st, expected, n as nat);
                    }
                    i = e;
                }
            }
        } else if s[i] == '"' {
            i = find_string_end(s, i);
        } else if s[i] == '(' || s[i] == '[' || s[i] == '{' {
            stack.push(new_group());
            assert(stack_view(stack@) =~= st.push(empty_group()));
            assert(stack_ok(stack_view(stack@), n as nat));
            i += 1;
        } else if s[i] == ')' || s[i] == ']' || s[i] == '}' {
            proof {
                lemma_close_ok(s@, st, n as nat);
            }
            close_innermost(s, &mut stack);
            i += 1;
        } else if s[i] == ',' {
            let mut top = take_top(&mut stack);
            if top.mode == MODE_RANGE {
                top.mode = MODE_ITER_NAME;
            }
            stack.push(top);
            assert(stack_view(stack@) =~= map_top(st, on_comma(st.last())));
            proof {
                assert(group_ok(st[st.len() - 1], n as nat));
                lemma_map_top_ok(st, on_comma(st.last()), n as nat);
            }
            i += 1;
        } else {
            i += 1;
        }
    }
    while stack.len() > 1
        invariant
            n == s@.len(),
            stack@.len() >= 1,
            stack_ok(stack_view(stack@), n as nat),
            finish(s@, stack_view(stack@)) == head_ranges(s@),
        decreases stack@.len(),
    {
        proof {
            lemma_close_ok(s@, stack_view(stack@), n as nat);
        }
        close_innermost(s, &mut stack);
    }
    proof {
        lemma_finish_ok(s@, stack_view(stack@), n as nat);
    }
    let root = take_top(&mut stack);
    group_heads(s, root)
}

/// The identifier *head* tokens of an expression string, in census order.
///
/// Numeric literals (with their exponents), string literals (escapes included; an unterminated
/// literal runs to the end) and the expression keywords contribute nothing. A dotted path names
/// no sibling declaration and contributes nothing. A name followed, after optional whitespace, by
/// `(` is a call head and contributes nothing; its arguments are scanned. In a comprehension
/// (`sum(j + k for j in source)`), the iterator ranges' heads come first and the body heads
/// follow, without the names the iterators shadow.
pub fn identifier_heads(text: &str) -> (r: Vec<&str>)
    ensures
        r@.len() == head_ranges(text@).len(),
        forall|k: int| 0 <= k < r@.len() ==> (#[trigger] r@[k])@ == text_of(text@, head_ranges(text@)[k]),
{
    let chars = chars_of(text);
    let ranges = head_ranges_of(chars.as_slice());
    let mut r: Vec<&str> = Vec::new();
    let mut k: usize = 0;
    while k < ranges.len()
        invariant
            chars@ == text@,
            ranges@ == head_ranges(text@),
            ranges_ok(ranges@, text@.len()),
            k <= ranges@.len(),
            r@.len() == k,
            forall|j: int| 0 <= j < k ==> (#[trigger] r@[j])@ == text_of(text@, ranges@[j]),
        decreases ranges@.len() - k,
    {
        let (a, b) = ranges[k];
        assert(ranges@[k as int].0 <= ranges@[k as int].1 <= text@.len());
        r.push(slice(text, a, b));
        k += 1;
    }
    r
}

} // verus!
