//! JSON-LD `@context` expansion of a document's identity and typing tokens.
//!
//! One uniform pass over the typed document slots, so compact and expanded spellings of the
//! same subject IRI key the same point, block, model and datatype:
//!
//! - **Identity slots**: every node `@id` and every [`IriRef`] in `hasInput`, `hasOutput`,
//!   `hasParameter`, `hasConstant`, `containsBlock`, `hasInstance` and `isConnectedTo`. A
//!   whole-token `@context` term match or a CURIE with a declared prefix expands; a token whose
//!   first `:` is followed by `//` is never CURIE-split and stays as written; any other token
//!   stays as written only when it is itself a syntactically absolute IRI. What remains is a
//!   relative IRI reference and is refused with `RelativeIri`. An empty `@id` is left alone.
//! - **Typing slots**: every `@type` value and the `isOfDataType` reference, expanded
//!   best-effort: whatever does not expand stays verbatim and is never refused here.
//!
//! The `@context` is an inline prefix map, or a list of maps merged in order with later
//! bindings winning. `@base` and `@vocab` are refused; other `@` keywords are skipped; a prefix
//! must bind an absolute IRI; a remote context is refused. Context refusals return alone,
//! before any slot is inspected.
use vstd::prelude::*;
use crate::diag::{appends, is_finding, lemma_appends_none, lemma_appends_one, lemma_appends_trans, DiagCode, Diagnostic};
use crate::json::{json_text, render_json};
use crate::dto::{Context, CxfDocument, IriRef, JsonValue, Node, OneOrMany};
use crate::port_binding::str_eq;
use vstd::hash_map::StringHashMap;
use vstd::hash_set::StringHashSet;
use crate::text::{chars_of, find, find_char, lemma_find, owned, push_str, seq_starts_with, slice, starts_with, tail};

verus! {

// ---- the prefix table ----

/// Declared `@context` prefix/term substitutions, term → IRI.
pub struct PrefixTable {
    map: StringHashMap<String>,
}

impl View for PrefixTable {
    type V = Map<Seq<char>, Seq<char>>;

    closed spec fn view(&self) -> Map<Seq<char>, Seq<char>> {
        self.map@.map_values(|v: String| v@)
    }
}

impl PrefixTable {
    /// An empty table.
    pub fn new() -> (t: PrefixTable)
        ensures
            t@ == Map::<Seq<char>, Seq<char>>::empty(),
    {
        let t = PrefixTable { map: StringHashMap::new() };
        assert(t@ =~= Map::<Seq<char>, Seq<char>>::empty());
        t
    }

    /// The IRI `key` is bound to.
    pub fn get(&self, key: &str) -> (r: Option<&str>)
        ensures
            match r {
                Some(v) => self@.contains_key(key@) && self@[key@] == v@,
                None => !self@.contains_key(key@),
            },
    {
        match self.map.get(key) {
            Some(v) => Some(v.as_str()),
            None => None,
        }
    }

    /// Bind `term` to `iri`, replacing an earlier binding of `term`.
    pub fn insert(&mut self, term: &str, iri: &str)
        ensures
            final(self)@ == old(self)@.insert(term@, iri@),
    {
        let ghost before = self@;
        self.map.insert(owned(term), owned(iri));
        assert(self@ =~= before.insert(term@, iri@));
    }

    /// The number of bound terms.
    pub fn len(&self) -> (n: usize)
        ensures
            n == self@.len(),
    {
        assert(self@.dom() =~= self.map@.dom());
        self.map.len()
    }
}

// ---- absolute IRIs ----

/// An ASCII letter.
pub open spec fn is_ascii_alpha(c: char) -> bool {
    ('a' <= c <= 'z') || ('A' <= c <= 'Z')
}

/// A character of an RFC 3986 scheme after its first letter.
pub open spec fn is_scheme_char(c: char) -> bool {
    is_ascii_alpha(c) || ('0' <= c <= '9') || c == '+' || c == '-' || c == '.'
}

/// `v` contains a `:` and everything before the first colon is a nonempty RFC 3986 scheme: a
/// letter, then letters, digits, `+`, `-` or `.`.
pub open spec fn is_absolute(v: Seq<char>) -> bool {
    let c = find(v, ':');
    &&& c > 0
    &&& is_ascii_alpha(v[0])
    &&& forall|i: int| 1 <= i < c ==> is_scheme_char(#[trigger] v[i])
}

/// Whether `value` is a syntactically absolute IRI (form, not reachability: `S231:x` passes).
pub fn is_absolute_iri(value: &str) -> (b: bool)
    ensures
        b == is_absolute(value@),
{
    let chars = chars_of(value);
    proof {
        lemma_find(value@, ':');
    }
    match find_char(chars.as_slice(), ':') {
        None => false,
        Some(c) => {
            if c == 0 {
                return false;
            }
            let first = chars[0];
            if !(('a' <= first && first <= 'z') || ('A' <= first && first <= 'Z')) {
                return false;
            }
            let mut i: usize = 1;
            while i < c
                invariant
                    chars@ == value@,
                    c as int == find(value@, ':'),
                    c < chars@.len(),
                    1 <= i <= c,
                    forall|j: int| 1 <= j < i ==> is_scheme_char(#[trigger] value@[j]),
                decreases c - i,
            {
                let ch = chars[i];
                if !(('a' <= ch && ch <= 'z') || ('A' <= ch && ch <= 'Z') || ('0' <= ch && ch <= '9') || ch == '+'
                    || ch == '-' || ch == '.') {
                    return false;
                }
                i += 1;
            }
            true
        },
    }
}

// ---- expanding one token ----

/// The outcome of expanding one token, as a specification value.
pub ghost enum ExpansionV {
    Expanded(Seq<char>),
    Verbatim,
    Relative,
}

/// The outcome of expanding one token against the prefix table.
pub enum Expansion {
    /// A whole-token term match or a CURIE with a declared prefix: the canonical form.
    Expanded(String),
    /// Kept as written: a `//`-suffix token, or an undeclared-prefix token that is already a
    /// syntactically absolute IRI.
    Verbatim,
    /// No canonical absolute form.
    Relative,
}

impl Expansion {
    pub open spec fn view(&self) -> ExpansionV {
        match self {
            Expansion::Expanded(s) => ExpansionV::Expanded(s@),
            Expansion::Verbatim => ExpansionV::Verbatim,
            Expansion::Relative => ExpansionV::Relative,
        }
    }
}

/// How `token` expands: a whole-token term match wins; else a token without `:` is relative; a
/// `//` after the first `:` keeps it verbatim; a declared prefix expands to its IRI followed by
/// the suffix; an undeclared prefix keeps an absolute token verbatim and refuses the rest.
pub open spec fn expansion(token: Seq<char>, t: Map<Seq<char>, Seq<char>>) -> ExpansionV {
    if t.contains_key(token) {
        ExpansionV::Expanded(t[token])
    } else {
        {
            let c = find(token, ':');
            if c < 0 {
                ExpansionV::Relative
            } else {
                let prefix = token.subrange(0, c);
                let suffix = token.subrange(c + 1, token.len() as int);
                if seq_starts_with(suffix, seq!['/', '/']) {
                    ExpansionV::Verbatim
                } else {
                    if t.contains_key(prefix) {
                        ExpansionV::Expanded(t[prefix] + suffix)
                    } else if is_absolute(token) {
                        ExpansionV::Verbatim
                    } else {
                        ExpansionV::Relative
                    }
                }
            }
        }
    }
}

/// Classify and expand one token.
pub fn expand_token(token: &str, table: &PrefixTable) -> (r: Expansion)
    ensures
        r.view() == expansion(token@, table@),
{
    if let Some(iri) = table.get(token) {
        return Expansion::Expanded(owned(iri));
    }
    let chars = chars_of(token);
    proof {
        lemma_find(token@, ':');
    }
    match find_char(chars.as_slice(), ':') {
        None => Expansion::Relative,
        Some(c) => {
            let n = chars.len();
            assert(c < n);
            let prefix = slice(token, 0, c);
            let suffix = tail(token, c + 1);
            let suffix_chars = chars_of(suffix);
            let slashes = ['/', '/'];
            assert(slashes@ =~= seq!['/', '/']);
            if starts_with(suffix_chars.as_slice(), slashes.as_slice()) {
                return Expansion::Verbatim;
            }
            match table.get(prefix) {
                Some(iri) => {
                    let mut r = owned(iri);
                    push_str(&mut r, suffix);
                    Expansion::Expanded(r)
                },
                None => if is_absolute_iri(token) {
                    Expansion::Verbatim
                } else {
                    Expansion::Relative
                },
            }
        },
    }
}

// ---- the `@context` ----

/// A `@context` finding: code, message, subject.
pub open spec fn finding(code: DiagCode, message: Seq<char>, subject: Option<Seq<char>>) -> (
    DiagCode,
    Seq<char>,
    Option<Seq<char>>,
) {
    (code, message, subject)
}

/// `term` is a JSON-LD keyword.
pub open spec fn is_keyword(term: Seq<char>) -> bool {
    term.len() > 0 && term[0] == '@'
}

/// The prefix through which `iri` is a compact IRI of the context terms `terms`: the part
/// before its first `:`, when it is one of `terms` and what follows the colon does not start
/// with `//`.
pub open spec fn nested_prefix(iri: Seq<char>, terms: Set<Seq<char>>) -> Option<Seq<char>> {
    let c = find(iri, ':');
    if c >= 0 && !seq_starts_with(iri.subrange(c + 1, iri.len() as int), seq!['/', '/']) && terms.contains(
        iri.subrange(0, c),
    ) {
        Some(iri.subrange(0, c))
    } else {
        None
    }
}

/// The refusal of a term whose value is a compact IRI through the context's own prefix.
pub open spec fn nested_finding(term: Seq<char>, iri: Seq<char>, prefix: Seq<char>) -> (
    DiagCode,
    Seq<char>,
    Option<Seq<char>>,
) {
    finding(
        DiagCode::NonSubsetConstruct,
        "@context term `"@ + term + "` binds the nested compact IRI `"@ + iri + "` through prefix `"@ + prefix
            + "`; nested compact-IRI term definitions are not supported — bind the expanded absolute IRI instead"@,
        Some(term),
    )
}

/// The terms one inline map declares.
pub open spec fn map_terms(entries: Seq<(String, JsonValue)>) -> Set<Seq<char>>
    decreases entries.len(),
{
    if entries.len() == 0 {
        Set::empty()
    } else {
        map_terms(entries.drop_last()).insert(entries.last().0@)
    }
}

/// The terms the inline maps of a list of context entries declare.
pub open spec fn list_terms(es: Seq<JsonValue>) -> Set<Seq<char>>
    decreases es.len(),
{
    if es.len() == 0 {
        Set::empty()
    } else {
        list_terms(es.drop_last()).union(
            match es.last() {
                JsonValue::Object(members) => map_terms(members@),
                _ => Set::empty(),
            },
        )
    }
}

/// Every term a document's `@context` declares.
pub open spec fn context_terms(c: Context) -> Set<Seq<char>> {
    match c {
        Context::PrefixMap(m) => map_terms(m@),
        Context::List(es) => list_terms(es@),
        Context::Iri(_) => Set::empty(),
    }
}

/// The findings one context entry earns, among the context terms `terms`.
pub open spec fn entry_findings(term: Seq<char>, value: JsonValue, terms: Set<Seq<char>>) -> Seq<
    (DiagCode, Seq<char>, Option<Seq<char>>),
> {
    if term == "@base"@ || term == "@vocab"@ {
        seq![
            finding(
                DiagCode::NonSubsetConstruct,
                "@context declares `"@ + term
                    + "`, which changes identity semantics this engine does not implement; write prefix terms or absolute IRIs instead"@,
                Some(term),
            ),
        ]
    } else if is_keyword(term) {
        seq![]
    } else {
        match value {
            JsonValue::Str(iri) => if nested_prefix(iri@, terms) is Some {
                seq![nested_finding(term, iri@, nested_prefix(iri@, terms)->0)]
            } else if is_absolute(iri@) {
                seq![]
            } else {
                seq![
                    finding(
                        DiagCode::NonSubsetConstruct,
                        "@context term `"@ + term + "` binds `"@ + iri@
                            + "`, which is not an absolute IRI; a prefix must bind an absolute IRI (a scheme, then `:`)"@,
                        Some(term),
                    ),
                ]
            },
            _ => seq![
                finding(
                    DiagCode::MalformedDocument,
                    "@context term `"@ + term + "` must map to a simple string IRI, got `"@ + json_text(value) + "`"@,
                    Some(term),
                ),
            ],
        }
    }
}

/// `term` binds `value` as a prefix, among the context terms `terms`.
pub open spec fn entry_binds(term: Seq<char>, value: JsonValue, terms: Set<Seq<char>>) -> bool {
    !is_keyword(term) && value is Str && nested_prefix(value->Str_0@, terms) is None && is_absolute(value->Str_0@)
}

/// `m` with one inline map's bindings merged in order (later bindings win).
pub open spec fn merge_map(m: Map<Seq<char>, Seq<char>>, entries: Seq<(String, JsonValue)>, terms: Set<Seq<char>>) -> Map<
    Seq<char>,
    Seq<char>,
>
    decreases entries.len(),
{
    if entries.len() == 0 {
        m
    } else {
        let prev = merge_map(m, entries.drop_last(), terms);
        let e = entries.last();
        if entry_binds(e.0@, e.1, terms) {
            prev.insert(e.0@, e.1->Str_0@)
        } else {
            prev
        }
    }
}

/// The findings of one inline map, in entry order.
pub open spec fn merge_findings(entries: Seq<(String, JsonValue)>, terms: Set<Seq<char>>) -> Seq<
    (DiagCode, Seq<char>, Option<Seq<char>>),
>
    decreases entries.len(),
{
    if entries.len() == 0 {
        seq![]
    } else {
        merge_findings(entries.drop_last(), terms) + entry_findings(entries.last().0@, entries.last().1, terms)
    }
}

/// The refusal of a remote context reference.
pub open spec fn remote_finding(reference: Seq<char>) -> (DiagCode, Seq<char>, Option<Seq<char>>) {
    finding(
        DiagCode::NonSubsetConstruct,
        "@context references the remote context `"@ + reference
            + "`; a deterministic embedded engine cannot dereference remote contexts at load — inline the bindings as a prefix map"@,
        Some(reference),
    )
}

/// The bindings of a list of context entries, merged in order.
pub open spec fn list_map(es: Seq<JsonValue>, terms: Set<Seq<char>>) -> Map<Seq<char>, Seq<char>>
    decreases es.len(),
{
    if es.len() == 0 {
        Map::empty()
    } else {
        match es.last() {
            JsonValue::Object(members) => merge_map(list_map(es.drop_last(), terms), members@, terms),
            _ => list_map(es.drop_last(), terms),
        }
    }
}

/// The findings of a list of context entries, in order.
pub open spec fn list_findings(es: Seq<JsonValue>, terms: Set<Seq<char>>) -> Seq<(DiagCode, Seq<char>, Option<Seq<char>>)>
    decreases es.len(),
{
    if es.len() == 0 {
        seq![]
    } else {
        list_findings(es.drop_last(), terms) + match es.last() {
            JsonValue::Object(members) => merge_findings(members@, terms),
            JsonValue::Str(r) => seq![remote_finding(r@)],
            other => seq![
                finding(
                    DiagCode::MalformedDocument,
                    "@context list entry must be an inline map, got `"@ + json_text(other) + "`"@,
                    None,
                ),
            ],
        }
    }
}

/// The prefix bindings a document's `@context` declares.
pub open spec fn context_map(c: Context) -> Map<Seq<char>, Seq<char>> {
    match c {
        Context::PrefixMap(m) => merge_map(Map::empty(), m@, context_terms(c)),
        Context::List(es) => list_map(es@, context_terms(c)),
        Context::Iri(_) => Map::empty(),
    }
}

/// The refusals a document's `@context` earns.
pub open spec fn context_findings(c: Context) -> Seq<(DiagCode, Seq<char>, Option<Seq<char>>)> {
    match c {
        Context::PrefixMap(m) => merge_findings(m@, context_terms(c)),
        Context::List(es) => list_findings(es@, context_terms(c)),
        Context::Iri(r) => seq![remote_finding(r@)],
    }
}

fn remote_context_refusal(reference: &str) -> (d: Diagnostic)
    ensures
        is_finding(d, remote_finding(reference@)),
{
    let mut m = owned("@context references the remote context `");
    push_str(&mut m, reference);
    push_str(
        &mut m,
        "`; a deterministic embedded engine cannot dereference remote contexts at load — inline the bindings as a prefix map",
    );
    Diagnostic::error(DiagCode::NonSubsetConstruct, m).with_subject(owned(reference))
}

/// The prefix through which `iri` is a compact IRI of `terms`.
fn nested_prefix_in<'a>(iri: &'a str, terms: &StringHashSet) -> (r: Option<&'a str>)
    ensures
        match r {
            Some(p) => nested_prefix(iri@, terms@) == Some(p@),
            None => nested_prefix(iri@, terms@) is None,
        },
{
    let chars = chars_of(iri);
    proof {
        lemma_find(iri@, ':');
    }
    match find_char(chars.as_slice(), ':') {
        None => None,
        Some(c) => {
            let n = chars.len();
            assert(c < n);
            let prefix = slice(iri, 0, c);
            let suffix = tail(iri, c + 1);
            let suffix_chars = chars_of(suffix);
            let slashes = ['/', '/'];
            assert(slashes@ =~= seq!['/', '/']);
            if starts_with(suffix_chars.as_slice(), slashes.as_slice()) {
                None
            } else if terms.contains(prefix) {
                Some(prefix)
            } else {
                None
            }
        },
    }
}

/// The terms one inline map declares.
fn entry_terms(entries: &[(String, JsonValue)], out: &mut StringHashSet)
    ensures
        final(out)@ == old(out)@.union(map_terms(entries@)),
{
    let mut i: usize = 0;
    while i < entries.len()
        invariant
            i <= entries@.len(),
            out@ == old(out)@.union(map_terms(entries@.take(i as int))),
        decreases entries@.len() - i,
    {
        proof {
            assert(entries@.take(i + 1).drop_last() =~= entries@.take(i as int));
        }
        out.insert(entries[i].0.clone());
        i += 1;
        assert(out@ =~= old(out)@.union(map_terms(entries@.take(i as int))));
    }
    assert(entries@.take(entries@.len() as int) =~= entries@);
}

/// Every term a `@context` declares.
fn declared_terms(context: &Context) -> (r: StringHashSet)
    ensures
        r@ == context_terms(*context),
{
    let mut out = StringHashSet::new();
    match context {
        Context::PrefixMap(map) => {
            entry_terms(map.as_slice(), &mut out);
            assert(out@ =~= context_terms(*context));
        },
        Context::List(entries) => {
            let mut i: usize = 0;
            while i < entries.len()
                invariant
                    *context == Context::List(*entries),
                    i <= entries@.len(),
                    out@ == list_terms(entries@.take(i as int)),
                decreases entries@.len() - i,
            {
                proof {
                    assert(entries@.take(i + 1).drop_last() =~= entries@.take(i as int));
                    assert(entries@.take(i + 1).last() == entries@[i as int]);
                }
                match &entries[i] {
                    JsonValue::Object(members) => {
                        entry_terms(members.as_slice(), &mut out);
                    },
                    _ => {
                        assert(out@ =~= list_terms(entries@.take(i + 1)));
                    },
                }
                i += 1;
            }
            assert(entries@.take(entries@.len() as int) =~= entries@);
        },
        Context::Iri(_) => {
            assert(out@ =~= context_terms(*context));
        },
    }
    out
}

/// Merge one inline context map's entries into `table`, in order: a later binding of a term
/// overrides an earlier one; a term bound to a compact IRI through one of the context terms
/// `terms` is refused and not bound.
pub fn merge_context_entries(
    entries: &[(String, JsonValue)],
    terms: &StringHashSet,
    table: &mut PrefixTable,
    diags: &mut Vec<Diagnostic>,
)
    ensures
        final(table)@ == merge_map(old(table)@, entries@, terms@),
        appends(old(diags)@, final(diags)@, merge_findings(entries@, terms@)),
{
    proof {
        lemma_appends_none(diags@);
    }
    let mut i: usize = 0;
    while i < entries.len()
        invariant
            i <= entries@.len(),
            table@ == merge_map(old(table)@, entries@.take(i as int), terms@),
            appends(old(diags)@, diags@, merge_findings(entries@.take(i as int), terms@)),
        decreases entries@.len() - i,
    {
        let term = entries[i].0.as_str();
        let value = &entries[i].1;
        let ghost before = diags@;
        let ghost found: Seq<(DiagCode, Seq<char>, Option<Seq<char>>)> = entry_findings(term@, *value, terms@);
        proof {
            reveal_strlit("@base");
            reveal_strlit("@vocab");
            assert(entries@.take(i + 1).drop_last() =~= entries@.take(i as int));
            assert(entries@.take(i + 1).last() == entries@[i as int]);
        }
        let is_base = str_eq(term, "@base") || str_eq(term, "@vocab");
        let term_chars = chars_of(term);
        let keyword = term_chars.len() > 0 && term_chars[0] == '@';
        if is_base {
            let mut m = owned("@context declares `");
            push_str(&mut m, term);
            push_str(
                &mut m,
                "`, which changes identity semantics this engine does not implement; write prefix terms or absolute IRIs instead",
            );
            let d = Diagnostic::error(DiagCode::NonSubsetConstruct, m).with_subject(owned(term));
            diags.push(d);
            proof {
                lemma_appends_one(before, d, found[0]);
            }
        } else if keyword {
            proof {
                lemma_appends_none(before);
            }
        } else {
            match value {
                JsonValue::Str(iri) => {
                    if let Some(prefix) = nested_prefix_in(iri.as_str(), terms) {
                        let mut m = owned("@context term `");
                        push_str(&mut m, term);
                        push_str(&mut m, "` binds the nested compact IRI `");
                        push_str(&mut m, iri.as_str());
                        push_str(&mut m, "` through prefix `");
                        push_str(&mut m, prefix);
                        push_str(
                            &mut m,
                            "`; nested compact-IRI term definitions are not supported — bind the expanded absolute IRI instead",
                        );
                        let d = Diagnostic::error(DiagCode::NonSubsetConstruct, m).with_subject(owned(term));
                        diags.push(d);
                        proof {
                            lemma_appends_one(before, d, found[0]);
                        }
                    } else if is_absolute_iri(iri.as_str()) {
                        table.insert(term, iri.as_str());
                        proof {
                            lemma_appends_none(before);
                        }
                    } else {
                        let mut m = owned("@context term `");
                        push_str(&mut m, term);
                        push_str(&mut m, "` binds `");
                        push_str(&mut m, iri.as_str());
                        push_str(&mut m, "`, which is not an absolute IRI; a prefix must bind an absolute IRI (a scheme, then `:`)");
                        let d = Diagnostic::error(DiagCode::NonSubsetConstruct, m).with_subject(owned(term));
                        diags.push(d);
                        proof {
                            lemma_appends_one(before, d, found[0]);
                        }
                    }
                },
                _ => {
                    let mut m = owned("@context term `");
                    push_str(&mut m, term);
                    push_str(&mut m, "` must map to a simple string IRI, got `");
                    push_str(&mut m, render_json(value).as_str());
                    push_str(&mut m, "`");
                    let d = Diagnostic::error(DiagCode::MalformedDocument, m).with_subject(owned(term));
                    diags.push(d);
                    proof {
                        lemma_appends_one(before, d, found[0]);
                    }
                },
            }
        }
        proof {
            lemma_appends_trans(old(diags)@, before, diags@, merge_findings(entries@.take(i as int), terms@), found);
        }
        i += 1;
    }
    proof {
        assert(entries@.take(entries@.len() as int) =~= entries@);
    }
}

/// The prefix table a document's `@context` declares, reporting every refusal.
pub fn prefix_table(context: &Context, diags: &mut Vec<Diagnostic>) -> (t: PrefixTable)
    ensures
        t@ == context_map(*context),
        appends(old(diags)@, final(diags)@, context_findings(*context)),
{
    let mut table = PrefixTable::new();
    let terms = declared_terms(context);
    match context {
        Context::PrefixMap(map) => {
            merge_context_entries(map.as_slice(), &terms, &mut table, diags);
        },
        Context::List(entries) => {
            proof {
                lemma_appends_none(diags@);
            }
            let mut i: usize = 0;
            while i < entries.len()
                invariant
                    *context == Context::List(*entries),
                    i <= entries@.len(),
                    terms@ == context_terms(*context),
                    table@ == list_map(entries@.take(i as int), terms@),
                    appends(old(diags)@, diags@, list_findings(entries@.take(i as int), terms@)),
                decreases entries@.len() - i,
            {
                let ghost before = diags@;
                proof {
                    assert(entries@.take(i + 1).drop_last() =~= entries@.take(i as int));
                    assert(entries@.take(i + 1).last() == entries@[i as int]);
                }
                match &entries[i] {
                    JsonValue::Object(members) => {
                        merge_context_entries(members.as_slice(), &terms, &mut table, diags);
                    },
                    JsonValue::Str(reference) => {
                        let d = remote_context_refusal(reference.as_str());
                        diags.push(d);
                        proof {
                            lemma_appends_one(before, d, remote_finding(reference@));
                        }
                    },
                    other => {
                        let mut m = owned("@context list entry must be an inline map, got `");
                        push_str(&mut m, render_json(other).as_str());
                        push_str(&mut m, "`");
                        let d = Diagnostic::error(DiagCode::MalformedDocument, m);
                        diags.push(d);
                        proof {
                            lemma_appends_one(
                                before,
                                d,
                                finding(
                                    DiagCode::MalformedDocument,
                                    "@context list entry must be an inline map, got `"@ + json_text(*other) + "`"@,
                                    None,
                                ),
                            );
                        }
                    },
                }
                proof {
                    let step = list_findings(entries@.take(i + 1), terms@);
                    lemma_appends_trans(
                        old(diags)@,
                        before,
                        diags@,
                        list_findings(entries@.take(i as int), terms@),
                        step.subrange(list_findings(entries@.take(i as int), terms@).len() as int, step.len() as int),
                    );
                    assert(list_findings(entries@.take(i as int), terms@) + step.subrange(
                        list_findings(entries@.take(i as int), terms@).len() as int,
                        step.len() as int,
                    ) =~= step);
                }
                i += 1;
            }
            proof {
                assert(entries@.take(entries@.len() as int) =~= entries@);
            }
        },
        Context::Iri(reference) => {
            let ghost before = diags@;
            let d = remote_context_refusal(reference.as_str());
            diags.push(d);
            proof {
                lemma_appends_one(before, d, remote_finding(reference@));
            }
        },
    }
    table
}

// ---- identity and typing slots ----

/// The refusal of a relative identity token: on a node's own `@id` (no owner) or on a
/// structural reference of the node `owner`.
pub open spec fn relative_finding(token: Seq<char>, slot: Seq<char>, owner: Option<Seq<char>>) -> (
    DiagCode,
    Seq<char>,
    Option<Seq<char>>,
) {
    match owner {
        None => finding(
            DiagCode::RelativeIri,
            "@id `"@ + token + "` is a relative IRI reference and the document declares no @base to resolve it against"@,
            Some(token),
        ),
        Some(o) => finding(
            DiagCode::RelativeIri,
            slot + " reference `"@ + token + "` on node `"@ + o
                + "` is a relative IRI reference and the document declares no @base to resolve it against"@,
            Some(o),
        ),
    }
}

/// An identity token has no canonical absolute form. An empty token is left to the resolver.
pub open spec fn identity_refused(token: Seq<char>, t: Map<Seq<char>, Seq<char>>) -> bool {
    token.len() > 0 && expansion(token, t) is Relative
}

/// An identity token after expansion.
pub open spec fn expanded_identity(token: Seq<char>, t: Map<Seq<char>, Seq<char>>) -> Seq<char> {
    if token.len() > 0 && expansion(token, t) is Expanded {
        expansion(token, t)->Expanded_0
    } else {
        token
    }
}

/// The findings of one identity token.
pub open spec fn identity_findings(
    token: Seq<char>,
    slot: Seq<char>,
    owner: Option<Seq<char>>,
    t: Map<Seq<char>, Seq<char>>,
) -> Seq<(DiagCode, Seq<char>, Option<Seq<char>>)> {
    if identity_refused(token, t) {
        seq![relative_finding(token, slot, owner)]
    } else {
        seq![]
    }
}

/// A typing token after best-effort expansion.
pub open spec fn expanded_typing(token: Seq<char>, t: Map<Seq<char>, Seq<char>>) -> Seq<char> {
    if expansion(token, t) is Expanded {
        expansion(token, t)->Expanded_0
    } else {
        token
    }
}

/// Expand an identity token in place; a relative token is refused with `RelativeIri`.
pub fn expand_identity(
    token: &mut String,
    slot: &str,
    owner: Option<&str>,
    table: &PrefixTable,
    diags: &mut Vec<Diagnostic>,
)
    ensures
        final(token)@ == expanded_identity(old(token)@, table@),
        appends(
            old(diags)@,
            final(diags)@,
            identity_findings(
                old(token)@,
                slot@,
                match owner {
                    Some(o) => Some(o@),
                    None => None,
                },
                table@,
            ),
        ),
{
    let ghost before = diags@;
    if token.as_str().unicode_len() == 0 {
        proof {
            lemma_appends_none(before);
        }
        return;
    }
    match expand_token(token.as_str(), table) {
        Expansion::Expanded(iri) => {
            *token = iri;
            proof {
                lemma_appends_none(before);
            }
        },
        Expansion::Verbatim => {
            proof {
                lemma_appends_none(before);
            }
        },
        Expansion::Relative => {
            let d = match owner {
                None => {
                    let mut m = owned("@id `");
                    push_str(&mut m, token.as_str());
                    push_str(
                        &mut m,
                        "` is a relative IRI reference and the document declares no @base to resolve it against",
                    );
                    Diagnostic::error(DiagCode::RelativeIri, m).with_subject(owned(token.as_str()))
                },
                Some(o) => {
                    let mut m = owned(slot);
                    push_str(&mut m, " reference `");
                    push_str(&mut m, token.as_str());
                    push_str(&mut m, "` on node `");
                    push_str(&mut m, o);
                    push_str(
                        &mut m,
                        "` is a relative IRI reference and the document declares no @base to resolve it against",
                    );
                    Diagnostic::error(DiagCode::RelativeIri, m).with_subject(owned(o))
                },
            };
            diags.push(d);
            proof {
                lemma_appends_one(
                    before,
                    d,
                    relative_finding(
                        token@,
                        slot@,
                        match owner {
                            Some(o) => Some(o@),
                            None => None,
                        },
                    ),
                );
            }
        },
    }
}

/// Expand a typing token in place, best-effort: it is never refused.
pub fn expand_typing(token: &mut String, table: &PrefixTable)
    ensures
        final(token)@ == expanded_typing(old(token)@, table@),
{
    if let Expansion::Expanded(iri) = expand_token(token.as_str(), table) {
        *token = iri;
    }
}

/// `a` and `b` are the same variant, with the same number of values.
pub open spec fn same_shape<T>(a: OneOrMany<T>, b: OneOrMany<T>) -> bool {
    match (a, b) {
        (OneOrMany::Absent, OneOrMany::Absent) => true,
        (OneOrMany::One(_), OneOrMany::One(_)) => true,
        (OneOrMany::Many(x), OneOrMany::Many(y)) => x@.len() == y@.len(),
        _ => false,
    }
}

/// `new` is `old` with every reference identity expanded.
pub open spec fn refs_expanded(old: OneOrMany<IriRef>, new: OneOrMany<IriRef>, t: Map<Seq<char>, Seq<char>>) -> bool {
    &&& same_shape(old, new)
    &&& new.items().len() == old.items().len()
    &&& forall|k: int|
        0 <= k < old.items().len() ==> (#[trigger] new.items()[k]).id@ == expanded_identity(old.items()[k].id@, t)
            && new.items()[k].other == old.items()[k].other
}

/// The findings of a reference list, in order.
pub open spec fn refs_findings(items: Seq<IriRef>, slot: Seq<char>, owner: Seq<char>, t: Map<Seq<char>, Seq<char>>) -> Seq<
    (DiagCode, Seq<char>, Option<Seq<char>>),
>
    decreases items.len(),
{
    if items.len() == 0 {
        seq![]
    } else {
        refs_findings(items.drop_last(), slot, owner, t) + identity_findings(items.last().id@, slot, Some(owner), t)
    }
}

/// Expand every reference of one slot of the node `owner`.
fn expand_refs(refs: &mut OneOrMany<IriRef>, slot: &str, owner: &str, table: &PrefixTable, diags: &mut Vec<Diagnostic>)
    ensures
        refs_expanded(*old(refs), *final(refs), table@),
        appends(old(diags)@, final(diags)@, refs_findings(old(refs).items(), slot@, owner@, table@)),
{
    let ghost before = diags@;
    match refs {
        OneOrMany::Absent => {
            proof {
                lemma_appends_none(before);
            }
        },
        OneOrMany::One(r) => {
            let ghost item = *r;
            expand_identity(&mut r.id, slot, Some(owner), table, diags);
            proof {
                assert(seq![item].drop_last() =~= Seq::<IriRef>::empty());
                assert(seq![item].last() == item);
                assert(refs_findings(Seq::<IriRef>::empty(), slot@, owner@, table@) =~= seq![]);
                assert(refs_findings(seq![item], slot@, owner@, table@) =~= identity_findings(
                    item.id@,
                    slot@,
                    Some(owner@),
                    table@,
                ));
            }
        },
        OneOrMany::Many(vs) => {
            let ghost items = vs@;
            proof {
                lemma_appends_none(before);
            }
            let mut i: usize = 0;
            while i < vs.len()
                invariant
                    vs@.len() == items.len(),
                    i <= items.len(),
                    forall|k: int|
                        0 <= k < i ==> (#[trigger] vs@[k]).id@ == expanded_identity(items[k].id@, table@) && vs@[k].other
                            == items[k].other,
                    forall|k: int| i <= k < items.len() ==> #[trigger] vs@[k] == items[k],
                    appends(before, diags@, refs_findings(items.take(i as int), slot@, owner@, table@)),
                decreases items.len() - i,
            {
                let ghost mid = diags@;
                expand_identity(&mut vs[i].id, slot, Some(owner), table, diags);
                proof {
                    assert(items.take(i + 1).drop_last() =~= items.take(i as int));
                    lemma_appends_trans(
                        before,
                        mid,
                        diags@,
                        refs_findings(items.take(i as int), slot@, owner@, table@),
                        identity_findings(items[i as int].id@, slot@, Some(owner@), table@),
                    );
                }
                i += 1;
            }
            proof {
                assert(items.take(items.len() as int) =~= items);
            }
        },
    }
}

// ---- nodes and the document ----

/// `new` is `old` with every typing token expanded.
pub open spec fn types_expanded(old: Option<OneOrMany<String>>, new: Option<OneOrMany<String>>, t: Map<Seq<char>, Seq<char>>) -> bool {
    match (old, new) {
        (None, None) => true,
        (Some(a), Some(b)) => {
            &&& same_shape(a, b)
            &&& b.items().len() == a.items().len()
            &&& forall|k: int| 0 <= k < a.items().len() ==> (#[trigger] b.items()[k])@ == expanded_typing(a.items()[k]@, t)
        },
        _ => false,
    }
}

/// `new` is `old` with its datatype reference's typing token expanded.
pub open spec fn datatype_expanded(old: Option<IriRef>, new: Option<IriRef>, t: Map<Seq<char>, Seq<char>>) -> bool {
    match (old, new) {
        (None, None) => true,
        (Some(a), Some(b)) => b.id@ == expanded_typing(a.id@, t) && b.other == a.other,
        _ => false,
    }
}

/// Every slot outside the identity and typing slots is unchanged.
pub open spec fn payload_same(a: Node, b: Node) -> bool {
    &&& a.label == b.label
    &&& a.access == b.access
    &&& a.value == b.value
    &&& a.min == b.min
    &&& a.max == b.max
    &&& a.is_final == b.is_final
    &&& a.is_array == b.is_array
    &&& a.n_dims == b.n_dims
    &&& a.size_dims == b.size_dims
    &&& a.fmu_path == b.fmu_path
    &&& a.is_conditional == b.is_conditional
    &&& a.cond_expr == b.cond_expr
    &&& a.is_replaceable == b.is_replaceable
    &&& a.other == b.other
}

/// `new` is `old` with every in-scope slot expanded.
pub open spec fn node_expanded(old: Node, new: Node, t: Map<Seq<char>, Seq<char>>) -> bool {
    &&& new.id@ == expanded_identity(old.id@, t)
    &&& refs_expanded(old.has_input, new.has_input, t)
    &&& refs_expanded(old.has_output, new.has_output, t)
    &&& refs_expanded(old.has_parameter, new.has_parameter, t)
    &&& refs_expanded(old.has_constant, new.has_constant, t)
    &&& refs_expanded(old.contains_block, new.contains_block, t)
    &&& refs_expanded(old.has_instance, new.has_instance, t)
    &&& refs_expanded(old.is_connected_to, new.is_connected_to, t)
    &&& types_expanded(old.types, new.types, t)
    &&& datatype_expanded(old.is_of_data_type, new.is_of_data_type, t)
    &&& payload_same(old, new)
}

/// The refusals of one node: its own `@id`, then each reference slot in turn.
pub open spec fn node_findings(n: Node, t: Map<Seq<char>, Seq<char>>) -> Seq<(DiagCode, Seq<char>, Option<Seq<char>>)> {
    let owner = expanded_identity(n.id@, t);
    identity_findings(n.id@, "@id"@, None, t) + refs_findings(n.has_input.items(), "S231:hasInput"@, owner, t)
        + refs_findings(n.has_output.items(), "S231:hasOutput"@, owner, t) + refs_findings(
        n.has_parameter.items(),
        "S231:hasParameter"@,
        owner,
        t,
    ) + refs_findings(n.has_constant.items(), "S231:hasConstant"@, owner, t) + refs_findings(
        n.contains_block.items(),
        "S231:containsBlock"@,
        owner,
        t,
    ) + refs_findings(n.has_instance.items(), "S231:hasInstance"@, owner, t) + refs_findings(
        n.is_connected_to.items(),
        "S231:isConnectedTo"@,
        owner,
        t,
    )
}

/// Expand every typing token of a `@type` list.
fn expand_types(types: &mut OneOrMany<String>, table: &PrefixTable)
    ensures
        types_expanded(Some(*old(types)), Some(*final(types)), table@),
{
    match types {
        OneOrMany::Absent => {},
        OneOrMany::One(v) => {
            expand_typing(v, table);
        },
        OneOrMany::Many(vs) => {
            let ghost items = vs@;
            let mut i: usize = 0;
            while i < vs.len()
                invariant
                    vs@.len() == items.len(),
                    i <= items.len(),
                    forall|k: int| 0 <= k < i ==> (#[trigger] vs@[k])@ == expanded_typing(items[k]@, table@),
                    forall|k: int| i <= k < items.len() ==> #[trigger] vs@[k] == items[k],
                decreases items.len() - i,
            {
                expand_typing(&mut vs[i], table);
                i += 1;
            }
        },
    }
}

/// Expand every in-scope slot of one node.
pub fn expand_node(node: &mut Node, table: &PrefixTable, diags: &mut Vec<Diagnostic>)
    ensures
        node_expanded(*old(node), *final(node), table@),
        appends(old(diags)@, final(diags)@, node_findings(*old(node), table@)),
{
    let ghost n0 = *node;
    let ghost t = table@;
    let ghost d0 = diags@;
    expand_identity(&mut node.id, "@id", None, table, diags);
    let ghost owner = node.id@;
    let ghost d1 = diags@;
    let ghost f1 = identity_findings(n0.id@, "@id"@, None, t);
    expand_refs(&mut node.has_input, "S231:hasInput", node.id.as_str(), table, diags);
    let ghost d2 = diags@;
    let ghost f2 = refs_findings(n0.has_input.items(), "S231:hasInput"@, owner, t);
    proof {
        lemma_appends_trans(d0, d1, d2, f1, f2);
    }
    expand_refs(&mut node.has_output, "S231:hasOutput", node.id.as_str(), table, diags);
    let ghost d3 = diags@;
    let ghost f3 = refs_findings(n0.has_output.items(), "S231:hasOutput"@, owner, t);
    proof {
        lemma_appends_trans(d0, d2, d3, f1 + f2, f3);
    }
    expand_refs(&mut node.has_parameter, "S231:hasParameter", node.id.as_str(), table, diags);
    let ghost d4 = diags@;
    let ghost f4 = refs_findings(n0.has_parameter.items(), "S231:hasParameter"@, owner, t);
    proof {
        lemma_appends_trans(d0, d3, d4, f1 + f2 + f3, f4);
    }
    expand_refs(&mut node.has_constant, "S231:hasConstant", node.id.as_str(), table, diags);
    let ghost d5 = diags@;
    let ghost f5 = refs_findings(n0.has_constant.items(), "S231:hasConstant"@, owner, t);
    proof {
        lemma_appends_trans(d0, d4, d5, f1 + f2 + f3 + f4, f5);
    }
    expand_refs(&mut node.contains_block, "S231:containsBlock", node.id.as_str(), table, diags);
    let ghost d6 = diags@;
    let ghost f6 = refs_findings(n0.contains_block.items(), "S231:containsBlock"@, owner, t);
    proof {
        lemma_appends_trans(d0, d5, d6, f1 + f2 + f3 + f4 + f5, f6);
    }
    expand_refs(&mut node.has_instance, "S231:hasInstance", node.id.as_str(), table, diags);
    let ghost d7 = diags@;
    let ghost f7 = refs_findings(n0.has_instance.items(), "S231:hasInstance"@, owner, t);
    proof {
        lemma_appends_trans(d0, d6, d7, f1 + f2 + f3 + f4 + f5 + f6, f7);
    }
    expand_refs(&mut node.is_connected_to, "S231:isConnectedTo", node.id.as_str(), table, diags);
    let ghost d8 = diags@;
    let ghost f8 = refs_findings(n0.is_connected_to.items(), "S231:isConnectedTo"@, owner, t);
    proof {
        lemma_appends_trans(d0, d7, d8, f1 + f2 + f3 + f4 + f5 + f6 + f7, f8);
    }
    match &mut node.types {
        Some(types) => expand_types(types, table),
        None => {},
    }
    match &mut node.is_of_data_type {
        Some(datatype) => expand_typing(&mut datatype.id, table),
        None => {},
    }
}

/// The refusals of a node list, in order.
pub open spec fn graph_findings(nodes: Seq<Node>, t: Map<Seq<char>, Seq<char>>) -> Seq<(DiagCode, Seq<char>, Option<Seq<char>>)>
    decreases nodes.len(),
{
    if nodes.len() == 0 {
        seq![]
    } else {
        graph_findings(nodes.drop_last(), t) + node_findings(nodes.last(), t)
    }
}

/// Expand a document's identity and typing tokens against its own `@context`.
///
/// Returns the expanded document, or every refusal: the `@context` refusals alone when there
/// are any, else the relative-identity refusals of every node.
pub fn expand_document(doc: CxfDocument) -> (r: Result<CxfDocument, Vec<Diagnostic>>)
    ensures
        context_findings(doc.context).len() > 0 ==> (r matches Err(d) && appends(
            seq![],
            d@,
            context_findings(doc.context),
        )),
        context_findings(doc.context).len() == 0 ==> ({
            let t = context_map(doc.context);
            let f = graph_findings(doc.graph@, t);
            &&& f.len() > 0 ==> (r matches Err(d) && appends(seq![], d@, f))
            &&& f.len() == 0 ==> (r matches Ok(e) && e.context == doc.context && e.other == doc.other
                && e.graph@.len() == doc.graph@.len() && forall|k: int|
                0 <= k < doc.graph@.len() ==> node_expanded(doc.graph@[k], #[trigger] e.graph@[k], t))
        }),
{
    let mut context_diags: Vec<Diagnostic> = Vec::new();
    let table = prefix_table(&doc.context, &mut context_diags);
    if context_diags.len() > 0 {
        return Err(context_diags);
    }
    let ghost t = table@;
    let ghost nodes = doc.graph@;
    let mut expanded = doc;
    let mut diags: Vec<Diagnostic> = Vec::new();
    proof {
        lemma_appends_none(diags@);
    }
    let mut i: usize = 0;
    while i < expanded.graph.len()
        invariant
            t == table@,
            expanded.graph@.len() == nodes.len(),
            i <= nodes.len(),
            forall|k: int| 0 <= k < i ==> node_expanded(nodes[k], #[trigger] expanded.graph@[k], t),
            forall|k: int| i <= k < nodes.len() ==> #[trigger] expanded.graph@[k] == nodes[k],
            appends(seq![], diags@, graph_findings(nodes.take(i as int), t)),
            expanded.context == doc.context,
            expanded.other == doc.other,
        decreases nodes.len() - i,
    {
        let ghost mid = diags@;
        expand_node(&mut expanded.graph[i], &table, &mut diags);
        proof {
            assert(nodes.take(i + 1).drop_last() =~= nodes.take(i as int));
            lemma_appends_trans(seq![], mid, diags@, graph_findings(nodes.take(i as int), t), node_findings(nodes[i as int], t));
        }
        i += 1;
    }
    proof {
        assert(nodes.take(nodes.len() as int) =~= nodes);
    }
    if diags.len() == 0 {
        Ok(expanded)
    } else {
        Err(diags)
    }
}


/// The identity reference slots of a node: hasInput, hasOutput, hasParameter, hasConstant,
/// containsBlock, hasInstance, isConnectedTo.
pub open spec fn ref_slot(n: Node, s: int) -> OneOrMany<IriRef> {
    if s == 0 {
        n.has_input
    } else if s == 1 {
        n.has_output
    } else if s == 2 {
        n.has_parameter
    } else if s == 3 {
        n.has_constant
    } else if s == 4 {
        n.contains_block
    } else if s == 5 {
        n.has_instance
    } else {
        n.is_connected_to
    }
}

/// The key of an identity reference slot.
pub open spec fn ref_slot_name(s: int) -> Seq<char> {
    if s == 0 {
        "S231:hasInput"@
    } else if s == 1 {
        "S231:hasOutput"@
    } else if s == 2 {
        "S231:hasParameter"@
    } else if s == 3 {
        "S231:hasConstant"@
    } else if s == 4 {
        "S231:containsBlock"@
    } else if s == 5 {
        "S231:hasInstance"@
    } else {
        "S231:isConnectedTo"@
    }
}

/// A reference and the node it names expand alike: when two nodes are expanded against one
/// table, a reference in any identity slot of the first that spells the second's `@id` spells,
/// after expansion, the second's expanded `@id`; and no slot gains or loses references.
pub proof fn lemma_references_follow_ids(
    o1: Node,
    n1: Node,
    o2: Node,
    n2: Node,
    t: Map<Seq<char>, Seq<char>>,
    s: int,
    k: int,
)
    requires
        node_expanded(o1, n1, t),
        node_expanded(o2, n2, t),
        0 <= s < 7,
        0 <= k < ref_slot(o1, s).items().len(),
        ref_slot(o1, s).items()[k].id@ == o2.id@,
    ensures
        ref_slot(n1, s).items().len() == ref_slot(o1, s).items().len(),
        ref_slot(n1, s).items()[k].id@ == n2.id@,
{
}

proof fn lemma_refs_findings_contain(items: Seq<IriRef>, slot: Seq<char>, owner: Seq<char>, t: Map<Seq<char>, Seq<char>>, k: int)
    requires
        0 <= k < items.len(),
        identity_refused(items[k].id@, t),
    ensures
        refs_findings(items, slot, owner, t).contains(relative_finding(items[k].id@, slot, Some(owner))),
    decreases items.len(),
{
    let f = relative_finding(items[k].id@, slot, Some(owner));
    let r = refs_findings(items.drop_last(), slot, owner, t);
    let l = identity_findings(items.last().id@, slot, Some(owner), t);
    assert(refs_findings(items, slot, owner, t) == r + l);
    if k == items.len() - 1 {
        assert((r + l)[r.len() as int] == f);
    } else {
        lemma_refs_findings_contain(items.drop_last(), slot, owner, t, k);
        let w = choose|w: int| 0 <= w < r.len() && r[w] == f;
        assert((r + l)[w] == f);
    }
}

proof fn lemma_contains_in_concat<A>(a: Seq<A>, b: Seq<A>, x: A)
    ensures
        a.contains(x) ==> (a + b).contains(x),
        b.contains(x) ==> (a + b).contains(x),
{
    if a.contains(x) {
        let w = choose|w: int| 0 <= w < a.len() && a[w] == x;
        assert((a + b)[w] == x);
    }
    if b.contains(x) {
        let w = choose|w: int| 0 <= w < b.len() && b[w] == x;
        assert((a + b)[a.len() + w] == x);
    }
}

/// Every reference without an absolute form is refused: a relative reference in any identity
/// slot of a node raises the refusal naming that slot and the node's expanded `@id`.
pub proof fn lemma_relative_references_refused(n: Node, t: Map<Seq<char>, Seq<char>>, s: int, k: int)
    requires
        0 <= s < 7,
        0 <= k < ref_slot(n, s).items().len(),
        identity_refused(ref_slot(n, s).items()[k].id@, t),
    ensures
        node_findings(n, t).contains(
            relative_finding(ref_slot(n, s).items()[k].id@, ref_slot_name(s), Some(expanded_identity(n.id@, t))),
        ),
{
    let owner = expanded_identity(n.id@, t);
    let x = relative_finding(ref_slot(n, s).items()[k].id@, ref_slot_name(s), Some(owner));
    let a0 = identity_findings(n.id@, "@id"@, None, t);
    let a1 = refs_findings(n.has_input.items(), "S231:hasInput"@, owner, t);
    let a2 = refs_findings(n.has_output.items(), "S231:hasOutput"@, owner, t);
    let a3 = refs_findings(n.has_parameter.items(), "S231:hasParameter"@, owner, t);
    let a4 = refs_findings(n.has_constant.items(), "S231:hasConstant"@, owner, t);
    let a5 = refs_findings(n.contains_block.items(), "S231:containsBlock"@, owner, t);
    let a6 = refs_findings(n.has_instance.items(), "S231:hasInstance"@, owner, t);
    let a7 = refs_findings(n.is_connected_to.items(), "S231:isConnectedTo"@, owner, t);
    lemma_refs_findings_contain(ref_slot(n, s).items(), ref_slot_name(s), owner, t, k);
    assert(node_findings(n, t) == a0 + a1 + a2 + a3 + a4 + a5 + a6 + a7);
    lemma_contains_in_concat(a0, a1, x);
    lemma_contains_in_concat(a0 + a1, a2, x);
    lemma_contains_in_concat(a0 + a1 + a2, a3, x);
    lemma_contains_in_concat(a0 + a1 + a2 + a3, a4, x);
    lemma_contains_in_concat(a0 + a1 + a2 + a3 + a4, a5, x);
    lemma_contains_in_concat(a0 + a1 + a2 + a3 + a4 + a5, a6, x);
    lemma_contains_in_concat(a0 + a1 + a2 + a3 + a4 + a5 + a6, a7, x);
}

} // verus!
