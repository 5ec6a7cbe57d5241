//! The lossless Layer-A document model of a CXF JSON-LD document.
//!
//! Layer A mirrors the CXF JSON-LD one to one and assigns no meaning: every key not explicitly
//! modeled flows through an `other` list, so a parse followed by a serialization reproduces the
//! input modulo key order and whitespace. All interpretation happens in the resolver.
use vstd::prelude::*;

verus! {

/// A JSON value as it appears in a passthrough slot. A number is carried by its JSON lexical
/// form; an object's members keep their order.
#[derive(Debug)]
pub enum JsonValue {
    Null,
    Bool(bool),
    Number(String),
    Str(String),
    Array(Vec<JsonValue>),
    Object(Vec<(String, JsonValue)>),
}

impl Clone for JsonValue {
    fn clone(&self) -> Self {
        json_clone(self)
    }
}

/// A passthrough value as a mathematical tree: strings and number lexemes by their characters,
/// arrays and objects by their elements in order.
pub ghost enum JsonTree {
    Null,
    Bool(bool),
    Number(Seq<char>),
    Str(Seq<char>),
    Array(Seq<JsonTree>),
    Object(Seq<(Seq<char>, JsonTree)>),
}

/// The tree of `v`.
pub open spec fn json_tree(v: JsonValue) -> JsonTree
    decreases v, 0nat,
{
    match v {
        JsonValue::Null => JsonTree::Null,
        JsonValue::Bool(b) => JsonTree::Bool(b),
        JsonValue::Number(n) => JsonTree::Number(n@),
        JsonValue::Str(s) => JsonTree::Str(s@),
        JsonValue::Array(items) => JsonTree::Array(item_trees(items@, items@.len())),
        JsonValue::Object(members) => JsonTree::Object(member_trees(members@, members@.len())),
    }
}

/// The trees of the first `k` array elements.
pub open spec fn item_trees(items: Seq<JsonValue>, k: nat) -> Seq<JsonTree>
    decreases items, k,
{
    if k == 0 || k > items.len() {
        seq![]
    } else {
        item_trees(items, (k - 1) as nat).push(json_tree(items[k - 1]))
    }
}

/// The names and trees of the first `k` object members.
pub open spec fn member_trees(members: Seq<(String, JsonValue)>, k: nat) -> Seq<(Seq<char>, JsonTree)>
    decreases members, k,
{
    if k == 0 || k > members.len() {
        seq![]
    } else {
        member_trees(members, (k - 1) as nat).push((members[k - 1].0@, json_tree(members[k - 1].1)))
    }
}

proof fn lemma_item_trees_push(items: Seq<JsonValue>, x: JsonValue, k: nat)
    requires
        k <= items.len(),
    ensures
        item_trees(items.push(x), k) == item_trees(items, k),
    decreases k,
{
    if k > 0 {
        lemma_item_trees_push(items, x, (k - 1) as nat);
    }
}

proof fn lemma_member_trees_push(members: Seq<(String, JsonValue)>, x: (String, JsonValue), k: nat)
    requires
        k <= members.len(),
    ensures
        member_trees(members.push(x), k) == member_trees(members, k),
    decreases k,
{
    if k > 0 {
        lemma_member_trees_push(members, x, (k - 1) as nat);
    }
}

/// A structural copy of `v`.
pub fn json_clone(v: &JsonValue) -> (r: JsonValue)
    ensures
        json_tree(r) == json_tree(*v),
    decreases v,
{
    match v {
        JsonValue::Null => JsonValue::Null,
        JsonValue::Bool(b) => JsonValue::Bool(*b),
        JsonValue::Number(n) => JsonValue::Number(n.clone()),
        JsonValue::Str(s) => JsonValue::Str(s.clone()),
        JsonValue::Array(items) => {
            let mut out: Vec<JsonValue> = Vec::new();
            let mut i: usize = 0;
            while i < items.len()
                invariant
                    *v == JsonValue::Array(*items),
                    i <= items@.len(),
                    out@.len() == i,
                    item_trees(out@, i as nat) == item_trees(items@, i as nat),
                decreases items@.len() - i,
            {
                proof {
                    broadcast use vstd::std_specs::vec::axiom_vec_index_decreases;

                    assert(decreases_to!(*items => items[i as int]));
                    assert(decreases_to!(*v => (*v)->Array_0));
                }
                let c = json_clone(&items[i]);
                proof {
                    lemma_item_trees_push(out@, c, i as nat);
                }
                out.push(c);
                i += 1;
            }
            JsonValue::Array(out)
        },
        JsonValue::Object(members) => {
            let mut out: Vec<(String, JsonValue)> = Vec::new();
            let mut i: usize = 0;
            while i < members.len()
                invariant
                    *v == JsonValue::Object(*members),
                    i <= members@.len(),
                    out@.len() == i,
                    member_trees(out@, i as nat) == member_trees(members@, i as nat),
                decreases members@.len() - i,
            {
                proof {
                    broadcast use vstd::std_specs::vec::axiom_vec_index_decreases;

                    assert(decreases_to!(*members => members[i as int]));
                    assert(decreases_to!(members[i as int] => members[i as int].1));
                    assert(decreases_to!(*v => (*v)->Object_0));
                }
                let entry = (members[i].0.clone(), json_clone(&members[i].1));
                proof {
                    lemma_member_trees_push(out@, entry, i as nat);
                }
                out.push(entry);
                i += 1;
            }
            JsonValue::Object(out)
        },
    }
}

/// The top-level CXF document: a `@context`, a flat `@graph` of [`Node`]s, and every other
/// top-level key.
#[derive(Clone, Debug)]
pub struct CxfDocument {
    /// The JSON-LD `@context`.
    pub context: Context,
    /// The flat node array.
    pub graph: Vec<Node>,
    /// Any top-level keys other than `@context`/`@graph`.
    pub other: Vec<(String, JsonValue)>,
}

/// The JSON-LD `@context`: a single prefix map, an array of entries, or a bare string IRI.
#[derive(Clone, Debug)]
pub enum Context {
    /// A single prefix → IRI map.
    PrefixMap(Vec<(String, JsonValue)>),
    /// An array of context entries (maps and/or IRIs).
    List(Vec<JsonValue>),
    /// A single string IRI.
    Iri(String),
}

/// One `@graph` node: a flat relational record whose structural edges are [`OneOrMany`] lists
/// of [`IriRef`] cross-references.
#[derive(Clone, Debug, Default)]
pub struct Node {
    /// The raw IRI `@id`.
    pub id: String,
    /// `@type`: a class IRI for an instance, an `S231:*` class for library/composite nodes.
    pub types: Option<OneOrMany<String>>,
    /// `S231:hasInput`.
    pub has_input: OneOrMany<IriRef>,
    /// `S231:hasOutput`.
    pub has_output: OneOrMany<IriRef>,
    /// `S231:hasParameter`.
    pub has_parameter: OneOrMany<IriRef>,
    /// `S231:hasConstant`.
    pub has_constant: OneOrMany<IriRef>,
    /// `S231:containsBlock`.
    pub contains_block: OneOrMany<IriRef>,
    /// `S231:hasInstance`.
    pub has_instance: OneOrMany<IriRef>,
    /// `S231:isConnectedTo`.
    pub is_connected_to: OneOrMany<IriRef>,
    /// `S231:isOfDataType`.
    pub is_of_data_type: Option<IriRef>,
    /// `S231:label`.
    pub label: Option<OneOrMany<String>>,
    /// `S231:accessSpecifier`.
    pub access: Option<String>,
    /// `S231:value`.
    pub value: Option<CxfValue>,
    /// `S231:min`.
    pub min: Option<CxfValue>,
    /// `S231:max`.
    pub max: Option<CxfValue>,
    /// `S231:isFinal`.
    pub is_final: Option<bool>,
    /// `S231:isArray`.
    pub is_array: Option<bool>,
    /// `S231:numberDimensions`.
    pub n_dims: Option<i64>,
    /// `S231:sizeOfDimensions`.
    pub size_dims: Option<String>,
    /// `S231:hasFmuPath`.
    pub fmu_path: Option<String>,
    /// `S231:isConditionalComponent`.
    pub is_conditional: Option<bool>,
    /// `S231:conditionalExpression`.
    pub cond_expr: Option<String>,
    /// `S231:isReplaceable`.
    pub is_replaceable: Option<bool>,
    /// Every other key.
    pub other: Vec<(String, JsonValue)>,
}

/// A JSON-LD cross-reference `{"@id": "..."}` with any other keys on the reference object.
#[derive(Clone, Debug, Default)]
pub struct IriRef {
    /// The referenced node's IRI.
    pub id: String,
    /// Any other keys on the reference object.
    pub other: Vec<(String, JsonValue)>,
}

/// A JSON-LD property that may appear as a single value or an array.
#[derive(Clone, Debug, Default, PartialEq, Eq)]
pub enum OneOrMany<T> {
    /// Absent (the field default).
    #[default]
    Absent,
    /// Exactly one value.
    One(T),
    /// Several values.
    Many(Vec<T>),
}

/// The `S231:value`/`min`/`max` sum. A bare real is carried by its IEEE-754 bit pattern.
#[derive(Clone, Debug)]
pub enum CxfValue {
    /// A bare boolean literal.
    Bool(bool),
    /// A bare integer literal.
    Int(i64),
    /// A bare real literal, by its bits.
    Float(u64),
    /// A typed literal object `{"@value": "...", "@type": "..."}` with any other keys.
    Typed { value: String, datatype: String, extra: Vec<(String, JsonValue)> },
    /// An unevaluated expression string, or a fully-qualified enumeration value.
    Expr(String),
}

impl<T> OneOrMany<T> {
    /// The values, in document order.
    pub open spec fn items(&self) -> Seq<T> {
        match self {
            OneOrMany::Absent => Seq::empty(),
            OneOrMany::One(t) => seq![*t],
            OneOrMany::Many(v) => v@,
        }
    }

    /// View the contents as a slice: `None` → empty, `One` → one element, `Many` → the vector.
    pub fn as_slice(&self) -> (r: &[T])
        ensures
            r@ == self.items(),
    {
        match self {
            OneOrMany::Absent => {
                let e: &[T] = &[];
                assert(e@ =~= Seq::<T>::empty());
                e
            },
            OneOrMany::One(t) => one_slice(t),
            OneOrMany::Many(v) => v.as_slice(),
        }
    }

    /// Whether there are no values (`None`, or an empty `Many`).
    pub fn is_empty(&self) -> (b: bool)
        ensures
            b == (self.items().len() == 0),
    {
        self.as_slice().len() == 0
    }

    /// Number of values.
    pub fn len(&self) -> (n: usize)
        ensures
            n == self.items().len(),
    {
        self.as_slice().len()
    }

    /// Iterate over the values in document order.
    pub fn iter(&self) -> (it: std::slice::Iter<'_, T>)
        ensures
            vstd::std_specs::slice::into_iter_elts(it) == self.items(),
    {
        broadcast use vstd::std_specs::slice::axiom_spec_slice_iter;

        let s = self.as_slice();
        let it = s.iter();
        assert(vstd::std_specs::slice::into_iter_elts(it) =~= s@);
        it
    }

    /// Consume into a `Vec` (`None` → empty, `One` → one element, `Many` → the vector).
    pub fn into_vec(self) -> (v: Vec<T>)
        ensures
            v@ == self.items(),
    {
        match self {
            OneOrMany::Absent => Vec::new(),
            OneOrMany::One(t) => {
                let mut v = Vec::new();
                v.push(t);
                v
            },
            OneOrMany::Many(v) => v,
        }
    }
}

/// A one-element slice over `t` (`std::slice::from_ref`).
#[verifier::external_body]
fn one_slice<T>(t: &T) -> (r: &[T])
    ensures
        r@ == seq![*t],
{
    std::slice::from_ref(t)
}

} // verus!
