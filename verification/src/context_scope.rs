//! Refusal of node-scoped JSON-LD contexts, before identity expansion: a `@context` key on a
//! node or on one of its references would change how its tokens expand, and only the
//! document-level `@context` is supported.
use vstd::prelude::*;
use crate::diag::{appends, lemma_appends_none, lemma_appends_one, lemma_appends_trans, DiagCode, Diagnostic};
use crate::dto::{CxfDocument, IriRef, JsonValue, Node, OneOrMany};
use crate::expand::finding;
use crate::port_binding::str_eq;
use crate::text::{decimal, decimal_string, owned, push_str};

verus! {

/// `other` carries a `@context` key.
pub open spec fn has_context_key(other: Seq<(String, JsonValue)>) -> bool {
    exists|k: int| 0 <= k < other.len() && (#[trigger] other[k]).0@ == "@context"@
}

/// The refusal message for a scoped context at `location`.
pub open spec fn scoped_message(location: Seq<char>) -> Seq<char> {
    location
        + " declares a scoped `@context`; node-scoped contexts are not supported; declare required bindings in the document-level `@context`"@
}

/// The subject of node `index`: its `@id`, or its `@graph` position when it has none.
pub open spec fn node_subject(n: Node, index: nat) -> Seq<char> {
    if n.id@.len() == 0 {
        "@graph["@ + decimal(index) + "]"@
    } else {
        n.id@
    }
}

/// How node `index` is named in a message.
pub open spec fn node_owner(n: Node, index: nat) -> Seq<char> {
    if n.id@.len() == 0 {
        "node at `"@ + node_subject(n, index) + "`"@
    } else {
        "node `"@ + n.id@ + "`"@
    }
}

/// The refusals of one reference slot, in order.
pub open spec fn ref_refusals(items: Seq<IriRef>, slot: Seq<char>, owner: Seq<char>, subject: Seq<char>) -> Seq<
    (DiagCode, Seq<char>, Option<Seq<char>>),
>
    decreases items.len(),
{
    if items.len() == 0 {
        seq![]
    } else {
        ref_refusals(items.drop_last(), slot, owner, subject) + if has_context_key(items.last().other@) {
            seq![
                finding(
                    DiagCode::NonSubsetConstruct,
                    scoped_message(slot + " reference `"@ + items.last().id@ + "` on "@ + owner),
                    Some(subject),
                ),
            ]
        } else {
            seq![]
        }
    }
}

/// The refusals of node `index`: the node itself, each reference slot in turn, then its
/// datatype reference.
pub open spec fn node_refusals(n: Node, index: nat) -> Seq<(DiagCode, Seq<char>, Option<Seq<char>>)> {
    let subject = node_subject(n, index);
    let owner = node_owner(n, index);
    (if has_context_key(n.other@) {
        seq![finding(DiagCode::NonSubsetConstruct, scoped_message(owner), Some(subject))]
    } else {
        seq![]
    }) + ref_refusals(n.has_input.items(), "S231:hasInput"@, owner, subject) + ref_refusals(
        n.has_output.items(),
        "S231:hasOutput"@,
        owner,
        subject,
    ) + ref_refusals(n.has_parameter.items(), "S231:hasParameter"@, owner, subject) + ref_refusals(
        n.has_constant.items(),
        "S231:hasConstant"@,
        owner,
        subject,
    ) + ref_refusals(n.contains_block.items(), "S231:containsBlock"@, owner, subject) + ref_refusals(
        n.has_instance.items(),
        "S231:hasInstance"@,
        owner,
        subject,
    ) + ref_refusals(n.is_connected_to.items(), "S231:isConnectedTo"@, owner, subject) + datatype_refusals(
        n.is_of_data_type,
        owner,
        subject,
    )
}

/// The refusal of a scoped context on a datatype reference.
pub open spec fn datatype_refusals(r: Option<IriRef>, owner: Seq<char>, subject: Seq<char>) -> Seq<
    (DiagCode, Seq<char>, Option<Seq<char>>),
> {
    match r {
        Some(r) => if has_context_key(r.other@) {
            seq![
                finding(
                    DiagCode::NonSubsetConstruct,
                    scoped_message("S231:isOfDataType reference `"@ + r.id@ + "` on "@ + owner),
                    Some(subject),
                ),
            ]
        } else {
            seq![]
        },
        None => seq![],
    }
}

/// The refusals of the first `k` nodes, in order.
pub open spec fn document_refusals(nodes: Seq<Node>, k: nat) -> Seq<(DiagCode, Seq<char>, Option<Seq<char>>)>
    decreases k,
{
    if k == 0 || k > nodes.len() {
        seq![]
    } else {
        document_refusals(nodes, (k - 1) as nat) + node_refusals(nodes[k - 1], (k - 1) as nat)
    }
}

/// Whether `other` carries a `@context` key.
fn context_key_in(other: &Vec<(String, JsonValue)>) -> (b: bool)
    ensures
        b == has_context_key(other@),
{
    let mut k: usize = 0;
    while k < other.len()
        invariant
            k <= other@.len(),
            forall|j: int| 0 <= j < k ==> (#[trigger] other@[j]).0@ != "@context"@,
        decreases other@.len() - k,
    {
        if str_eq(other[k].0.as_str(), "@context") {
            return true;
        }
        k += 1;
    }
    false
}

fn refusal(location: String, subject: &str) -> (d: Diagnostic)
    ensures
        d.severity == crate::diag::Severity::Error,
        d.code == DiagCode::NonSubsetConstruct,
        d.message@ == scoped_message(location@),
        d.subject matches Some(s) && s@ == subject@,
{
    let mut m = location;
    push_str(
        &mut m,
        " declares a scoped `@context`; node-scoped contexts are not supported; declare required bindings in the document-level `@context`",
    );
    Diagnostic::error(DiagCode::NonSubsetConstruct, m).with_subject(owned(subject))
}

/// Refuse every scoped context of one reference slot.
fn refuse_refs(refs: &OneOrMany<IriRef>, slot: &str, owner: &str, subject: &str, diags: &mut Vec<Diagnostic>)
    ensures
        appends(old(diags)@, final(diags)@, ref_refusals(refs.items(), slot@, owner@, subject@)),
{
    let items = refs.as_slice();
    proof {
        lemma_appends_none(diags@);
    }
    let mut i: usize = 0;
    while i < items.len()
        invariant
            items@ == refs.items(),
            i <= items@.len(),
            appends(old(diags)@, diags@, ref_refusals(items@.take(i as int), slot@, owner@, subject@)),
        decreases items@.len() - i,
    {
        let ghost before = diags@;
        proof {
            assert(items@.take(i + 1).drop_last() =~= items@.take(i as int));
            assert(items@.take(i + 1).last() == items@[i as int]);
        }
        if context_key_in(&items[i].other) {
            let mut location = owned(slot);
            push_str(&mut location, " reference `");
            push_str(&mut location, items[i].id.as_str());
            push_str(&mut location, "` on ");
            push_str(&mut location, owner);
            let d = refusal(location, subject);
            diags.push(d);
            proof {
                lemma_appends_one(
                    before,
                    d,
                    finding(
                        DiagCode::NonSubsetConstruct,
                        scoped_message(slot@ + " reference `"@ + items@[i as int].id@ + "` on "@ + owner@),
                        Some(subject@),
                    ),
                );
            }
        } else {
            proof {
                lemma_appends_none(before);
            }
        }
        proof {
            let step = ref_refusals(items@.take(i + 1), slot@, owner@, subject@);
            let prev = ref_refusals(items@.take(i as int), slot@, owner@, subject@);
            lemma_appends_trans(old(diags)@, before, diags@, prev, step.subrange(prev.len() as int, step.len() as int));
            assert(prev + step.subrange(prev.len() as int, step.len() as int) =~= step);
        }
        i += 1;
    }
    proof {
        assert(items@.take(items@.len() as int) =~= items@);
    }
}

/// Refuse every node-scoped `@context` of a document, in node order.
pub fn collect_refusals(doc: &CxfDocument, diags: &mut Vec<Diagnostic>)
    ensures
        appends(old(diags)@, final(diags)@, document_refusals(doc.graph@, doc.graph@.len())),
{
    proof {
        lemma_appends_none(diags@);
    }
    let mut index: usize = 0;
    while index < doc.graph.len()
        invariant
            index <= doc.graph@.len(),
            appends(old(diags)@, diags@, document_refusals(doc.graph@, index as nat)),
        decreases doc.graph@.len() - index,
    {
        let node = &doc.graph[index];
        let ghost before = diags@;
        let (subject, owner) = if node.id.as_str().unicode_len() == 0 {
            let mut subject = owned("@graph[");
            push_str(&mut subject, decimal_string(index).as_str());
            push_str(&mut subject, "]");
            let mut owner = owned("node at `");
            push_str(&mut owner, subject.as_str());
            push_str(&mut owner, "`");
            (subject, owner)
        } else {
            let mut owner = owned("node `");
            push_str(&mut owner, node.id.as_str());
            push_str(&mut owner, "`");
            (owned(node.id.as_str()), owner)
        };
        assert(subject@ == node_subject(*node, index as nat));
        assert(owner@ =~= node_owner(*node, index as nat));
        let ghost f0: Seq<(DiagCode, Seq<char>, Option<Seq<char>>)> = if has_context_key(node.other@) {
            seq![finding(DiagCode::NonSubsetConstruct, scoped_message(owner@), Some(subject@))]
        } else {
            seq![]
        };
        if context_key_in(&node.other) {
            let d = refusal(owned(owner.as_str()), subject.as_str());
            diags.push(d);
            proof {
                lemma_appends_one(before, d, f0[0]);
            }
        } else {
            proof {
                lemma_appends_none(before);
            }
        }
        let ghost d1 = diags@;
        refuse_refs(&node.has_input, "S231:hasInput", owner.as_str(), subject.as_str(), diags);
        let ghost d2 = diags@;
        let ghost f1 = ref_refusals(node.has_input.items(), "S231:hasInput"@, owner@, subject@);
        proof {
            lemma_appends_trans(before, d1, d2, f0, f1);
        }
        refuse_refs(&node.has_output, "S231:hasOutput", owner.as_str(), subject.as_str(), diags);
        let ghost d3 = diags@;
        let ghost f2 = ref_refusals(node.has_output.items(), "S231:hasOutput"@, owner@, subject@);
        proof {
            lemma_appends_trans(before, d2, d3, f0 + f1, f2);
        }
        refuse_refs(&node.has_parameter, "S231:hasParameter", owner.as_str(), subject.as_str(), diags);
        let ghost d4 = diags@;
        let ghost f3 = ref_refusals(node.has_parameter.items(), "S231:hasParameter"@, owner@, subject@);
        proof {
            lemma_appends_trans(before, d3, d4, f0 + f1 + f2, f3);
        }
        refuse_refs(&node.has_constant, "S231:hasConstant", owner.as_str(), subject.as_str(), diags);
        let ghost d5 = diags@;
        let ghost f4 = ref_refusals(node.has_constant.items(), "S231:hasConstant"@, owner@, subject@);
        proof {
            lemma_appends_trans(before, d4, d5, f0 + f1 + f2 + f3, f4);
        }
        refuse_refs(&node.contains_block, "S231:containsBlock", owner.as_str(), subject.as_str(), diags);
        let ghost d6 = diags@;
        let ghost f5 = ref_refusals(node.contains_block.items(), "S231:containsBlock"@, owner@, subject@);
        proof {
            lemma_appends_trans(before, d5, d6, f0 + f1 + f2 + f3 + f4, f5);
        }
        refuse_refs(&node.has_instance, "S231:hasInstance", owner.as_str(), subject.as_str(), diags);
        let ghost d7 = diags@;
        let ghost f6 = ref_refusals(node.has_instance.items(), "S231:hasInstance"@, owner@, subject@);
        proof {
            lemma_appends_trans(before, d6, d7, f0 + f1 + f2 + f3 + f4 + f5, f6);
        }
        refuse_refs(&node.is_connected_to, "S231:isConnectedTo", owner.as_str(), subject.as_str(), diags);
        let ghost d8 = diags@;
        let ghost f7 = ref_refusals(node.is_connected_to.items(), "S231:isConnectedTo"@, owner@, subject@);
        proof {
            lemma_appends_trans(before, d7, d8, f0 + f1 + f2 + f3 + f4 + f5 + f6, f7);
        }
        let ghost f8: Seq<(DiagCode, Seq<char>, Option<Seq<char>>)> = datatype_refusals(
            node.is_of_data_type,
            owner@,
            subject@,
        );
        match &node.is_of_data_type {
            Some(reference) => {
                if context_key_in(&reference.other) {
                    let mut location = owned("S231:isOfDataType reference `");
                    push_str(&mut location, reference.id.as_str());
                    push_str(&mut location, "` on ");
                    push_str(&mut location, owner.as_str());
                    let d = refusal(location, subject.as_str());
                    diags.push(d);
                    proof {
                        lemma_appends_one(d8, d, f8[0]);
                    }
                } else {
                    proof {
                        lemma_appends_none(d8);
                    }
                }
            },
            None => {
                proof {
                    lemma_appends_none(d8);
                }
            },
        }
        proof {
            lemma_appends_trans(before, d8, diags@, f0 + f1 + f2 + f3 + f4 + f5 + f6 + f7, f8);
            assert(f0 + f1 + f2 + f3 + f4 + f5 + f6 + f7 + f8 =~= node_refusals(doc.graph@[index as int], index as nat));
            lemma_appends_trans(
                old(diags)@,
                before,
                diags@,
                document_refusals(doc.graph@, index as nat),
                node_refusals(doc.graph@[index as int], index as nat),
            );
        }
        index += 1;
    }
}

} // verus!
