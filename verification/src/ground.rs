//! The datatype half of grounding a typed literal: which XSD datatype a `@type` IRI names.
use vstd::prelude::*;
use crate::text::{after_last_in, tail_after_last_in};

verus! {

/// The fragment of an XSD datatype IRI after its last `#` or `/`
/// (`http://www.w3.org/2001/XMLSchema#double` → `double`); all of it when it has neither.
pub fn datatype_suffix(datatype: &str) -> (r: &str)
    ensures
        r@ == after_last_in(datatype@, seq!['#', '/']),
{
    let seps = ['#', '/'];
    let r = tail_after_last_in(datatype, seps.as_slice());
    assert(seps@ =~= seq!['#', '/']);
    r
}

} // verus!
