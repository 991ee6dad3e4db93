use vstd::prelude::*;

use crate::compare::normal::{lemma_common_prefix, normal_from, normal_spec};
use crate::compare::strict::strict_spec;
use crate::compare::Comparison;

verus! {

/// A stream compared with itself is accepted, exactly and up to whitespace.
pub proof fn lemma_self_accepted(x: Seq<u8>)
    ensures
        strict_spec(x, x) == Comparison::AC,
        normal_spec(x, x) == Comparison::AC,
{
    lemma_common_prefix(x, x, x.len() as int, Comparison::AC);
    let e = x.skip(x.len() as int);
    assert(e.len() == 0);
    assert(normal_from(e, e, Comparison::AC) == Comparison::AC) by {
        reveal(normal_from);
    }
}

} // verus!
