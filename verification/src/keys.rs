use vstd::prelude::*;
use vstd::std_specs::cmp::OrdSpec;

use crate::model::strictly_increasing;

verus! {

/// The keys a `BTreeMap` yields in increasing order are strictly increasing integers.
pub proof fn lemma_increasing_keys(ks: Seq<&u64>)
    requires
        vstd::std_specs::btree::increasing_seq(ks),
    ensures
        strictly_increasing(ks.unref()),
{
    broadcast use vstd::laws_cmp::group_laws_cmp;

    assert(vstd::laws_cmp::obeys_cmp::<&u64>());
    assert forall|i: int, j: int| 0 <= i < j < ks.len() implies *ks[i] < *ks[j] by {
        assert(OrdSpec::cmp_spec(&ks[i], &ks[j]) is Less);
    }
}

} // verus!
