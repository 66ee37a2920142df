use vstd::prelude::*;
use vstd::multiset::Multiset;

use crate::model::{add_tx, buckets_in, entry, remove_at, Pool};
use crate::transaction::TxView;

verus! {

broadcast use vstd::seq_lib::group_to_multiset_ensures;

/// The transactions in the buckets whose fees are in `d`, counted with repetition.
pub open spec fn bag_of(p: Pool, d: Set<u64>) -> Multiset<TxView>
    decreases d.len(),
{
    if d.finite() && d.len() > 0 {
        let k = d.choose();
        p[k].to_multiset().add(bag_of(p, d.remove(k)))
    } else {
        Multiset::empty()
    }
}

/// Every pending transaction of the pool, whole, counted with repetition.
pub open spec fn contents(p: Pool) -> Multiset<TxView> {
    bag_of(p, p.dom())
}

proof fn lemma_bag_remove(p: Pool, d: Set<u64>, k: u64)
    requires
        d.finite(),
        d.contains(k),
    ensures
        bag_of(p, d) == p[k].to_multiset().add(bag_of(p, d.remove(k))),
    decreases d.len(),
{
    let c = d.choose();
    assert(d.len() > 0);
    if c != k {
        lemma_bag_remove(p, d.remove(c), k);
        lemma_bag_remove(p, d.remove(k), c);
        assert(d.remove(c).remove(k) =~= d.remove(k).remove(c));
        let r = bag_of(p, d.remove(c).remove(k));
        assert(bag_of(p, d) =~= p[k].to_multiset().add(p[c].to_multiset().add(r)));
    }
}

proof fn lemma_bag_frame(p1: Pool, p2: Pool, d: Set<u64>)
    requires
        forall|k: u64| #[trigger] d.contains(k) ==> p1[k] == p2[k],
    ensures
        bag_of(p1, d) == bag_of(p2, d),
    decreases d.len(),
{
    if d.finite() && d.len() > 0 {
        let k = d.choose();
        lemma_bag_frame(p1, p2, d.remove(k));
    }
}

/// The contents apart from the bucket at `f`.
proof fn lemma_contents_split(p: Pool, f: u64)
    requires
        p.dom().finite(),
        p.dom().contains(f),
    ensures
        contents(p) == p[f].to_multiset().add(bag_of(p, p.dom().remove(f))),
{
    lemma_bag_remove(p, p.dom(), f);
}

/// Taking the transaction at position `i` of bucket `f` out of the pool takes
/// exactly that transaction out of its contents.
pub proof fn lemma_contents_remove_at(p: Pool, f: u64, i: int)
    requires
        p.dom().finite(),
        entry(p, f, i),
    ensures
        contents(remove_at(p, f, i)).insert(p[f][i]) == contents(p),
{
    let q = remove_at(p, f, i);
    let rest = p[f].remove(i);
    let x = p[f][i];
    let others = p.dom().remove(f);
    lemma_contents_split(p, f);
    assert(rest.to_multiset() == p[f].to_multiset().remove(x));
    assert(p[f].to_multiset().count(x) > 0) by {
        assert(p[f].contains(x));
    }
    assert(rest.to_multiset().insert(x) =~= p[f].to_multiset());
    lemma_bag_frame(p, q, others);
    if rest.len() == 0 {
        assert(q.dom() =~= others);
        assert(rest.to_multiset() =~= Multiset::empty());
        assert(contents(q).insert(x) =~= contents(p));
    } else {
        assert(q.dom() =~= p.dom());
        lemma_contents_split(q, f);
        assert(contents(q).insert(x) =~= contents(p));
    }
}

/// Adding `t` to the pool adds exactly `t` to its contents.
pub proof fn lemma_contents_add(p: Pool, t: TxView)
    requires
        p.dom().finite(),
    ensures
        contents(add_tx(p, t)) == contents(p).insert(t),
{
    let q = add_tx(p, t);
    let f = t.fee;
    let others = p.dom().remove(f);
    lemma_bag_frame(p, q, others);
    if p.dom().contains(f) {
        assert(q.dom() =~= p.dom());
        lemma_contents_split(p, f);
        lemma_contents_split(q, f);
        assert(q[f] == p[f].push(t));
        assert(contents(q) =~= contents(p).insert(t));
    } else {
        assert(q.dom().remove(f) =~= p.dom());
        assert(q.dom().finite());
        lemma_contents_split(q, f);
        assert(others =~= p.dom());
        assert(seq![t] =~= Seq::<TxView>::empty().push(t));
        assert(Seq::<TxView>::empty().to_multiset() =~= Multiset::empty());
        assert(contents(q) =~= contents(p).insert(t));
    }
}

/// Listing the buckets of distinct fees one after another lists exactly the
/// transactions of those buckets.
pub proof fn lemma_flatten_contents(p: Pool, l: Seq<u64>)
    requires
        l.no_duplicates(),
    ensures
        buckets_in(p, l).flatten().to_multiset() == bag_of(p, l.to_set()),
    decreases l.len(),
{
    vstd::seq_lib::seq_to_set_is_finite(l);
    if l.len() == 0 {
        assert(l.to_set() =~= Set::<u64>::empty());
        assert(buckets_in(p, l).flatten() =~= Seq::<TxView>::empty());
        assert(Seq::<TxView>::empty().to_multiset() =~= Multiset::empty());
    } else {
        let rest = l.drop_first();
        assert(rest.no_duplicates());
        lemma_flatten_contents(p, rest);
        let bs = buckets_in(p, l);
        assert(bs.drop_first() =~= buckets_in(p, rest));
        assert(bs.first() == p[l[0]]);
        vstd::seq_lib::lemma_multiset_commutative(p[l[0]], buckets_in(p, rest).flatten());
        assert(l.to_set().contains(l[0]));
        assert(l.to_set().remove(l[0]) =~= rest.to_set()) by {
            assert forall|x: u64| #[trigger] rest.to_set().contains(x) implies x != l[0] by {
                let j = choose|j: int| 0 <= j < rest.len() && rest[j] == x;
                assert(l[j + 1] == x);
            }
            assert forall|x: u64| #[trigger] l.to_set().contains(x) && x != l[0] implies rest.to_set().contains(x) by {
                let j = choose|j: int| 0 <= j < l.len() && l[j] == x;
                assert(rest[j - 1] == x);
            }
        }
        lemma_bag_remove(p, l.to_set(), l[0]);
    }
}

} // verus!
