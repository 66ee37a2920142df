use vstd::prelude::*;

use crate::laws::{
    counted_rejection, lemma_offer_counters, lemma_offer_keeps_wf, lemma_take_keeps_wf,
    offer_evicts, fees_non_decreasing, lemma_listings_sorted,
};
use crate::model::{
    accept_tx, ascending, buckets_in, chain_accepts, count, descending, evict, highest,
    lemma_count_zero, lemma_extreme_levels, lemma_levels, lemma_levels_are, levels, lowest,
    nonce_overflows, pool_wf, prefix, take_back, take_best, wrap_inc, Pool, PoolState,
};
use crate::transaction::TxView;

verus! {

/// A call that changes a pool, with what the chain reported for an offer.
pub enum PoolOp {
    Offer { tx: TxView, onchain_nonce: u64, onchain_balance: Option<u64> },
    PopWorst,
    PopBest,
    Subscribe,
}

/// The state after one call.
pub open spec fn step(s: PoolState, op: PoolOp) -> PoolState {
    match op {
        PoolOp::Offer { tx, onchain_nonce, onchain_balance } => accept_tx(
            s,
            tx,
            onchain_nonce,
            onchain_balance,
        ).0,
        PoolOp::PopWorst => evict(s).0,
        PoolOp::PopBest => take_best(s).0,
        PoolOp::Subscribe => PoolState { subscribed: true, notices: Seq::empty(), ..s },
    }
}

/// The state after a sequence of calls, first call first.
pub open spec fn run(s: PoolState, ops: Seq<PoolOp>) -> PoolState
    decreases ops.len(),
{
    if ops.len() == 0 {
        s
    } else {
        step(run(s, ops.drop_last()), ops.last())
    }
}

/// The call may be made: an offer must not reach the nonce check at the top of `u64`.
pub open spec fn step_allowed(s: PoolState, op: PoolOp) -> bool {
    match op {
        PoolOp::Offer { tx, onchain_nonce, onchain_balance } => chain_accepts(
            tx,
            onchain_nonce,
            onchain_balance,
        ) ==> !nonce_overflows(s, tx),
        _ => true,
    }
}

/// Every call of the sequence may be made in the state it meets.
pub open spec fn run_allowed(s: PoolState, ops: Seq<PoolOp>) -> bool
    decreases ops.len(),
{
    if ops.len() == 0 {
        true
    } else {
        run_allowed(s, ops.drop_last()) && step_allowed(run(s, ops.drop_last()), ops.last())
    }
}

/// The call evicts: a worst transaction is taken, or an offer takes a new slot in a full pool.
pub open spec fn step_evicts(s: PoolState, op: PoolOp) -> bool {
    match op {
        PoolOp::Offer { tx, onchain_nonce, onchain_balance } => offer_evicts(
            s,
            tx,
            onchain_nonce,
            onchain_balance,
        ),
        PoolOp::PopWorst => s.pool.dom().len() != 0,
        _ => false,
    }
}

/// The call is a counted rejection.
pub open spec fn step_rejects(s: PoolState, op: PoolOp) -> bool {
    match op {
        PoolOp::Offer { tx, onchain_nonce, onchain_balance } => counted_rejection(
            accept_tx(s, tx, onchain_nonce, onchain_balance).1,
        ),
        _ => false,
    }
}

/// How many calls of the sequence evict.
pub open spec fn evictions_in(s: PoolState, ops: Seq<PoolOp>) -> nat
    decreases ops.len(),
{
    if ops.len() == 0 {
        0
    } else {
        evictions_in(s, ops.drop_last()) + if step_evicts(run(s, ops.drop_last()), ops.last()) {
            1nat
        } else {
            0nat
        }
    }
}

/// How many calls of the sequence are counted rejections.
pub open spec fn rejections_in(s: PoolState, ops: Seq<PoolOp>) -> nat
    decreases ops.len(),
{
    if ops.len() == 0 {
        0
    } else {
        rejections_in(s, ops.drop_last()) + if step_rejects(run(s, ops.drop_last()), ops.last()) {
            1nat
        } else {
            0nat
        }
    }
}

/// `n` advanced by `k`, wrapping at the top of `u64`.
pub open spec fn wrap_add(n: u64, k: nat) -> u64 {
    ((n + k) % 0x1_0000_0000_0000_0000) as u64
}

proof fn lemma_wrap_add_step(n: u64, k: nat)
    ensures
        wrap_inc(wrap_add(n, k)) == wrap_add(n, k + 1),
{
    let m: int = 0x1_0000_0000_0000_0000;
    let a = (n + k) % m;
    assert(0 <= a < m) by (nonlinear_arith)
        requires
            m > 0,
            a == (n + k) % m,
    ;
    assert((n + k + 1) % m == if a == m - 1 {
        0
    } else {
        a + 1
    }) by (nonlinear_arith)
        requires
            m > 0,
            a == (n + k) % m,
            0 <= a < m,
    ;
}

/// Over any sequence of calls from a well-formed pool, the pool stays well
/// formed (within capacity, every fee at least the minimum, one transaction
/// per sender and nonce, no empty fee level), and its capacity and minimum fee
/// never change.
pub proof fn lemma_run_keeps_wf(s: PoolState, ops: Seq<PoolOp>)
    requires
        pool_wf(s),
        run_allowed(s, ops),
    ensures
        pool_wf(run(s, ops)),
        run(s, ops).capacity == s.capacity,
        run(s, ops).min_fee == s.min_fee,
    decreases ops.len(),
{
    if ops.len() > 0 {
        let pre = run(s, ops.drop_last());
        lemma_run_keeps_wf(s, ops.drop_last());
        match ops.last() {
            PoolOp::Offer { tx, onchain_nonce, onchain_balance } => {
                lemma_offer_keeps_wf(pre, tx, onchain_nonce, onchain_balance);
                lemma_offer_counters(pre, tx, onchain_nonce, onchain_balance);
            },
            PoolOp::PopWorst => {
                lemma_take_keeps_wf(pre);
            },
            PoolOp::PopBest => {
                lemma_take_keeps_wf(pre);
            },
            PoolOp::Subscribe => {},
        }
    }
}

/// Over any sequence of calls, the eviction counter advances (wrapping) by the
/// number of calls that evict, and the rejection counter by the number of
/// counted rejections; taking the best transaction, subscribing and rejected or
/// replacing offers leave the eviction counter alone.
pub proof fn lemma_run_counters(s: PoolState, ops: Seq<PoolOp>)
    ensures
        run(s, ops).evictions == wrap_add(s.evictions, evictions_in(s, ops)),
        run(s, ops).rejections == wrap_add(s.rejections, rejections_in(s, ops)),
    decreases ops.len(),
{
    if ops.len() == 0 {
        assert(wrap_add(s.evictions, 0) == s.evictions);
        assert(wrap_add(s.rejections, 0) == s.rejections);
    } else {
        let pre = run(s, ops.drop_last());
        lemma_run_counters(s, ops.drop_last());
        let e = evictions_in(s, ops.drop_last());
        let r = rejections_in(s, ops.drop_last());
        lemma_wrap_add_step(s.evictions, e);
        lemma_wrap_add_step(s.rejections, r);
        match ops.last() {
            PoolOp::Offer { tx, onchain_nonce, onchain_balance } => {
                lemma_offer_counters(pre, tx, onchain_nonce, onchain_balance);
            },
            _ => {},
        }
    }
}

/// The transaction the call evicts, if it evicts one: the newest at the lowest fee.
pub open spec fn step_evicted(s: PoolState, op: PoolOp) -> Seq<TxView> {
    if step_evicts(s, op) {
        seq![s.pool[lowest(s.pool)].last()]
    } else {
        Seq::empty()
    }
}

/// The transactions the calls of the sequence evict, in the order they leave.
pub open spec fn evicted_in(s: PoolState, ops: Seq<PoolOp>) -> Seq<TxView>
    decreases ops.len(),
{
    if ops.len() == 0 {
        Seq::empty()
    } else {
        evicted_in(s, ops.drop_last()) + step_evicted(run(s, ops.drop_last()), ops.last())
    }
}

/// Over any sequence of calls that makes no new subscription, the subscription
/// stays as it was, and it is handed exactly the evicted transactions, in the
/// order they were evicted; without a subscription nothing is handed out.
pub proof fn lemma_run_notices(s: PoolState, ops: Seq<PoolOp>)
    requires
        forall|i: int| 0 <= i < ops.len() ==> !(#[trigger] ops[i] is Subscribe),
    ensures
        run(s, ops).subscribed == s.subscribed,
        run(s, ops).notices == if s.subscribed {
            s.notices + evicted_in(s, ops)
        } else {
            s.notices
        },
    decreases ops.len(),
{
    if ops.len() > 0 {
        let front = ops.drop_last();
        let pre = run(s, front);
        assert forall|i: int| 0 <= i < front.len() implies !(#[trigger] front[i] is Subscribe) by {
            assert(front[i] == ops[i]);
        }
        lemma_run_notices(s, front);
        assert(!(ops[ops.len() - 1] is Subscribe));
        match ops.last() {
            PoolOp::Offer { tx, onchain_nonce, onchain_balance } => {
                lemma_offer_counters(pre, tx, onchain_nonce, onchain_balance);
            },
            _ => {},
        }
        assert(s.notices + evicted_in(s, ops) =~= (s.notices + evicted_in(s, front))
            + step_evicted(pre, ops.last()));
    }
}

/// A new subscription starts with nothing handed to it, and over any later
/// calls that make no further subscription it is handed exactly the
/// transactions they evict, in order.
pub proof fn lemma_subscription_hears(s: PoolState, ops: Seq<PoolOp>)
    requires
        forall|i: int| 0 <= i < ops.len() ==> !(#[trigger] ops[i] is Subscribe),
    ensures
        step(s, PoolOp::Subscribe).notices == Seq::<TxView>::empty(),
        run(step(s, PoolOp::Subscribe), ops).notices == evicted_in(step(s, PoolOp::Subscribe), ops),
{
    let s1 = step(s, PoolOp::Subscribe);
    lemma_run_notices(s1, ops);
    assert(s1.notices + evicted_in(s1, ops) =~= evicted_in(s1, ops));
}

/// The fees along `s`.
pub open spec fn fees_of(s: Seq<TxView>) -> Seq<u64> {
    s.map_values(|t: TxView| t.fee)
}

/// Flattening buckets taken in `order` splits off the first bucket; after the
/// newest transaction of that bucket is removed, the rest is unchanged.
proof fn lemma_front_bucket(p: Pool, f: u64, order: Seq<u64>, order2: Seq<u64>)
    requires
        order.len() > 0,
        order[0] == f,
        forall|i: int| 1 <= i < order.len() ==> order[i] != f,
        p.dom().contains(f),
        p[f].len() > 0,
        order2 == if p[f].len() > 1 {
            order
        } else {
            order.drop_first()
        },
    ensures
        buckets_in(p, order).flatten() == p[f] + buckets_in(p, order.drop_first()).flatten(),
        buckets_in(take_back(p, f), order2).flatten() == p[f].drop_last() + buckets_in(
            p,
            order.drop_first(),
        ).flatten(),
{
    let q = take_back(p, f);
    let rest = order.drop_first();
    assert(buckets_in(p, order).drop_first() =~= buckets_in(p, rest));
    assert(buckets_in(q, rest) =~= buckets_in(p, rest)) by {
        assert forall|i: int| 0 <= i < rest.len() implies q[rest[i]] == p[rest[i]] by {
            assert(order[i + 1] == rest[i]);
        }
    }
    if p[f].len() > 1 {
        assert(buckets_in(q, order).drop_first() =~= buckets_in(q, rest));
        assert(buckets_in(q, order)[0] == p[f].drop_last());
    } else {
        assert(p[f].drop_last() =~= Seq::<TxView>::empty());
        assert(p[f].drop_last() + buckets_in(p, rest).flatten() =~= buckets_in(p, rest).flatten());
    }
}

/// Fee levels after the newest transaction at the lowest or highest level leaves.
proof fn lemma_levels_after_take(p: Pool, f: u64)
    requires
        p.dom().finite(),
        p.dom().contains(f),
        p[f].len() > 0,
        f == lowest(p) || f == highest(p),
    ensures
        p[f].len() > 1 ==> levels(take_back(p, f)) == levels(p),
        p[f].len() == 1 && f == lowest(p) ==> levels(take_back(p, f)) == levels(p).drop_first(),
        p[f].len() == 1 && f == highest(p) ==> levels(take_back(p, f)) == levels(p).drop_last(),
{
    let q = take_back(p, f);
    lemma_levels(p);
    let l = levels(p);
    if p[f].len() > 1 {
        assert(q.dom() =~= p.dom());
    } else {
        assert(q.dom() =~= p.dom().remove(f));
        if f == lowest(p) {
            let d = l.drop_first();
            assert forall|x: u64| #[trigger] d.to_set().contains(x) <==> q.dom().contains(x) by {
                if d.to_set().contains(x) {
                    let i = choose|i: int| 0 <= i < d.len() && d[i] == x;
                    assert(l[i + 1] == x);
                    assert(l.to_set().contains(x));
                }
                if q.dom().contains(x) {
                    assert(l.to_set().contains(x));
                    let i = choose|i: int| 0 <= i < l.len() && l[i] == x;
                    assert(d[i - 1] == x);
                }
            }
            assert(d.to_set() =~= q.dom());
            lemma_levels_are(q, d);
        }
        if f == highest(p) {
            let d = l.drop_last();
            assert forall|x: u64| #[trigger] d.to_set().contains(x) <==> q.dom().contains(x) by {
                if d.to_set().contains(x) {
                    let i = choose|i: int| 0 <= i < d.len() && d[i] == x;
                    assert(l[i] == x);
                    assert(l.to_set().contains(x));
                }
                if q.dom().contains(x) {
                    assert(l.to_set().contains(x));
                    let i = choose|i: int| 0 <= i < l.len() && l[i] == x;
                    assert(d[i] == x);
                }
            }
            assert(d.to_set() =~= q.dom());
            lemma_levels_are(q, d);
        }
    }
}

/// One eviction: the evicted transaction, followed by what stays in ascending
/// order, has the fees of the pool's ascending order and the same transactions.
proof fn lemma_evict_step(s: PoolState)
    requires
        pool_wf(s),
        s.pool.dom().len() != 0,
    ensures
        ({
            let (s2, out) = evict(s);
            &&& fees_of(seq![out->0] + ascending(s2.pool)) == fees_of(ascending(s.pool))
            &&& (seq![out->0] + ascending(s2.pool)).to_multiset() == ascending(s.pool).to_multiset()
        }),
{
    let p = s.pool;
    lemma_extreme_levels(p);
    lemma_levels(p);
    let f = lowest(p);
    let l = levels(p);
    let t = p[f].last();
    let order2 = if p[f].len() > 1 {
        l
    } else {
        l.drop_first()
    };
    lemma_levels_after_take(p, f);
    lemma_front_bucket(p, f, l, order2);
    let x = buckets_in(p, l.drop_first()).flatten();
    let q = take_back(p, f);
    assert(ascending(q) == p[f].drop_last() + x);
    assert(ascending(p) == p[f] + x);
    assert(p[f] =~= p[f].drop_last().push(t));
    assert forall|i: int| 0 <= i < p[f].len() implies #[trigger] p[f][i].fee == f by {
        assert(p[f][i].fee == f);
    }
    assert(fees_of(seq![t] + ascending(q)) =~= fees_of(ascending(p)));
    vstd::seq_lib::lemma_multiset_commutative(seq![t], p[f].drop_last() + x);
    vstd::seq_lib::lemma_multiset_commutative(p[f].drop_last(), x);
    vstd::seq_lib::lemma_multiset_commutative(p[f], x);
    vstd::seq_lib::lemma_multiset_commutative(p[f].drop_last(), seq![t]);
    assert(p[f].drop_last() + seq![t] =~= p[f]);
}

/// One take of the best: the taken transaction, followed by what stays in
/// descending order, has the fees of the pool's descending order.
proof fn lemma_best_step(s: PoolState)
    requires
        pool_wf(s),
        s.pool.dom().len() != 0,
    ensures
        ({
            let (s2, out) = take_best(s);
            fees_of(seq![out->0] + descending(s2.pool)) == fees_of(descending(s.pool))
        }),
{
    let p = s.pool;
    lemma_extreme_levels(p);
    lemma_levels(p);
    let f = highest(p);
    let l = levels(p);
    let r = l.reverse();
    let t = p[f].last();
    let order2 = if p[f].len() > 1 {
        r
    } else {
        r.drop_first()
    };
    lemma_levels_after_take(p, f);
    assert forall|i: int| 1 <= i < r.len() implies r[i] != f by {
        assert(r[i] == l[l.len() - 1 - i]);
    }
    lemma_front_bucket(p, f, r, order2);
    let q = take_back(p, f);
    if p[f].len() == 1 {
        assert(l.drop_last().reverse() =~= r.drop_first());
    }
    let x = buckets_in(p, r.drop_first()).flatten();
    assert(descending(q) == p[f].drop_last() + x);
    assert(descending(p) == p[f] + x);
    assert forall|i: int| 0 <= i < p[f].len() implies #[trigger] p[f][i].fee == f by {
        assert(p[f][i].fee == f);
    }
    assert(fees_of(seq![t] + descending(q)) =~= fees_of(descending(p)));
}

/// The transactions that `k` successive `pop_worst` calls return, and the state after them.
pub open spec fn drain_worst(s: PoolState, k: nat) -> (PoolState, Seq<TxView>)
    decreases k,
{
    if k == 0 {
        (s, Seq::empty())
    } else {
        match evict(s).1 {
            Some(t) => {
                let (s2, rest) = drain_worst(evict(s).0, (k - 1) as nat);
                (s2, seq![t] + rest)
            },
            None => (s, Seq::empty()),
        }
    }
}

/// The transactions that `k` successive `pop_best` calls return, and the state after them.
pub open spec fn drain_best(s: PoolState, k: nat) -> (PoolState, Seq<TxView>)
    decreases k,
{
    if k == 0 {
        (s, Seq::empty())
    } else {
        match take_best(s).1 {
            Some(t) => {
                let (s2, rest) = drain_best(take_best(s).0, (k - 1) as nat);
                (s2, seq![t] + rest)
            },
            None => (s, Seq::empty()),
        }
    }
}

proof fn lemma_drain_worst_inner(s: PoolState, k: nat)
    requires
        pool_wf(s),
    ensures
        ({
            let (s2, out) = drain_worst(s, k);
            &&& pool_wf(s2)
            &&& fees_of(out + ascending(s2.pool)) == fees_of(ascending(s.pool))
            &&& (out + ascending(s2.pool)).to_multiset() == ascending(s.pool).to_multiset()
            &&& out.len() == if k < count(s.pool) {
                k
            } else {
                count(s.pool)
            }
            &&& count(s2.pool) + out.len() == count(s.pool)
        }),
    decreases k,
{
    lemma_count_zero(s.pool);
    if k > 0 && s.pool.dom().len() != 0 {
        let s1 = evict(s).0;
        let t = evict(s).1->0;
        lemma_take_keeps_wf(s);
        lemma_evict_step(s);
        lemma_drain_worst_inner(s1, (k - 1) as nat);
        let (s2, rest) = drain_worst(s1, (k - 1) as nat);
        assert(seq![t] + rest + ascending(s2.pool) =~= seq![t] + (rest + ascending(s2.pool)));
        assert(fees_of(seq![t] + (rest + ascending(s2.pool))) =~= fees_of(seq![t]) + fees_of(
            rest + ascending(s2.pool),
        ));
        assert(fees_of(seq![t] + ascending(s1.pool)) =~= fees_of(seq![t]) + fees_of(
            ascending(s1.pool),
        ));
        vstd::seq_lib::lemma_multiset_commutative(seq![t], rest + ascending(s2.pool));
        vstd::seq_lib::lemma_multiset_commutative(seq![t], ascending(s1.pool));
    } else {
        assert(Seq::<TxView>::empty() + ascending(s.pool) =~= ascending(s.pool));
    }
}

/// Repeated `pop_worst` drains the pool cheapest first: the fees it returns
/// never fall, they are the fees of the pool in ascending order, it returns
/// every pending transaction once (as a multiset) before returning nothing,
/// and the pool is empty after as many calls as it held transactions.
pub proof fn lemma_drain_worst(s: PoolState, k: nat)
    requires
        pool_wf(s),
    ensures
        ({
            let (s2, out) = drain_worst(s, k);
            &&& fees_non_decreasing(out)
            &&& fees_of(out) == fees_of(ascending(s.pool)).take(out.len() as int)
            &&& out.len() == if k < count(s.pool) {
                k
            } else {
                count(s.pool)
            }
            &&& k >= count(s.pool) ==> s2.pool.dom().len() == 0 && out.to_multiset()
                == ascending(s.pool).to_multiset()
        }),
{
    lemma_drain_worst_inner(s, k);
    lemma_listings_sorted(s, 0);
    let (s2, out) = drain_worst(s, k);
    let asc = ascending(s.pool);
    assert(fees_of(out + ascending(s2.pool)).take(out.len() as int) =~= fees_of(out));
    assert forall|i: int, j: int| 0 <= i < j < out.len() implies out[i].fee <= out[j].fee by {
        assert(fees_of(out)[i] == asc[i].fee);
        assert(fees_of(out)[j] == asc[j].fee);
    }
    if k >= count(s.pool) {
        lemma_take_keeps_wf(s2);
        lemma_count_zero(s2.pool);
        lemma_listings_sorted(s2, 0);
        assert(ascending(s2.pool) =~= Seq::<TxView>::empty());
        assert(out + ascending(s2.pool) =~= out);
    }
}

proof fn lemma_drain_best_inner(s: PoolState, k: nat)
    requires
        pool_wf(s),
    ensures
        ({
            let (s2, out) = drain_best(s, k);
            &&& pool_wf(s2)
            &&& fees_of(out + descending(s2.pool)) == fees_of(descending(s.pool))
            &&& out.len() == if k < count(s.pool) {
                k
            } else {
                count(s.pool)
            }
        }),
    decreases k,
{
    lemma_count_zero(s.pool);
    if k > 0 && s.pool.dom().len() != 0 {
        let s1 = take_best(s).0;
        let t = take_best(s).1->0;
        lemma_take_keeps_wf(s);
        lemma_best_step(s);
        lemma_drain_best_inner(s1, (k - 1) as nat);
        let (s2, rest) = drain_best(s1, (k - 1) as nat);
        assert(seq![t] + rest + descending(s2.pool) =~= seq![t] + (rest + descending(s2.pool)));
        assert(fees_of(seq![t] + (rest + descending(s2.pool))) =~= fees_of(seq![t]) + fees_of(
            rest + descending(s2.pool),
        ));
        assert(fees_of(seq![t] + descending(s1.pool)) =~= fees_of(seq![t]) + fees_of(
            descending(s1.pool),
        ));
    } else {
        assert(Seq::<TxView>::empty() + descending(s.pool) =~= descending(s.pool));
    }
}

/// A snapshot previews `pop_best`: `k` successive `pop_best` calls return
/// transactions with the fees of `snapshot(k)`, in the same order (among equal
/// fees the two may name different transactions).
pub proof fn lemma_snapshot_previews_best(s: PoolState, k: nat)
    requires
        pool_wf(s),
    ensures
        fees_of(drain_best(s, k).1) == fees_of(prefix(descending(s.pool), k)),
{
    lemma_drain_best_inner(s, k);
    lemma_listings_sorted(s, k);
    let (s2, out) = drain_best(s, k);
    assert(fees_of(out + descending(s2.pool)).take(out.len() as int) =~= fees_of(out));
    assert(fees_of(prefix(descending(s.pool), k)) =~= fees_of(descending(s.pool)).take(
        out.len() as int,
    ));
}

} // verus!
