use vstd::prelude::*;

use crate::contents::{contents, lemma_contents_add, lemma_contents_remove_at, lemma_flatten_contents};
use crate::errors::Rejection;
use crate::model::{
    accept_tx, add_tx, ascending, drop_slot, reject, buckets_in, chain_accepts, count,
    descending, entry, evict, expected_nonce, highest, holds_slot, lemma_count_zero,
    lemma_drop_slot_frees, lemma_extreme_levels, lemma_flat_len, lemma_levels,
    lemma_remove_at_keeps_free, lemma_slot_pos, lemma_slot_pos_is, lemma_take_back_is_remove_at,
    lemma_wf_add, lemma_wf_remove_at, levels, lowest, nonce_overflows, outbid_by_pending,
    pool_wf, prefix, slot_pos, slot_tx, take_back, take_best, wrap_inc, Pool, PoolState,
};
use crate::transaction::TxView;

verus! {

/// Dropping the transaction of a held slot keeps the pool well formed and frees the slot.
proof fn lemma_replace_wf(s: PoolState, t: TxView)
    requires
        pool_wf(s),
        holds_slot(s.pool, t.sender, t.nonce),
    ensures
        pool_wf(PoolState { pool: drop_slot(s.pool, t.sender, t.nonce), ..s }),
        !holds_slot(drop_slot(s.pool, t.sender, t.nonce), t.sender, t.nonce),
        count(drop_slot(s.pool, t.sender, t.nonce)) + 1 == count(s.pool),
{
    lemma_slot_pos(s.pool, t.sender, t.nonce);
    let (f, i) = slot_pos(s.pool, t.sender, t.nonce);
    lemma_wf_remove_at(s, f, i);
    lemma_drop_slot_frees(s, t.sender, t.nonce);
}

/// Evicting from a full pool leaves room, keeps it well formed and frees no slot.
proof fn lemma_evict_room(s: PoolState, t: TxView)
    requires
        pool_wf(s),
        s.pool.dom().len() != 0,
        !holds_slot(s.pool, t.sender, t.nonce),
    ensures
        pool_wf(evict(s).0),
        count(evict(s).0.pool) + 1 == count(s.pool),
        !holds_slot(evict(s).0.pool, t.sender, t.nonce),
{
    lemma_extreme_levels(s.pool);
    let f = lowest(s.pool);
    lemma_take_back_is_remove_at(s.pool, f);
    lemma_wf_remove_at(s, f, s.pool[f].len() - 1);
    lemma_remove_at_keeps_free(s.pool, f, s.pool[f].len() - 1, t.sender, t.nonce);
}

/// Offering a transaction keeps the pool well formed: every bucket is
/// non-empty and holds only its own fee, every pending transaction pays at
/// least the minimum fee, no two pending transactions share a sender and a
/// nonce, and the pool never holds more than its capacity.
pub proof fn lemma_offer_keeps_wf(
    s: PoolState,
    t: TxView,
    onchain_nonce: u64,
    onchain_balance: Option<u64>,
)
    requires
        pool_wf(s),
        chain_accepts(t, onchain_nonce, onchain_balance) ==> !nonce_overflows(s, t),
    ensures
        pool_wf(accept_tx(s, t, onchain_nonce, onchain_balance).0),
{
    if chain_accepts(t, onchain_nonce, onchain_balance) && t.fee >= s.min_fee
        && !outbid_by_pending(s.pool, t) {
        if holds_slot(s.pool, t.sender, t.nonce) {
            lemma_replace_wf(s, t);
            lemma_wf_add(PoolState { pool: drop_slot(s.pool, t.sender, t.nonce), ..s }, t);
        } else if t.nonce == expected_nonce(s.pool, t.sender, onchain_nonce) {
            if count(s.pool) >= s.capacity {
                lemma_count_zero(s.pool);
                if s.pool.dom().len() != 0 && t.fee > lowest(s.pool) {
                    lemma_evict_room(s, t);
                    lemma_wf_add(evict(s).0, t);
                }
            } else {
                lemma_wf_add(s, t);
            }
        }
    }
}

/// Taking the worst or the best transaction keeps the pool well formed, and
/// each lowers the number of pending transactions by one unless the pool is empty.
pub proof fn lemma_take_keeps_wf(s: PoolState)
    requires
        pool_wf(s),
    ensures
        pool_wf(evict(s).0),
        pool_wf(take_best(s).0),
        s.pool.dom().len() == 0 <==> count(s.pool) == 0,
        s.pool.dom().len() != 0 ==> count(evict(s).0.pool) + 1 == count(s.pool)
            && count(take_best(s).0.pool) + 1 == count(s.pool),
{
    lemma_count_zero(s.pool);
    if s.pool.dom().len() != 0 {
        lemma_extreme_levels(s.pool);
        let lo = lowest(s.pool);
        let hi = highest(s.pool);
        lemma_take_back_is_remove_at(s.pool, lo);
        lemma_take_back_is_remove_at(s.pool, hi);
        lemma_wf_remove_at(s, lo, s.pool[lo].len() - 1);
        lemma_wf_remove_at(s, hi, s.pool[hi].len() - 1);
    }
}

/// The best transaction pays the highest fee in the pool, and the worst one
/// the lowest: `pop_best` and `pop_worst` hand out exactly these.
pub proof fn lemma_priority(s: PoolState)
    requires
        pool_wf(s),
        s.pool.dom().len() != 0,
    ensures
        take_best(s).1 matches Some(best) && forall|f: u64, i: int|
            #![trigger s.pool[f][i]]
            entry(s.pool, f, i) ==> s.pool[f][i].fee <= best.fee,
        evict(s).1 matches Some(worst) && forall|f: u64, i: int|
            #![trigger s.pool[f][i]]
            entry(s.pool, f, i) ==> worst.fee <= s.pool[f][i].fee,
{
    lemma_extreme_levels(s.pool);
    let p = s.pool;
    let hi = highest(p);
    let lo = lowest(p);
    assert(p[hi][p[hi].len() - 1].fee == hi);
    assert(p[lo][p[lo].len() - 1].fee == lo);
    assert forall|f: u64, i: int| #![trigger p[f][i]] entry(p, f, i) implies p[f][i].fee <= hi
        && lo <= p[f][i].fee by {
        assert(p[f][i].fee == f);
    }
}

/// An accepted transaction is pending afterwards: it holds its sender's slot
/// for its nonce and is listed. It either replaced the transaction that held
/// that slot (the pool's size is unchanged) or took a new slot with the nonce
/// the pool expected, evicting the worst transaction when the pool was full.
pub proof fn lemma_accepted_is_pending(
    s: PoolState,
    t: TxView,
    onchain_nonce: u64,
    onchain_balance: Option<u64>,
)
    requires
        pool_wf(s),
        chain_accepts(t, onchain_nonce, onchain_balance) ==> !nonce_overflows(s, t),
        accept_tx(s, t, onchain_nonce, onchain_balance).1 is Ok,
    ensures
        ({
            let s2 = accept_tx(s, t, onchain_nonce, onchain_balance).0;
            &&& holds_slot(s2.pool, t.sender, t.nonce)
            &&& slot_tx(s2.pool, t.sender, t.nonce) == t
            &&& ascending(s2.pool).contains(t)
            &&& holds_slot(s.pool, t.sender, t.nonce) ==> count(s2.pool) == count(s.pool)
            &&& !holds_slot(s.pool, t.sender, t.nonce) ==> {
                &&& t.nonce == expected_nonce(s.pool, t.sender, onchain_nonce)
                &&& count(s2.pool) == if count(s.pool) >= s.capacity {
                    count(s.pool)
                } else {
                    count(s.pool) + 1
                }
            }
            &&& count(s2.pool) <= s.capacity
        }),
{
    lemma_offer_keeps_wf(s, t, onchain_nonce, onchain_balance);
    let s2 = accept_tx(s, t, onchain_nonce, onchain_balance).0;
    let base = if holds_slot(s.pool, t.sender, t.nonce) {
        drop_slot(s.pool, t.sender, t.nonce)
    } else if count(s.pool) >= s.capacity {
        evict(s).0.pool
    } else {
        s.pool
    };
    assert(s2.pool == add_tx(base, t));
    if holds_slot(s.pool, t.sender, t.nonce) {
        lemma_replace_wf(s, t);
        lemma_wf_add(PoolState { pool: base, ..s }, t);
    } else if count(s.pool) >= s.capacity {
        lemma_count_zero(s.pool);
        lemma_evict_room(s, t);
        lemma_wf_add(evict(s).0, t);
    } else {
        lemma_wf_add(s, t);
    }
    let q = s2.pool;
    let k = if base.dom().contains(t.fee) {
        base[t.fee].len() as int
    } else {
        0
    };
    assert(entry(q, t.fee, k) && q[t.fee][k] == t);
    lemma_slot_pos_is(s2, t.fee, k);
    lemma_entry_in_ascending(q, t.fee, k);
}

/// Every pending transaction appears in the ascending list of the pool.
pub proof fn lemma_entry_in_ascending(p: Pool, f: u64, i: int)
    requires
        p.dom().finite(),
        entry(p, f, i),
    ensures
        ascending(p).contains(p[f][i]),
{
    lemma_levels(p);
    let l = levels(p);
    assert(l.to_set().contains(f));
    let m = choose|m: int| 0 <= m < l.len() && l[m] == f;
    let bs = buckets_in(p, l);
    assert(bs =~= bs.take(m) + bs.skip(m));
    vstd::seq_lib::lemma_flatten_concat(bs.take(m), bs.skip(m));
    assert(bs.skip(m).first() == p[f]);
    assert(bs.skip(m).flatten() == p[f] + bs.skip(m).drop_first().flatten());
    let at = bs.take(m).flatten().len() + i;
    assert(ascending(p)[at] == p[f][i]);
}

/// A rejected offer changes nothing but, for most kinds, the rejection count:
/// no transaction leaves or joins the pool, nothing is evicted and no
/// notification is handed to a subscriber.
pub proof fn lemma_rejection_changes_nothing(
    s: PoolState,
    t: TxView,
    onchain_nonce: u64,
    onchain_balance: Option<u64>,
)
    requires
        accept_tx(s, t, onchain_nonce, onchain_balance).1 is Err,
    ensures
        ({
            let s2 = accept_tx(s, t, onchain_nonce, onchain_balance).0;
            s2 == s || s2 == reject(s)
        }),
{
}

/// Whether a rejection is counted: every kind is, but the two that only say
/// the pool is full.
pub open spec fn counted_rejection(r: Result<(), Rejection>) -> bool {
    match r {
        Ok(()) => false,
        Err(Rejection::Eviction { .. }) => false,
        Err(Rejection::PoolFull) => false,
        Err(_) => true,
    }
}

/// An accepted offer that needed room: it took a new slot in a full pool.
pub open spec fn offer_evicts(
    s: PoolState,
    t: TxView,
    onchain_nonce: u64,
    onchain_balance: Option<u64>,
) -> bool {
    &&& accept_tx(s, t, onchain_nonce, onchain_balance).1 is Ok
    &&& !holds_slot(s.pool, t.sender, t.nonce)
    &&& count(s.pool) >= s.capacity
}

/// The counters and notifications: an offer counts one rejection exactly when
/// it is turned away for a reason other than a full pool, and one eviction
/// exactly when it is accepted into a full pool; that eviction, and only it,
/// hands the evicted transaction, the newest at the lowest fee, to the
/// subscription, if there is one.
pub proof fn lemma_offer_counters(
    s: PoolState,
    t: TxView,
    onchain_nonce: u64,
    onchain_balance: Option<u64>,
)
    ensures
        ({
            let (s2, r) = accept_tx(s, t, onchain_nonce, onchain_balance);
            &&& s2.rejections == if counted_rejection(r) {
                wrap_inc(s.rejections)
            } else {
                s.rejections
            }
            &&& s2.evictions == if offer_evicts(s, t, onchain_nonce, onchain_balance) {
                wrap_inc(s.evictions)
            } else {
                s.evictions
            }
            &&& s2.notices == if offer_evicts(s, t, onchain_nonce, onchain_balance) && s.subscribed {
                s.notices.push(s.pool[lowest(s.pool)].last())
            } else {
                s.notices
            }
            &&& s2.capacity == s.capacity && s2.min_fee == s.min_fee && s2.subscribed
                == s.subscribed
        }),
{
}

/// Taking the worst transaction counts one eviction and hands it to the
/// subscription, if there is one; taking the best changes neither. On an
/// empty pool neither changes anything.
pub proof fn lemma_take_counters(s: PoolState)
    ensures
        s.pool.dom().len() == 0 ==> evict(s).0 == s && take_best(s).0 == s,
        s.pool.dom().len() != 0 ==> {
            &&& evict(s).0.evictions == wrap_inc(s.evictions)
            &&& evict(s).0.notices == if s.subscribed {
                s.notices.push(evict(s).1->0)
            } else {
                s.notices
            }
        },
        take_best(s).0.evictions == s.evictions,
        take_best(s).0.notices == s.notices,
        take_best(s).0.rejections == s.rejections,
        evict(s).0.rejections == s.rejections,
{
}

/// Fees never rise along `s`.
pub open spec fn fees_non_increasing(s: Seq<TxView>) -> bool {
    forall|i: int, j: int| 0 <= i < j < s.len() ==> s[i].fee >= s[j].fee
}

/// Fees never fall along `s`.
pub open spec fn fees_non_decreasing(s: Seq<TxView>) -> bool {
    forall|i: int, j: int| 0 <= i < j < s.len() ==> s[i].fee <= s[j].fee
}

/// Every bucket of `p` named in `fees` holds only its own fee.
pub open spec fn buckets_hold_own_fee(p: Pool, fees: Seq<u64>) -> bool {
    forall|k: int, i: int|
        #![trigger p[fees[k]][i]]
        0 <= k < fees.len() && 0 <= i < p[fees[k]].len() ==> p[fees[k]][i].fee == fees[k]
}

proof fn lemma_flatten_sorted(p: Pool, fees: Seq<u64>, up: bool)
    requires
        buckets_hold_own_fee(p, fees),
        forall|i: int, j: int|
            0 <= i < j < fees.len() ==> if up {
                fees[i] < fees[j]
            } else {
                fees[i] > fees[j]
            },
    ensures
        up ==> fees_non_decreasing(buckets_in(p, fees).flatten()),
        !up ==> fees_non_increasing(buckets_in(p, fees).flatten()),
        forall|i: int|
            0 <= i < buckets_in(p, fees).flatten().len() ==> fees.contains(
                #[trigger] buckets_in(p, fees).flatten()[i].fee,
            ),
    decreases fees.len(),
{
    if fees.len() == 0 {
        assert(buckets_in(p, fees) =~= Seq::<Seq<TxView>>::empty());
    } else {
        let rest = fees.drop_last();
        let k = fees.last();
        assert(buckets_hold_own_fee(p, rest)) by {
            assert forall|m: int, i: int|
                #![trigger p[rest[m]][i]]
                0 <= m < rest.len() && 0 <= i < p[rest[m]].len() implies p[rest[m]][i].fee
                == rest[m] by {
                assert(rest[m] == fees[m]);
            }
        }
        lemma_flatten_sorted(p, rest, up);
        let head = buckets_in(p, rest).flatten();
        assert(buckets_in(p, fees) =~= buckets_in(p, rest).push(p[k]));
        buckets_in(p, rest).lemma_flatten_push(p[k]);
        let flat = buckets_in(p, fees).flatten();
        assert(flat == head + p[k]);
        assert forall|i: int| 0 <= i < p[k].len() implies #[trigger] p[k][i].fee == k by {
            assert(p[fees[fees.len() - 1]][i].fee == fees[fees.len() - 1]);
        }
        assert forall|i: int| 0 <= i < head.len() implies (if up {
            #[trigger] head[i].fee < k
        } else {
            head[i].fee > k
        }) && fees.contains(head[i].fee) by {
            assert(rest.contains(head[i].fee));
            let m = choose|m: int| 0 <= m < rest.len() && rest[m] == head[i].fee;
            assert(fees[m] == rest[m]);
        }
        assert forall|i: int| 0 <= i < flat.len() implies fees.contains(#[trigger] flat[i].fee) by {
            if i >= head.len() {
                assert(flat[i] == p[k][i - head.len()]);
                assert(fees[fees.len() - 1] == k);
            } else {
                assert(flat[i] == head[i]);
            }
        }
        if up {
            assert forall|i: int, j: int| 0 <= i < j < flat.len() implies flat[i].fee
                <= flat[j].fee by {
                if j < head.len() {
                    assert(flat[i] == head[i] && flat[j] == head[j]);
                } else if i < head.len() {
                    assert(flat[i] == head[i] && flat[j] == p[k][j - head.len()]);
                } else {
                    assert(flat[i] == p[k][i - head.len()] && flat[j] == p[k][j - head.len()]);
                }
            }
        } else {
            assert forall|i: int, j: int| 0 <= i < j < flat.len() implies flat[i].fee
                >= flat[j].fee by {
                if j < head.len() {
                    assert(flat[i] == head[i] && flat[j] == head[j]);
                } else if i < head.len() {
                    assert(flat[i] == head[i] && flat[j] == p[k][j - head.len()]);
                } else {
                    assert(flat[i] == p[k][i - head.len()] && flat[j] == p[k][j - head.len()]);
                }
            }
        }
    }
}

/// `get_transactions` lists every pending transaction with fees never falling,
/// and `snapshot(n)` lists the first `n` of them (or all, when fewer) with
/// fees never rising, so the best-paying come first.
pub proof fn lemma_listings_sorted(s: PoolState, n: nat)
    requires
        pool_wf(s),
    ensures
        fees_non_decreasing(ascending(s.pool)),
        fees_non_increasing(descending(s.pool)),
        fees_non_increasing(prefix(descending(s.pool), n)),
        ascending(s.pool).len() == count(s.pool),
        prefix(descending(s.pool), n).len() == if n < count(s.pool) {
            n
        } else {
            count(s.pool)
        },
{
    let p = s.pool;
    lemma_levels(p);
    lemma_flat_len(p);
    let l = levels(p);
    let r = l.reverse();
    assert forall|k: int, i: int| #![trigger p[l[k]][i]] 0 <= k < l.len() && 0 <= i < p[l[k]].len()
        implies p[l[k]][i].fee == l[k] by {
        assert(l.to_set().contains(l[k]));
    }
    assert forall|k: int, i: int| #![trigger p[r[k]][i]] 0 <= k < r.len() && 0 <= i < p[r[k]].len()
        implies p[r[k]][i].fee == r[k] by {
        assert(r[k] == l[l.len() - 1 - k]);
        assert(l.to_set().contains(r[k]));
    }
    lemma_flatten_sorted(p, l, true);
    lemma_flatten_sorted(p, r, false);
}


/// Taking the worst or the best transaction hands it back whole and leaves
/// every other pending transaction in place: the old contents are the new
/// contents plus what was handed back. The worst is the newest at the lowest
/// fee, the best the newest at the highest fee. An empty pool hands back
/// nothing and stays as it was.
pub proof fn lemma_take_hands_back(s: PoolState)
    requires
        pool_wf(s),
    ensures
        s.pool.dom().len() == 0 ==> evict(s).0 == s && evict(s).1 is None && take_best(s).0 == s
            && take_best(s).1 is None,
        s.pool.dom().len() != 0 ==> {
            &&& evict(s).1 matches Some(w) && {
                &&& s.pool.dom().contains(w.fee)
                &&& w == s.pool[w.fee].last()
                &&& forall|f: u64, i: int|
                    #![trigger s.pool[f][i]]
                    entry(s.pool, f, i) ==> w.fee <= s.pool[f][i].fee
                &&& contents(evict(s).0.pool).insert(w) == contents(s.pool)
            }
            &&& take_best(s).1 matches Some(b) && {
                &&& s.pool.dom().contains(b.fee)
                &&& b == s.pool[b.fee].last()
                &&& forall|f: u64, i: int|
                    #![trigger s.pool[f][i]]
                    entry(s.pool, f, i) ==> s.pool[f][i].fee <= b.fee
                &&& contents(take_best(s).0.pool).insert(b) == contents(s.pool)
            }
        },
{
    if s.pool.dom().len() != 0 {
        lemma_priority(s);
        lemma_extreme_levels(s.pool);
        let lo = lowest(s.pool);
        let hi = highest(s.pool);
        assert(s.pool[lo].last().fee == lo);
        assert(s.pool[hi].last().fee == hi);
        lemma_take_back_is_remove_at(s.pool, lo);
        lemma_take_back_is_remove_at(s.pool, hi);
        lemma_contents_remove_at(s.pool, lo, s.pool[lo].len() - 1);
        lemma_contents_remove_at(s.pool, hi, s.pool[hi].len() - 1);
    }
}

/// Every accepted offer is one the chain and the pool's floor accept,
/// replacements included: its nonce is not below the chain's, it pays no more
/// than a known balance, and at least the minimum fee.
pub proof fn lemma_accepted_passes_checks(
    s: PoolState,
    t: TxView,
    onchain_nonce: u64,
    onchain_balance: Option<u64>,
)
    requires
        accept_tx(s, t, onchain_nonce, onchain_balance).1 is Ok,
    ensures
        t.nonce >= onchain_nonce,
        onchain_balance matches Some(b) ==> t.fee <= b,
        t.fee >= s.min_fee,
{
}

/// A transaction whose nonce the chain does not show stale, and whose fee is
/// above the sender's known balance, is turned away for its balance, whatever
/// the pool holds; only the rejection count moves.
pub proof fn lemma_balance_rejects(
    s: PoolState,
    t: TxView,
    onchain_nonce: u64,
    balance: u64,
)
    requires
        t.nonce >= onchain_nonce,
        t.fee > balance,
    ensures
        accept_tx(s, t, onchain_nonce, Some(balance)).1 == Err::<(), Rejection>(
            Rejection::InsufficientBalance { sender: t.sender, balance, fee: t.fee },
        ),
        accept_tx(s, t, onchain_nonce, Some(balance)).0 == (PoolState {
            rejections: wrap_inc(s.rejections),
            ..s
        }),
{
}

/// What an accepted offer does to the pool's contents. A replacement swaps
/// the pending transaction of the slot, which paid less, for `t`. An offer
/// taking a new slot in a pool with room adds `t`. One taking a new slot in a
/// full pool adds `t` and removes exactly one transaction, the newest at the
/// lowest fee, which paid less than `t`: it is counted as an eviction and handed
/// to the subscription, if there is one. Nothing else is evicted or handed out.
pub proof fn lemma_offer_contents(
    s: PoolState,
    t: TxView,
    onchain_nonce: u64,
    onchain_balance: Option<u64>,
)
    requires
        pool_wf(s),
        chain_accepts(t, onchain_nonce, onchain_balance) ==> !nonce_overflows(s, t),
        accept_tx(s, t, onchain_nonce, onchain_balance).1 is Ok,
    ensures
        ({
            let s2 = accept_tx(s, t, onchain_nonce, onchain_balance).0;
            &&& holds_slot(s.pool, t.sender, t.nonce) ==> {
                let old_t = slot_tx(s.pool, t.sender, t.nonce);
                &&& old_t.sender == t.sender && old_t.nonce == t.nonce
                &&& old_t.fee < t.fee
                &&& contents(s2.pool).insert(old_t) == contents(s.pool).insert(t)
                &&& s2.evictions == s.evictions && s2.notices == s.notices
            }
            &&& !holds_slot(s.pool, t.sender, t.nonce) && count(s.pool) < s.capacity ==> {
                &&& contents(s2.pool) == contents(s.pool).insert(t)
                &&& s2.evictions == s.evictions && s2.notices == s.notices
            }
            &&& !holds_slot(s.pool, t.sender, t.nonce) && count(s.pool) >= s.capacity ==> {
                let w = s.pool[lowest(s.pool)].last();
                &&& s.pool.dom().contains(w.fee) && w == s.pool[w.fee].last()
                &&& forall|f: u64, i: int|
                    #![trigger s.pool[f][i]]
                    entry(s.pool, f, i) ==> w.fee <= s.pool[f][i].fee
                &&& w.fee < t.fee
                &&& contents(s2.pool).insert(w) == contents(s.pool).insert(t)
                &&& s2.evictions == wrap_inc(s.evictions)
                &&& s2.notices == if s.subscribed {
                    s.notices.push(w)
                } else {
                    s.notices
                }
            }
            &&& s2.rejections == s.rejections
        }),
{
    let p = s.pool;
    let s2 = accept_tx(s, t, onchain_nonce, onchain_balance).0;
    if holds_slot(p, t.sender, t.nonce) {
        lemma_slot_pos(p, t.sender, t.nonce);
        let (f, i) = slot_pos(p, t.sender, t.nonce);
        let q = drop_slot(p, t.sender, t.nonce);
        assert(q == crate::model::remove_at(p, f, i));
        lemma_contents_remove_at(p, f, i);
        lemma_replace_wf(s, t);
        lemma_contents_add(q, t);
        assert(contents(s2.pool).insert(slot_tx(p, t.sender, t.nonce)) =~= contents(p).insert(t));
    } else if count(p) < s.capacity {
        lemma_contents_add(p, t);
    } else {
        lemma_count_zero(p);
        lemma_priority(s);
        lemma_extreme_levels(p);
        let lo = lowest(p);
        let w = p[lo].last();
        assert(w.fee == lo);
        lemma_take_back_is_remove_at(p, lo);
        lemma_contents_remove_at(p, lo, p[lo].len() - 1);
        lemma_evict_room(s, t);
        lemma_contents_add(take_back(p, lo), t);
        assert(contents(s2.pool).insert(w) =~= contents(p).insert(t));
    }
}

/// The listings hold exactly the pending transactions, whole: `get_transactions`
/// lists each once, the best-first list that `snapshot` cuts from does too, and
/// a snapshot lists only pending transactions.
pub proof fn lemma_listings_hold_contents(s: PoolState, n: nat)
    requires
        pool_wf(s),
    ensures
        ascending(s.pool).to_multiset() == contents(s.pool),
        descending(s.pool).to_multiset() == contents(s.pool),
        forall|i: int|
            0 <= i < prefix(descending(s.pool), n).len() ==> contents(s.pool).contains(
                #[trigger] prefix(descending(s.pool), n)[i],
            ),
{
    broadcast use vstd::seq_lib::group_to_multiset_ensures;

    let p = s.pool;
    lemma_levels(p);
    let l = levels(p);
    let r = l.reverse();
    assert(l.no_duplicates()) by {
        assert forall|i: int, j: int| 0 <= i < l.len() && 0 <= j < l.len() && i != j implies l[i]
            != l[j] by {
            if i < j {
                assert(l[i] < l[j]);
            } else {
                assert(l[j] < l[i]);
            }
        }
    }
    assert(r.no_duplicates()) by {
        assert forall|i: int, j: int| 0 <= i < r.len() && 0 <= j < r.len() && i != j implies r[i]
            != r[j] by {
            assert(r[i] == l[l.len() - 1 - i]);
            assert(r[j] == l[l.len() - 1 - j]);
        }
    }
    assert(r.to_set() =~= l.to_set()) by {
        assert forall|x: u64| #[trigger] l.to_set().contains(x) implies r.to_set().contains(x) by {
            let j = choose|j: int| 0 <= j < l.len() && l[j] == x;
            assert(r[l.len() - 1 - j] == x);
        }
        assert forall|x: u64| #[trigger] r.to_set().contains(x) implies l.to_set().contains(x) by {
            let j = choose|j: int| 0 <= j < r.len() && r[j] == x;
            assert(l[l.len() - 1 - j] == x);
        }
    }
    lemma_flatten_contents(p, l);
    lemma_flatten_contents(p, r);
    let d = descending(p);
    assert forall|i: int| 0 <= i < prefix(d, n).len() implies contents(p).contains(
        #[trigger] prefix(d, n)[i],
    ) by {
        assert(prefix(d, n)[i] == d[i]);
        assert(d.contains(d[i]));
    }
}

} // verus!
