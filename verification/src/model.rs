use vstd::prelude::*;

use crate::errors::Rejection;
use crate::transaction::TxView;

verus! {

/// The pending transactions, bucketed by fee: each bucket keeps its
/// transactions in the order in which they arrived.
pub type Pool = Map<u64, Seq<TxView>>;

/// The state of a pool, as plain values.
pub struct PoolState {
    pub pool: Pool,
    pub capacity: nat,
    pub min_fee: u64,
    pub evictions: u64,
    pub rejections: u64,
    pub subscribed: bool,
    /// The evicted transactions handed to the current subscription, oldest first.
    pub notices: Seq<TxView>,
}

/// A counter step that wraps around at the top of `u64`.
pub open spec fn wrap_inc(n: u64) -> u64 {
    if n == u64::MAX {
        0
    } else {
        (n + 1) as u64
    }
}

pub open spec fn strictly_increasing(s: Seq<u64>) -> bool {
    forall|i: int, j: int| 0 <= i < j < s.len() ==> s[i] < s[j]
}

/// `s` lists the fees of `d`, each once, lowest first.
pub open spec fn is_fee_order(s: Seq<u64>, d: Set<u64>) -> bool {
    strictly_increasing(s) && s.to_set() == d
}

/// The fee levels of a pool, lowest first.
pub open spec fn levels(p: Pool) -> Seq<u64> {
    choose|s: Seq<u64>| is_fee_order(s, p.dom())
}

/// The lowest fee level of a non-empty pool.
pub open spec fn lowest(p: Pool) -> u64 {
    levels(p)[0]
}

/// The highest fee level of a non-empty pool.
pub open spec fn highest(p: Pool) -> u64 {
    levels(p).last()
}

/// The buckets of `p` taken in the order of `fees`.
pub open spec fn buckets_in(p: Pool, fees: Seq<u64>) -> Seq<Seq<TxView>> {
    fees.map_values(|f: u64| p[f])
}

/// Every pending transaction, lowest fee first; within a fee, oldest first.
pub open spec fn ascending(p: Pool) -> Seq<TxView> {
    buckets_in(p, levels(p)).flatten()
}

/// Every pending transaction, highest fee first; within a fee, oldest first.
pub open spec fn descending(p: Pool) -> Seq<TxView> {
    buckets_in(p, levels(p).reverse()).flatten()
}

/// Position `i` of the bucket at fee `f` holds a transaction.
pub open spec fn entry(p: Pool, f: u64, i: int) -> bool {
    p.dom().contains(f) && 0 <= i < p[f].len()
}

/// The number of transactions in the buckets whose fees are in `d`.
pub open spec fn sum_lens(p: Pool, d: Set<u64>) -> nat
    decreases d.len(),
{
    if d.finite() && d.len() > 0 {
        let k = d.choose();
        p[k].len() + sum_lens(p, d.remove(k))
    } else {
        0
    }
}

/// The number of pending transactions.
pub open spec fn count(p: Pool) -> nat {
    sum_lens(p, p.dom())
}

/// Replaces the bucket at `f` by `rest`, dropping the fee level when `rest` is empty.
pub open spec fn shrink(p: Pool, f: u64, rest: Seq<TxView>) -> Pool {
    if rest.len() == 0 {
        p.remove(f)
    } else {
        p.insert(f, rest)
    }
}

/// Removes the newest transaction of the bucket at `f`.
pub open spec fn take_back(p: Pool, f: u64) -> Pool {
    shrink(p, f, p[f].drop_last())
}

/// Appends `t` to the bucket of its fee, opening the bucket if needed.
pub open spec fn add_tx(p: Pool, t: TxView) -> Pool {
    if p.dom().contains(t.fee) {
        p.insert(t.fee, p[t.fee].push(t))
    } else {
        p.insert(t.fee, seq![t])
    }
}

/// Some pending transaction comes from `sender` with `nonce`.
pub open spec fn holds_slot(p: Pool, sender: Seq<char>, nonce: u64) -> bool {
    exists|f: u64, i: int|
        #![trigger p[f][i]]
        entry(p, f, i) && p[f][i].sender == sender && p[f][i].nonce == nonce
}

/// Where the pending transaction from `sender` with `nonce` sits.
pub open spec fn slot_pos(p: Pool, sender: Seq<char>, nonce: u64) -> (u64, int) {
    choose|f: u64, i: int|
        #![trigger p[f][i]]
        entry(p, f, i) && p[f][i].sender == sender && p[f][i].nonce == nonce
}

/// The pending transaction from `sender` with `nonce`.
pub open spec fn slot_tx(p: Pool, sender: Seq<char>, nonce: u64) -> TxView {
    p[slot_pos(p, sender, nonce).0][slot_pos(p, sender, nonce).1]
}

/// The pool without the pending transaction from `sender` with `nonce`.
pub open spec fn drop_slot(p: Pool, sender: Seq<char>, nonce: u64) -> Pool {
    let (f, i) = slot_pos(p, sender, nonce);
    shrink(p, f, p[f].remove(i))
}

/// `t` comes from `sender`.
pub open spec fn sent_by(t: TxView, sender: Seq<char>) -> bool {
    t.sender == sender
}

/// Some pending transaction comes from `sender`.
pub open spec fn has_pending(p: Pool, sender: Seq<char>) -> bool {
    exists|f: u64, i: int| #![trigger p[f][i]] entry(p, f, i) && sent_by(p[f][i], sender)
}

/// `n` is the highest nonce among the pending transactions of `sender`.
pub open spec fn is_top_nonce(p: Pool, sender: Seq<char>, n: u64) -> bool {
    &&& exists|f: u64, i: int|
        #![trigger p[f][i]]
        entry(p, f, i) && sent_by(p[f][i], sender) && p[f][i].nonce == n
    &&& forall|f: u64, i: int|
        #![trigger p[f][i]]
        entry(p, f, i) && sent_by(p[f][i], sender) ==> p[f][i].nonce <= n
}

/// The highest nonce among the pending transactions of `sender`, if any.
pub open spec fn pending_nonce(p: Pool, sender: Seq<char>) -> Option<u64> {
    if has_pending(p, sender) {
        Some(choose|n: u64| is_top_nonce(p, sender, n))
    } else {
        None
    }
}

/// The nonce the pool expects next from `sender`: one past its highest
/// pending nonce, or the chain's nonce when it has nothing pending.
pub open spec fn expected_nonce(p: Pool, sender: Seq<char>, onchain_nonce: u64) -> int {
    match pending_nonce(p, sender) {
        Some(n) => n + 1,
        None => onchain_nonce as int,
    }
}

/// `t` would be turned away as a duplicate that does not pay more.
pub open spec fn outbid_by_pending(p: Pool, t: TxView) -> bool {
    holds_slot(p, t.sender, t.nonce) && t.fee <= slot_tx(p, t.sender, t.nonce).fee
}

/// The chain accepts `t`: its nonce is not stale and the sender can pay.
pub open spec fn chain_accepts(t: TxView, onchain_nonce: u64, onchain_balance: Option<u64>) -> bool {
    &&& t.nonce >= onchain_nonce
    &&& !(onchain_balance is Some && t.fee > onchain_balance->0)
}

/// Accepting `t` would reach the nonce check for a new slot with a pending
/// nonce at the top of `u64`, where the next nonce cannot be computed.
pub open spec fn nonce_overflows(s: PoolState, t: TxView) -> bool {
    &&& t.fee >= s.min_fee
    &&& !holds_slot(s.pool, t.sender, t.nonce)
    &&& pending_nonce(s.pool, t.sender) == Some(u64::MAX)
}

pub open spec fn reject(s: PoolState) -> PoolState {
    PoolState { rejections: wrap_inc(s.rejections), ..s }
}

/// Removing the lowest-paying transaction (the newest at the lowest fee).
pub open spec fn evict(s: PoolState) -> (PoolState, Option<TxView>) {
    if s.pool.dom().len() == 0 {
        (s, None)
    } else {
        let f = lowest(s.pool);
        (
            PoolState {
                pool: take_back(s.pool, f),
                evictions: wrap_inc(s.evictions),
                notices: if s.subscribed {
                    s.notices.push(s.pool[f].last())
                } else {
                    s.notices
                },
                ..s
            },
            Some(s.pool[f].last()),
        )
    }
}

/// Removing the best-paying transaction (the newest at the highest fee).
pub open spec fn take_best(s: PoolState) -> (PoolState, Option<TxView>) {
    if s.pool.dom().len() == 0 {
        (s, None)
    } else {
        let f = highest(s.pool);
        (PoolState { pool: take_back(s.pool, f), ..s }, Some(s.pool[f].last()))
    }
}

/// What offering `t` does, given what the chain reports of its sender.
pub open spec fn accept_tx(
    s: PoolState,
    t: TxView,
    onchain_nonce: u64,
    onchain_balance: Option<u64>,
) -> (PoolState, Result<(), Rejection>) {
    if t.nonce < onchain_nonce {
        (
            reject(s),
            Err(Rejection::UnexpectedNonce { sender: t.sender, expected: onchain_nonce, got: t.nonce }),
        )
    } else if onchain_balance is Some && t.fee > onchain_balance->0 {
        (
            reject(s),
            Err(
                Rejection::InsufficientBalance {
                    sender: t.sender,
                    balance: onchain_balance->0,
                    fee: t.fee,
                },
            ),
        )
    } else if t.fee < s.min_fee {
        (reject(s), Err(Rejection::FeeBelowMinimum { fee: t.fee, min_fee: s.min_fee }))
    } else if outbid_by_pending(s.pool, t) {
        (
            reject(s),
            Err(
                Rejection::Duplicate {
                    sender: t.sender,
                    nonce: t.nonce,
                    existing_fee: slot_tx(s.pool, t.sender, t.nonce).fee,
                    new_fee: t.fee,
                },
            ),
        )
    } else if holds_slot(s.pool, t.sender, t.nonce) {
        // Replace-by-fee: `t` takes the slot, and its place in the sender's nonces.
        (PoolState { pool: add_tx(drop_slot(s.pool, t.sender, t.nonce), t), ..s }, Ok(()))
    } else {
        let expected = expected_nonce(s.pool, t.sender, onchain_nonce);
        if t.nonce != expected {
            (
                reject(s),
                Err(Rejection::NonceGap { sender: t.sender, expected: expected as u64, got: t.nonce }),
            )
        } else if count(s.pool) >= s.capacity {
            if s.pool.dom().len() == 0 {
                (s, Err(Rejection::PoolFull))
            } else if t.fee <= lowest(s.pool) {
                (s, Err(Rejection::Eviction { fee: t.fee, worst_fee: lowest(s.pool) }))
            } else {
                let s2 = evict(s).0;
                (PoolState { pool: add_tx(s2.pool, t), ..s2 }, Ok(()))
            }
        } else {
            (PoolState { pool: add_tx(s.pool, t), ..s }, Ok(()))
        }
    }
}

/// What the pool keeps true of its contents.
pub open spec fn pool_wf(s: PoolState) -> bool {
    let p = s.pool;
    &&& p.dom().finite()
    &&& forall|f: u64| #[trigger] p.dom().contains(f) ==> p[f].len() > 0
    &&& forall|f: u64, i: int|
        #![trigger p[f][i]]
        entry(p, f, i) ==> p[f][i].fee == f && f >= s.min_fee
    &&& forall|f1: u64, i1: int, f2: u64, i2: int|
        #![trigger p[f1][i1], p[f2][i2]]
        entry(p, f1, i1) && entry(p, f2, i2) && p[f1][i1].sender == p[f2][i2].sender
            && p[f1][i1].nonce == p[f2][i2].nonce ==> f1 == f2 && i1 == i2
    &&& count(p) <= s.capacity
}

// ---------------------------------------------------------------------------
// Counting
// ---------------------------------------------------------------------------

pub proof fn lemma_sum_lens_remove(p: Pool, d: Set<u64>, k: u64)
    requires
        d.finite(),
        d.contains(k),
    ensures
        sum_lens(p, d) == p[k].len() + sum_lens(p, d.remove(k)),
    decreases d.len(),
{
    let c = d.choose();
    assert(d.len() > 0);
    if c != k {
        lemma_sum_lens_remove(p, d.remove(c), k);
        lemma_sum_lens_remove(p, d.remove(k), c);
        assert(d.remove(c).remove(k) =~= d.remove(k).remove(c));
    }
}

pub proof fn lemma_sum_lens_frame(p1: Pool, p2: Pool, d: Set<u64>)
    requires
        forall|k: u64| #[trigger] d.contains(k) ==> p1[k].len() == p2[k].len(),
    ensures
        sum_lens(p1, d) == sum_lens(p2, d),
    decreases d.len(),
{
    if d.finite() && d.len() > 0 {
        let k = d.choose();
        lemma_sum_lens_frame(p1, p2, d.remove(k));
    }
}

/// Replacing one bucket changes the count by the change in that bucket's length.
pub proof fn lemma_count_replace(p: Pool, f: u64, v: Seq<TxView>)
    requires
        p.dom().finite(),
        p.dom().contains(f),
        v.len() > 0,
    ensures
        count(p.insert(f, v)) + p[f].len() == count(p) + v.len(),
{
    let q = p.insert(f, v);
    assert(q.dom() =~= p.dom());
    lemma_sum_lens_remove(p, p.dom(), f);
    lemma_sum_lens_remove(q, p.dom(), f);
    lemma_sum_lens_frame(p, q, p.dom().remove(f));
}

/// Removing one bucket lowers the count by that bucket's length.
pub proof fn lemma_count_remove(p: Pool, f: u64)
    requires
        p.dom().finite(),
        p.dom().contains(f),
    ensures
        count(p.remove(f)) + p[f].len() == count(p),
{
    let q = p.remove(f);
    assert(q.dom() =~= p.dom().remove(f));
    lemma_sum_lens_remove(p, p.dom(), f);
    lemma_sum_lens_frame(p, q, p.dom().remove(f));
}

/// Opening a new bucket raises the count by that bucket's length.
pub proof fn lemma_count_open(p: Pool, f: u64, v: Seq<TxView>)
    requires
        p.dom().finite(),
        !p.dom().contains(f),
    ensures
        count(p.insert(f, v)) == count(p) + v.len(),
{
    let q = p.insert(f, v);
    assert(q.dom().remove(f) =~= p.dom());
    lemma_sum_lens_remove(q, q.dom(), f);
    lemma_sum_lens_frame(p, q, p.dom());
}

pub proof fn lemma_count_shrink(p: Pool, f: u64, rest: Seq<TxView>)
    requires
        p.dom().finite(),
        p.dom().contains(f),
        rest.len() + 1 == p[f].len(),
    ensures
        count(shrink(p, f, rest)) + 1 == count(p),
        shrink(p, f, rest).dom().finite(),
{
    if rest.len() == 0 {
        lemma_count_remove(p, f);
    } else {
        lemma_count_replace(p, f, rest);
    }
}

pub proof fn lemma_count_add(p: Pool, t: TxView)
    requires
        p.dom().finite(),
    ensures
        count(add_tx(p, t)) == count(p) + 1,
        add_tx(p, t).dom().finite(),
{
    if p.dom().contains(t.fee) {
        lemma_count_replace(p, t.fee, p[t.fee].push(t));
    } else {
        lemma_count_open(p, t.fee, seq![t]);
    }
}

/// A pool whose buckets are all non-empty is empty exactly when its count is zero.
pub proof fn lemma_count_zero(p: Pool)
    requires
        p.dom().finite(),
        forall|f: u64| #[trigger] p.dom().contains(f) ==> p[f].len() > 0,
    ensures
        (count(p) == 0) <==> (p.dom().len() == 0),
{
    if p.dom().len() != 0 {
        let k = p.dom().choose();
        assert(p.dom().contains(k));
        lemma_sum_lens_remove(p, p.dom(), k);
    }
}

// ---------------------------------------------------------------------------
// Fee order
// ---------------------------------------------------------------------------

proof fn lemma_fee_order_prefix(a: Seq<u64>, b: Seq<u64>, d: Set<u64>, n: int)
    requires
        is_fee_order(a, d),
        is_fee_order(b, d),
        0 <= n <= a.len(),
        n <= b.len(),
    ensures
        forall|i: int| 0 <= i < n ==> a[i] == b[i],
    decreases n,
{
    if n > 0 {
        lemma_fee_order_prefix(a, b, d, n - 1);
        let x = a[n - 1];
        let y = b[n - 1];
        assert(a.to_set().contains(x));
        assert(b.contains(x));
        let j = choose|j: int| 0 <= j < b.len() && b[j] == x;
        if j < n - 1 {
            assert(a[j] == b[j]);
        }
        assert(b.to_set().contains(y));
        assert(a.contains(y));
        let k = choose|k: int| 0 <= k < a.len() && a[k] == y;
        if k < n - 1 {
            assert(a[k] == b[k]);
        }
    }
}

/// Two orderings of the same fees, each strictly increasing, are the same.
pub proof fn lemma_fee_order_unique(a: Seq<u64>, b: Seq<u64>, d: Set<u64>)
    requires
        is_fee_order(a, d),
        is_fee_order(b, d),
    ensures
        a == b,
{
    if a.len() <= b.len() {
        lemma_fee_order_prefix(a, b, d, a.len() as int);
        if a.len() < b.len() {
            let y = b[a.len() as int];
            assert(b.to_set().contains(y));
            assert(a.contains(y));
            let k = choose|k: int| 0 <= k < a.len() && a[k] == y;
            assert(a[k] == b[k]);
        }
    } else {
        lemma_fee_order_prefix(a, b, d, b.len() as int);
        let y = a[b.len() as int];
        assert(a.to_set().contains(y));
        assert(b.contains(y));
        let k = choose|k: int| 0 <= k < b.len() && b[k] == y;
        assert(a[k] == b[k]);
    }
    assert(a =~= b);
}

proof fn lemma_max_fee(d: Set<u64>) -> (m: u64)
    requires
        d.finite(),
        d.len() > 0,
    ensures
        d.contains(m),
        forall|x: u64| #[trigger] d.contains(x) ==> x <= m,
    decreases d.len(),
{
    let x = d.choose();
    let r = d.remove(x);
    if r.len() == 0 {
        assert forall|y: u64| #[trigger] d.contains(y) implies y <= x by {
            if y != x {
                assert(r.contains(y));
            }
        }
        x
    } else {
        let m = lemma_max_fee(r);
        if x > m {
            x
        } else {
            m
        }
    }
}

/// Every finite set of fees has a fee order.
pub proof fn lemma_fee_order_exists(d: Set<u64>) -> (s: Seq<u64>)
    requires
        d.finite(),
    ensures
        is_fee_order(s, d),
    decreases d.len(),
{
    if d.len() == 0 {
        let s = Seq::<u64>::empty();
        assert(s.to_set() =~= d);
        s
    } else {
        let m = lemma_max_fee(d);
        let r = d.remove(m);
        let t = lemma_fee_order_exists(r);
        let s = t.push(m);
        assert forall|i: int, j: int| 0 <= i < j < s.len() implies s[i] < s[j] by {
            if j == s.len() - 1 {
                assert(t.to_set().contains(t[i]));
            }
        }
        assert forall|x: u64| #[trigger] s.to_set().contains(x) <==> d.contains(x) by {
            if x == m {
                assert(s[s.len() - 1] == m);
            }
            if d.contains(x) && x != m {
                assert(r.contains(x));
                assert(t.to_set().contains(x));
                let k = choose|k: int| 0 <= k < t.len() && t[k] == x;
                assert(s[k] == x);
            }
            if s.to_set().contains(x) {
                let k = choose|k: int| 0 <= k < s.len() && s[k] == x;
                if k < t.len() {
                    assert(t[k] == x);
                    assert(t.contains(x));
                }
            }
        }
        assert(s.to_set() =~= d);
        s
    }
}

/// The fee levels of a pool order its fees.
pub proof fn lemma_levels(p: Pool)
    requires
        p.dom().finite(),
    ensures
        is_fee_order(levels(p), p.dom()),
{
    let s = lemma_fee_order_exists(p.dom());
    assert(is_fee_order(s, p.dom()));
}

/// A fee order of the pool's fees is its list of fee levels.
pub proof fn lemma_levels_are(p: Pool, s: Seq<u64>)
    requires
        p.dom().finite(),
        is_fee_order(s, p.dom()),
    ensures
        levels(p) == s,
{
    lemma_levels(p);
    lemma_fee_order_unique(levels(p), s, p.dom());
}

/// The lowest level is at most, and the highest at least, every fee of a non-empty pool.
pub proof fn lemma_extreme_levels(p: Pool)
    requires
        p.dom().finite(),
        p.dom().len() > 0,
    ensures
        levels(p).len() > 0,
        p.dom().contains(lowest(p)),
        p.dom().contains(highest(p)),
        forall|f: u64| #[trigger] p.dom().contains(f) ==> lowest(p) <= f && f <= highest(p),
{
    lemma_levels(p);
    let s = levels(p);
    if s.len() == 0 {
        let k = p.dom().choose();
        assert(p.dom().contains(k));
        assert(s.to_set().contains(k));
    }
    assert(s.to_set().contains(s[0]));
    assert(s.to_set().contains(s[s.len() - 1]));
    assert forall|f: u64| #[trigger] p.dom().contains(f) implies lowest(p) <= f && f <= highest(p) by {
        assert(s.to_set().contains(f));
        let k = choose|k: int| 0 <= k < s.len() && s[k] == f;
    }
}

// ---------------------------------------------------------------------------
// Entries under removal and insertion
// ---------------------------------------------------------------------------

/// The pool after the transaction at position `i` of bucket `f` is removed.
pub open spec fn remove_at(p: Pool, f: u64, i: int) -> Pool {
    shrink(p, f, p[f].remove(i))
}

/// Where an entry of `remove_at(p, f, i)` came from.
pub open spec fn source_index(f: u64, i: int, g: u64, k: int) -> int {
    if g == f && k >= i {
        k + 1
    } else {
        k
    }
}

/// Where an entry of `p` other than `(f, i)` lands in `remove_at(p, f, i)`.
pub open spec fn target_index(f: u64, i: int, g: u64, j: int) -> int {
    if g == f && j > i {
        j - 1
    } else {
        j
    }
}

pub proof fn lemma_remove_at_entries(p: Pool, f: u64, i: int)
    requires
        entry(p, f, i),
    ensures
        forall|g: u64, k: int|
            #![trigger remove_at(p, f, i)[g][k]]
            entry(remove_at(p, f, i), g, k) ==> {
                let j = source_index(f, i, g, k);
                &&& entry(p, g, j)
                &&& remove_at(p, f, i)[g][k] == p[g][j]
                &&& !(g == f && j == i)
            },
        forall|g: u64, j: int|
            #![trigger p[g][j]]
            entry(p, g, j) && !(g == f && j == i) ==> {
                let k = target_index(f, i, g, j);
                &&& entry(remove_at(p, f, i), g, k)
                &&& remove_at(p, f, i)[g][k] == p[g][j]
            },
        forall|g: u64| #[trigger] remove_at(p, f, i).dom().contains(g) ==> p.dom().contains(g),
{
}

/// Removing one pending transaction keeps the pool well formed and lowers its count by one.
pub proof fn lemma_wf_remove_at(s: PoolState, f: u64, i: int)
    requires
        pool_wf(s),
        entry(s.pool, f, i),
    ensures
        pool_wf(PoolState { pool: remove_at(s.pool, f, i), ..s }),
        count(remove_at(s.pool, f, i)) + 1 == count(s.pool),
{
    let p = s.pool;
    let q = remove_at(p, f, i);
    lemma_remove_at_entries(p, f, i);
    lemma_count_shrink(p, f, p[f].remove(i));
    assert forall|g: u64| #[trigger] q.dom().contains(g) implies q[g].len() > 0 by {
    }
    assert forall|g: u64, k: int| #![trigger q[g][k]] entry(q, g, k) implies q[g][k].fee == g
        && g >= s.min_fee by {
        let j = source_index(f, i, g, k);
        assert(p[g][j] == q[g][k]);
    }
    assert forall|g1: u64, k1: int, g2: u64, k2: int|
        #![trigger q[g1][k1], q[g2][k2]]
        entry(q, g1, k1) && entry(q, g2, k2) && q[g1][k1].sender == q[g2][k2].sender
            && q[g1][k1].nonce == q[g2][k2].nonce implies g1 == g2 && k1 == k2 by {
        let j1 = source_index(f, i, g1, k1);
        let j2 = source_index(f, i, g2, k2);
        assert(p[g1][j1] == q[g1][k1]);
        assert(p[g2][j2] == q[g2][k2]);
    }
}

/// The newest transaction of a bucket sits at its last position.
pub proof fn lemma_take_back_is_remove_at(p: Pool, f: u64)
    requires
        p.dom().contains(f),
        p[f].len() > 0,
    ensures
        take_back(p, f) == remove_at(p, f, p[f].len() - 1),
{
    assert(p[f].drop_last() =~= p[f].remove(p[f].len() - 1));
}

/// Adding a transaction that pays enough, takes a free slot and fits keeps the pool well formed.
pub proof fn lemma_wf_add(s: PoolState, t: TxView)
    requires
        pool_wf(s),
        t.fee >= s.min_fee,
        !holds_slot(s.pool, t.sender, t.nonce),
        count(s.pool) < s.capacity,
    ensures
        pool_wf(PoolState { pool: add_tx(s.pool, t), ..s }),
        count(add_tx(s.pool, t)) == count(s.pool) + 1,
        forall|g: u64, k: int|
            #![trigger add_tx(s.pool, t)[g][k]]
            entry(add_tx(s.pool, t), g, k) ==> (entry(s.pool, g, k) && add_tx(s.pool, t)[g][k]
                == s.pool[g][k]) || (g == t.fee && add_tx(s.pool, t)[g][k] == t),
        forall|g: u64, k: int|
            #![trigger s.pool[g][k]]
            entry(s.pool, g, k) ==> entry(add_tx(s.pool, t), g, k) && add_tx(s.pool, t)[g][k]
                == s.pool[g][k],
{
    let p = s.pool;
    let q = add_tx(p, t);
    lemma_count_add(p, t);
    assert forall|g: u64, k: int|
        #![trigger q[g][k]]
        entry(q, g, k) implies (entry(p, g, k) && q[g][k] == p[g][k]) || (g == t.fee && q[g][k]
            == t) by {
        if g == t.fee && p.dom().contains(g) && k == p[g].len() {
            assert(q[g][k] == t);
        }
    }
    assert forall|g1: u64, k1: int, g2: u64, k2: int|
        #![trigger q[g1][k1], q[g2][k2]]
        entry(q, g1, k1) && entry(q, g2, k2) && q[g1][k1].sender == q[g2][k2].sender
            && q[g1][k1].nonce == q[g2][k2].nonce implies g1 == g2 && k1 == k2 by {
        if entry(p, g1, k1) && q[g1][k1] == p[g1][k1] {
            if entry(p, g2, k2) && q[g2][k2] == p[g2][k2] {
            } else {
                assert(p[g1][k1] == p[g1][k1]);
            }
        } else {
            if entry(p, g2, k2) && q[g2][k2] == p[g2][k2] {
                assert(p[g2][k2] == p[g2][k2]);
            } else {
                if p.dom().contains(t.fee) {
                    assert(k1 == p[t.fee].len());
                    assert(k2 == p[t.fee].len());
                }
            }
        }
    }
}

// ---------------------------------------------------------------------------
// Slots and nonces
// ---------------------------------------------------------------------------

/// A top nonce, once one exists, is the one `pending_nonce` names.
pub proof fn lemma_top_nonce_is(p: Pool, sender: Seq<char>, n: u64)
    requires
        is_top_nonce(p, sender, n),
    ensures
        pending_nonce(p, sender) == Some(n),
{
    let m = choose|m: u64| is_top_nonce(p, sender, m);
    assert(is_top_nonce(p, sender, m));
    let (f1, i1) = choose|f: u64, i: int|
        #![trigger p[f][i]]
        entry(p, f, i) && sent_by(p[f][i], sender) && p[f][i].nonce == n;
    let (f2, i2) = choose|f: u64, i: int|
        #![trigger p[f][i]]
        entry(p, f, i) && sent_by(p[f][i], sender) && p[f][i].nonce == m;
    assert(p[f1][i1].nonce <= m);
    assert(p[f2][i2].nonce <= n);
}

/// Some counted nonce at least `lo` leads to a top nonce.
pub proof fn lemma_top_nonce_by_max(p: Pool, sender: Seq<char>, lo: u64) -> (n: u64)
    requires
        exists|f: u64, i: int|
            #![trigger p[f][i]]
            entry(p, f, i) && sent_by(p[f][i], sender) && p[f][i].nonce >= lo,
    ensures
        is_top_nonce(p, sender, n),
    decreases u64::MAX - lo,
{
    if exists|f: u64, i: int|
        #![trigger p[f][i]]
        entry(p, f, i) && sent_by(p[f][i], sender) && p[f][i].nonce > lo {
        if lo == u64::MAX {
            let (f, i) = choose|f: u64, i: int|
                #![trigger p[f][i]]
                entry(p, f, i) && sent_by(p[f][i], sender) && p[f][i].nonce > lo;
            assert(false);
            lo
        } else {
            lemma_top_nonce_by_max(p, sender, (lo + 1) as u64)
        }
    } else {
        let (f, i) = choose|f: u64, i: int|
            #![trigger p[f][i]]
            entry(p, f, i) && sent_by(p[f][i], sender) && p[f][i].nonce >= lo;
        assert(p[f][i].nonce == lo);
        lo
    }
}

/// Where the pending transaction of a held slot sits.
pub proof fn lemma_slot_pos(p: Pool, sender: Seq<char>, nonce: u64)
    requires
        holds_slot(p, sender, nonce),
    ensures
        entry(p, slot_pos(p, sender, nonce).0, slot_pos(p, sender, nonce).1),
        slot_tx(p, sender, nonce).sender == sender,
        slot_tx(p, sender, nonce).nonce == nonce,
{
}

/// In a well-formed pool, any entry for a slot is the one `slot_pos` names.
pub proof fn lemma_slot_pos_is(s: PoolState, f: u64, i: int)
    requires
        pool_wf(s),
        entry(s.pool, f, i),
    ensures
        holds_slot(s.pool, s.pool[f][i].sender, s.pool[f][i].nonce),
        slot_pos(s.pool, s.pool[f][i].sender, s.pool[f][i].nonce) == (f, i),
{
    let p = s.pool;
    let t = p[f][i];
    assert(entry(p, f, i) && p[f][i].sender == t.sender && p[f][i].nonce == t.nonce);
    lemma_slot_pos(p, t.sender, t.nonce);
    let (g, j) = slot_pos(p, t.sender, t.nonce);
    assert(p[g][j].sender == p[f][i].sender && p[g][j].nonce == p[f][i].nonce);
}

/// Removing an entry frees no slot other than its own, and holds no new one.
pub proof fn lemma_remove_at_keeps_free(p: Pool, f: u64, i: int, sender: Seq<char>, nonce: u64)
    requires
        entry(p, f, i),
        !holds_slot(p, sender, nonce),
    ensures
        !holds_slot(remove_at(p, f, i), sender, nonce),
{
    lemma_remove_at_entries(p, f, i);
    let q = remove_at(p, f, i);
    if holds_slot(q, sender, nonce) {
        let (g, k) = slot_pos(q, sender, nonce);
        let j = source_index(f, i, g, k);
        assert(q[g][k] == p[g][j]);
        assert(entry(p, g, j) && p[g][j].sender == sender && p[g][j].nonce == nonce);
    }
}

/// Once a slot's transaction is dropped, the slot is free.
pub proof fn lemma_drop_slot_frees(s: PoolState, sender: Seq<char>, nonce: u64)
    requires
        pool_wf(s),
        holds_slot(s.pool, sender, nonce),
    ensures
        !holds_slot(drop_slot(s.pool, sender, nonce), sender, nonce),
{
    let p = s.pool;
    let (f, i) = slot_pos(p, sender, nonce);
    lemma_slot_pos(p, sender, nonce);
    lemma_remove_at_entries(p, f, i);
    let q = remove_at(p, f, i);
    assert(q == drop_slot(p, sender, nonce));
    if holds_slot(q, sender, nonce) {
        let (g, k) = slot_pos(q, sender, nonce);
        let j = source_index(f, i, g, k);
        assert(q[g][k] == p[g][j]);
        assert(p[g][j].sender == p[f][i].sender && p[g][j].nonce == p[f][i].nonce);
    }
}

// ---------------------------------------------------------------------------
// Flattened views
// ---------------------------------------------------------------------------

/// The first `n` items of `s`, or all of `s` when it is shorter.
pub open spec fn prefix<A>(s: Seq<A>, n: nat) -> Seq<A> {
    if n < s.len() {
        s.take(n as int)
    } else {
        s
    }
}

/// The sum of the fees of `s`.
pub open spec fn fee_sum(s: Seq<TxView>) -> nat
    decreases s.len(),
{
    if s.len() == 0 {
        0
    } else {
        fee_sum(s.drop_last()) + s.last().fee as nat
    }
}

/// Flattening the buckets of a list of distinct fees counts their transactions.
pub proof fn lemma_flatten_len(p: Pool, fees: Seq<u64>)
    requires
        strictly_increasing(fees),
    ensures
        buckets_in(p, fees).flatten().len() == sum_lens(p, fees.to_set()),
    decreases fees.len(),
{
    broadcast use vstd::seq_lib::seq_to_set_is_finite;

    if fees.len() == 0 {
        assert(fees.to_set() =~= Set::<u64>::empty());
        assert(buckets_in(p, fees) =~= Seq::<Seq<TxView>>::empty());
    } else {
        let rest = fees.drop_last();
        let k = fees.last();
        lemma_flatten_len(p, rest);
        assert(buckets_in(p, fees) =~= buckets_in(p, rest).push(p[k]));
        buckets_in(p, rest).lemma_flatten_push(p[k]);
        assert(!rest.to_set().contains(k)) by {
            if rest.to_set().contains(k) {
                let i = choose|i: int| 0 <= i < rest.len() && rest[i] == k;
                assert(fees[i] < fees[fees.len() - 1]);
            }
        }
        assert(fees =~= rest + seq![k]);
        Seq::lemma_to_set_insert_commutes(rest, k);
        assert(fees.to_set() =~= rest.to_set().insert(k));
        lemma_sum_lens_remove(p, fees.to_set(), k);
        assert(fees.to_set().remove(k) =~= rest.to_set());
    }
}

/// Every pending transaction appears once in the ascending and descending views.
pub proof fn lemma_flat_len(p: Pool)
    requires
        p.dom().finite(),
    ensures
        ascending(p).len() == count(p),
        descending(p).len() == count(p),
{
    broadcast use vstd::seq_lib::seq_to_set_is_finite;

    lemma_levels(p);
    let l = levels(p);
    lemma_flatten_len(p, l);
    let r = l.reverse();
    // The reversed levels list the same fees; count them by the increasing list.
    lemma_flatten_len_any(p, r, l);
}

/// Flattening the buckets of any rearrangement of a list of distinct fees gives as many transactions.
proof fn lemma_flatten_len_any(p: Pool, r: Seq<u64>, l: Seq<u64>)
    requires
        strictly_increasing(l),
        r == l.reverse(),
    ensures
        buckets_in(p, r).flatten().len() == buckets_in(p, l).flatten().len(),
    decreases l.len(),
{
    if l.len() > 0 {
        let l1 = l.drop_last();
        let r1 = r.drop_first();
        assert(r1 =~= l1.reverse());
        lemma_flatten_len_any(p, r1, l1);
        assert(buckets_in(p, l) =~= buckets_in(p, l1).push(p[l.last()]));
        buckets_in(p, l1).lemma_flatten_push(p[l.last()]);
        assert(buckets_in(p, r).drop_first() =~= buckets_in(p, r1));
        assert(buckets_in(p, r)[0] == p[l.last()]);
    }
}

} // verus!
