use vstd::prelude::*;
use std::collections::BTreeMap;
use std::sync::Arc;
use tokio::sync::broadcast::{Receiver, Sender};
use vstd::std_specs::iter::IteratorSpec;

use crate::channel::{broadcast_send, open_broadcast, pairs_with, sent_log};
use crate::contents::contents;
use crate::errors::{MempoolError, Rejection};
use crate::laws::{lemma_listings_hold_contents, lemma_take_hands_back};
use crate::keys::lemma_increasing_keys;
use crate::model::{
    accept_tx, add_tx, ascending, buckets_in, chain_accepts, count, drop_slot, sent_by, descending, entry,
    evict, expected_nonce, fee_sum, holds_slot, is_fee_order, is_top_nonce, lemma_count_zero,
    lemma_drop_slot_frees, lemma_extreme_levels, lemma_flat_len, lemma_levels, lemma_levels_are,
    lemma_remove_at_keeps_free, lemma_slot_pos, lemma_slot_pos_is, lemma_take_back_is_remove_at,
    lemma_top_nonce_is, lemma_wf_add, lemma_wf_remove_at, levels, lowest, nonce_overflows,
    outbid_by_pending, pending_nonce, pool_wf, prefix, reject, remove_at, slot_pos, slot_tx,
    take_back, take_best, wrap_inc, PoolState,
};
use crate::state::StateProvider;
use crate::transaction::{Transaction, TxView};

verus! {

/// A bucket's transactions, taken by their views.
pub open spec fn bucket_view(v: Vec<Transaction>) -> Seq<TxView> {
    v@.map_values(|t: Transaction| t@)
}

/// An optional transaction, taken by its view.
pub open spec fn opt_tx_view(o: Option<Transaction>) -> Option<TxView> {
    match o {
        Some(t) => Some(t@),
        None => None,
    }
}

/// The outcome of an offer, with any rejection taken by its view.
pub open spec fn outcome_view(r: Result<(), MempoolError>) -> Result<(), Rejection> {
    match r {
        Ok(()) => Ok(()),
        Err(e) => Err(e@),
    }
}

/// The chain nonce an answer stands for: zero when the provider knows nothing.
pub open spec fn chain_nonce(nonce_answer: Option<u64>) -> u64 {
    match nonce_answer {
        Some(n) => n,
        None => 0,
    }
}

/// `provider` may have answered `nonce_answer` for the sender of `t` and, unless
/// that nonce already shows `t` stale, `balance_answer`.
pub open spec fn provider_gave<S: StateProvider>(
    provider: S,
    t: TxView,
    nonce_answer: Option<u64>,
    balance_answer: Option<u64>,
) -> bool {
    &&& provider.nonce_answer(t.sender, nonce_answer)
    &&& if t.nonce < chain_nonce(nonce_answer) {
        balance_answer is None
    } else {
        provider.balance_answer(t.sender, balance_answer)
    }
}

/// What offering `t` does, given the provider's answers.
pub open spec fn offer_with_answers(
    s: PoolState,
    t: TxView,
    nonce_answer: Option<u64>,
    balance_answer: Option<u64>,
) -> (PoolState, Result<(), Rejection>) {
    accept_tx(s, t, chain_nonce(nonce_answer), balance_answer)
}

/// Calls `std::collections::BTreeMap::last_key_value`, which std documents as
/// returning the entry with the largest key, or nothing for an empty map.
#[verifier::external_body]
fn last_entry<'a, V>(map: &'a BTreeMap<u64, V>) -> (r: Option<(&'a u64, &'a V)>)
    ensures
        match r {
            Some((k, v)) => map@.contains_key(*k) && map@[*k] == *v && forall|g: u64|
                #[trigger] map@.contains_key(g) ==> g <= *k,
            None => map@.dom() == Set::<u64>::empty(),
        },
{
    map.last_key_value()
}

/// A fee-prioritised pool of pending transactions.
pub struct Mempool<S: StateProvider> {
    transactions: BTreeMap<u64, Vec<Transaction>>,
    capacity: usize,
    size: usize,
    min_fee: u64,
    eviction_ch: Option<Sender<Transaction>>,
    state_provider: Arc<S>,
    eviction_count: u64,
    rejection_count: u64,
}

impl<S: StateProvider> View for Mempool<S> {
    type V = PoolState;

    closed spec fn view(&self) -> PoolState {
        PoolState {
            pool: self.transactions@.map_values(|v: Vec<Transaction>| bucket_view(v)),
            capacity: self.capacity as nat,
            min_fee: self.min_fee,
            evictions: self.eviction_count,
            rejections: self.rejection_count,
            subscribed: self.eviction_ch is Some,
            notices: match self.eviction_ch {
                Some(ch) => sent_log(ch),
                None => Seq::empty(),
            },
        }
    }
}

impl<S: StateProvider> Mempool<S> {
    /// The pool's contents are well formed and its size counts them.
    pub closed spec fn wf(&self) -> bool {
        &&& pool_wf(self@)
        &&& self.size == count(self@.pool)
    }

    /// A well-formed pool's contents meet `pool_wf`, so the laws apply to it.
    pub proof fn lemma_wf(&self)
        requires
            self.wf(),
        ensures
            pool_wf(self@),
    {
    }

    /// `rx` is a receiving half of the channel the pool hands evicted
    /// transactions to.
    pub closed spec fn heard_by(&self, rx: Receiver<Transaction>) -> bool {
        match self.eviction_ch {
            Some(ch) => pairs_with(ch, rx),
            None => false,
        }
    }

    /// The provider this pool asks about senders.
    pub closed spec fn provider(&self) -> S {
        *self.state_provider
    }

    proof fn lemma_pool_dom(&self)
        ensures
            self@.pool.dom() == self.transactions@.dom(),
            forall|f: u64| #[trigger] self.transactions@.contains_key(f) ==> self@.pool[f]
                == bucket_view(self.transactions@[f]),
    {
        assert(self@.pool.dom() =~= self.transactions@.dom());
    }

    /// An empty pool holding at most `capacity` transactions, each paying at least `min_fee`.
    pub fn new(capacity: usize, min_fee: u64, state_provider: Arc<S>) -> (pool: Self)
        ensures
            pool.wf(),
            pool@ == (PoolState {
                pool: Map::empty(),
                capacity: capacity as nat,
                min_fee,
                evictions: 0,
                rejections: 0,
                subscribed: false,
                notices: Seq::empty(),
            }),
            pool.provider() == *state_provider,
    {
        let pool = Mempool {
            transactions: BTreeMap::new(),
            capacity,
            min_fee,
            size: 0,
            eviction_ch: None,
            state_provider,
            eviction_count: 0,
            rejection_count: 0,
        };
        proof {
            assert(pool@.pool =~= Map::<u64, Seq<TxView>>::empty());
            assert(pool@.pool.dom() =~= Set::<u64>::empty());
            assert(count(pool@.pool) == 0);
        }
        pool
    }

    /// The fee levels present, lowest first.
    fn fee_levels(&self) -> (r: Vec<u64>)
        requires
            self.wf(),
        ensures
            r@ == levels(self@.pool),
    {
        let ghost ks = vstd::std_specs::btree::spec_keys_iter(&self.transactions).remaining();
        let mut out: Vec<u64> = Vec::new();
        for k in it: self.transactions.keys()
            invariant
                out.len() == it.index(),
                it.seq() == ks,
                forall|i: int| 0 <= i < out.len() ==> out@[i] == *ks[i],
        {
            out.push(*k);
        }
        proof {
            assert(out@ == ks.unref());
            lemma_increasing_keys(ks);
            self.lemma_pool_dom();
            lemma_levels_are(self@.pool, out@);
        }
        out
    }

    /// The lowest fee level present, found as the first key of the map.
    fn first_level(&self) -> (r: Option<u64>)
        requires
            self.wf(),
        ensures
            r == if self@.pool.dom().len() == 0 {
                None::<u64>
            } else {
                Some(lowest(self@.pool))
            },
    {
        let ghost ks = vstd::std_specs::btree::spec_keys_iter(&self.transactions).remaining();
        proof {
            self.lemma_pool_dom();
            lemma_increasing_keys(ks);
            lemma_levels_are(self@.pool, ks.unref());
        }
        for k in it: self.transactions.keys()
            invariant
                it.seq() == ks,
                it.index() == 0,
                self.wf(),
                levels(self@.pool) == ks.unref(),
                ks.unref().to_set() == self@.pool.dom(),
        {
            proof {
                assert(ks.unref()[0] == *k);
                assert(ks.unref().to_set().contains(*k));
                assert(self@.pool.dom().contains(*k));
                assert(self@.pool.dom().len() != 0) by {
                    if self@.pool.dom().len() == 0 {
                        assert(self@.pool.dom() =~= Set::<u64>::empty());
                    }
                }
                assert(lowest(self@.pool) == *k);
            }
            return Some(*k);
        }
        proof {
            assert(ks.unref().to_set() =~= Set::<u64>::empty());
        }
        None
    }

    /// Removes and returns the newest transaction of the bucket at `fee`.
    fn take_last(&mut self, fee: u64) -> (tx: Transaction)
        requires
            old(self).wf(),
            old(self)@.pool.dom().contains(fee),
        ensures
            final(self).wf(),
            final(self).provider() == old(self).provider(),
            final(self).eviction_ch == old(self).eviction_ch,
            final(self)@ == (PoolState { pool: take_back(old(self)@.pool, fee), ..old(self)@ }),
            tx@ == old(self)@.pool[fee].last(),
    {
        proof {
            self.lemma_pool_dom();
            lemma_take_back_is_remove_at(self@.pool, fee);
            lemma_wf_remove_at(self@, fee, self@.pool[fee].len() - 1);
        }
        let ghost old_state = self@;
        let ghost old_map = self.transactions@;
        let mut bucket = self.transactions.remove(&fee).unwrap();
        proof {
            assert(bucket == old_map[fee]);
            assert(self.transactions@ == old_map.remove(fee));
        }
        let tx = bucket.pop().unwrap();
        proof {
            assert(bucket_view(bucket) =~= old_state.pool[fee].drop_last());
            assert(tx@ == old_state.pool[fee].last());
        }
        if bucket.len() > 0 {
            self.transactions.insert(fee, bucket);
        }
        self.size = self.size - 1;
        proof {
            assert(self@.pool =~= take_back(old_state.pool, fee));
        }
        tx
    }

    /// Appends `tx` to the bucket of its fee.
    fn push_tx(&mut self, tx: Transaction)
        requires
            old(self).wf(),
            tx@.fee >= old(self)@.min_fee,
            !crate::model::holds_slot(old(self)@.pool, tx@.sender, tx@.nonce),
            count(old(self)@.pool) < old(self)@.capacity,
        ensures
            final(self).wf(),
            final(self).provider() == old(self).provider(),
            final(self).eviction_ch == old(self).eviction_ch,
            final(self)@ == (PoolState { pool: add_tx(old(self)@.pool, tx@), ..old(self)@ }),
    {
        proof {
            self.lemma_pool_dom();
            lemma_wf_add(self@, tx@);
        }
        let ghost old_state = self@;
        let ghost old_map = self.transactions@;
        let ghost t = tx@;
        let fee = tx.get_fee();
        let bucket = match self.transactions.remove(&fee) {
            Some(mut b) => {
                proof {
                    assert(b == old_map[fee]);
                }
                b.push(tx);
                proof {
                    assert(bucket_view(b) =~= old_state.pool[fee].push(t));
                }
                b
            },
            None => {
                let mut b: Vec<Transaction> = Vec::new();
                b.push(tx);
                proof {
                    assert(!old_map.contains_key(fee));
                    assert(bucket_view(b) =~= seq![t]);
                }
                b
            },
        };
        proof {
            assert(self.transactions@ == old_map.remove(fee));
        }
        self.transactions.insert(fee, bucket);
        self.size = self.size + 1;
        proof {
            assert(self@.pool =~= add_tx(old_state.pool, tx@));
        }
    }

    /// Removes the worst transaction: the newest one at the lowest fee. Counts
    /// an eviction and, when someone subscribed, broadcasts a copy of it.
    pub fn pop_worst(&mut self) -> (r: Option<Transaction>)
        requires
            old(self).wf(),
        ensures
            final(self).wf(),
            final(self).provider() == old(self).provider(),
            forall|rx: Receiver<Transaction>| #[trigger] old(self).heard_by(rx) ==> final(self).heard_by(rx),
            final(self)@ == evict(old(self)@).0,
            opt_tx_view(r) == evict(old(self)@).1,
            r is None <==> old(self)@.pool.dom().len() == 0,
            r matches Some(t) ==> contents(final(self)@.pool).insert(t@) == contents(old(self)@.pool),
    {
        proof {
            lemma_take_hands_back(self@);
        }
        proof {
            lemma_count_zero(self@.pool);
        }
        if self.size == 0 {
            return None;
        }
        proof {
            lemma_extreme_levels(self@.pool);
        }
        let fee = self.first_level().unwrap();
        let tx = self.take_last(fee);
        self.eviction_count = self.eviction_count.wrapping_add(1);
        match self.eviction_ch.take() {
            Some(mut ch) => {
                broadcast_send(&mut ch, tx.clone());
                self.eviction_ch = Some(ch);
            },
            None => {},
        }
        Some(tx)
    }

    /// Removes the best transaction: the newest one at the highest fee.
    pub fn pop_best(&mut self) -> (r: Option<Transaction>)
        requires
            old(self).wf(),
        ensures
            final(self).wf(),
            final(self).provider() == old(self).provider(),
            forall|rx: Receiver<Transaction>| #[trigger] old(self).heard_by(rx) ==> final(self).heard_by(rx),
            final(self)@ == take_best(old(self)@).0,
            opt_tx_view(r) == take_best(old(self)@).1,
            r is None <==> old(self)@.pool.dom().len() == 0,
            r matches Some(t) ==> contents(final(self)@.pool).insert(t@) == contents(old(self)@.pool),
    {
        proof {
            lemma_take_hands_back(self@);
        }
        proof {
            lemma_count_zero(self@.pool);
        }
        if self.size == 0 {
            return None;
        }
        proof {
            lemma_extreme_levels(self@.pool);
        }
        proof {
            self.lemma_pool_dom();
        }
        let fee = match last_entry(&self.transactions) {
            Some((k, _)) => *k,
            None => {
                return None;
            },
        };
        let tx = self.take_last(fee);
        Some(tx)
    }

    /// Asks for a copy of every transaction evicted from now on; replaces any
    /// earlier subscription.
    pub fn subscribe_evictions(&mut self) -> (rx: Receiver<Transaction>)
        requires
            old(self).wf(),
        ensures
            final(self).wf(),
            final(self).provider() == old(self).provider(),
            final(self).heard_by(rx),
            final(self)@ == (PoolState { subscribed: true, notices: Seq::empty(), ..old(self)@ }),
    {
        let (sender, receiver) = open_broadcast(10);
        self.eviction_ch = Some(sender);
        receiver
    }

    /// The number of pending transactions.
    pub fn size(&self) -> (n: usize)
        requires
            self.wf(),
        ensures
            n == count(self@.pool),
    {
        self.size
    }

    /// The lowest fee level present, if any.
    pub fn lowest_fee(&self) -> (f: Option<u64>)
        requires
            self.wf(),
        ensures
            f == if self@.pool.dom().len() == 0 {
                None::<u64>
            } else {
                Some(lowest(self@.pool))
            },
    {
        self.first_level()
    }

    /// How many transactions have been evicted (wrapping at the top of `u64`).
    pub fn eviction_count(&self) -> (n: u64)
        ensures
            n == self@.evictions,
    {
        self.eviction_count
    }

    /// How many transactions have been rejected (wrapping at the top of `u64`).
    pub fn rejection_count(&self) -> (n: u64)
        ensures
            n == self@.rejections,
    {
        self.rejection_count
    }

    /// The bucket at `fee`.
    fn bucket(&self, fee: u64) -> (b: &Vec<Transaction>)
        requires
            self.wf(),
            self@.pool.dom().contains(fee),
        ensures
            bucket_view(*b) == self@.pool[fee],
    {
        proof {
            self.lemma_pool_dom();
        }
        self.transactions.get(&fee).unwrap()
    }

    /// Finds the pending transaction from `sender` with `nonce`: its bucket,
    /// its position there and the fee it pays.
    fn find_slot(&self, sender: &String, nonce: u64) -> (r: Option<(u64, usize, u64)>)
        requires
            self.wf(),
        ensures
            r is Some <==> holds_slot(self@.pool, sender@, nonce),
            r matches Some((f, i, fee)) ==> slot_pos(self@.pool, sender@, nonce) == (f, i as int)
                && fee == slot_tx(self@.pool, sender@, nonce).fee,
    {
        let ghost p = self@.pool;
        let fees = self.fee_levels();
        proof {
            lemma_levels(p);
        }
        let mut li: usize = 0;
        while li < fees.len()
            invariant
                self.wf(),
                p == self@.pool,
                is_fee_order(fees@, p.dom()),
                li <= fees.len(),
                forall|k: int, j: int|
                    #![trigger p[fees@[k]][j]]
                    0 <= k < li && 0 <= j < p[fees@[k]].len() ==> !(p[fees@[k]][j].sender
                        == sender@ && p[fees@[k]][j].nonce == nonce),
            decreases fees.len() - li,
        {
            let f = fees[li];
            proof {
                assert(fees@.to_set().contains(f));
            }
            let bucket = self.bucket(f);
            let mut j: usize = 0;
            while j < bucket.len()
                invariant
                    self.wf(),
                    p == self@.pool,
                    p.dom().contains(f),
                    bucket_view(*bucket) == p[f],
                    j <= bucket.len(),
                    forall|m: int|
                        #![trigger p[f][m]]
                        0 <= m < j ==> !(p[f][m].sender == sender@ && p[f][m].nonce == nonce),
                decreases bucket.len() - j,
            {
                let t = &bucket[j];
                if t.get_nonce() == nonce && t.get_sender().eq(sender) {
                    proof {
                        assert(p[f][j as int] == t@);
                        lemma_slot_pos_is(self@, f, j as int);
                    }
                    return Some((f, j, t.get_fee()));
                }
                proof {
                    assert(p[f][j as int] == t@);
                }
                j += 1;
            }
            li += 1;
        }
        proof {
            if holds_slot(p, sender@, nonce) {
                lemma_slot_pos(p, sender@, nonce);
                let (g, k) = slot_pos(p, sender@, nonce);
                assert(fees@.to_set().contains(g));
                let m = choose|m: int| 0 <= m < fees@.len() && fees@[m] == g;
                assert(p[fees@[m]][k] == p[g][k]);
            }
        }
        None
    }

    /// The highest nonce pending from `sender`.
    fn top_nonce_of(&self, sender: &String) -> (r: Option<u64>)
        requires
            self.wf(),
        ensures
            r == pending_nonce(self@.pool, sender@),
    {
        let ghost p = self@.pool;
        let fees = self.fee_levels();
        proof {
            lemma_levels(p);
        }
        let mut best: Option<u64> = None;
        let ghost mut wit: (u64, int) = (0, 0);
        let mut li: usize = 0;
        while li < fees.len()
            invariant
                self.wf(),
                p == self@.pool,
                is_fee_order(fees@, p.dom()),
                li <= fees.len(),
                best is None ==> forall|k: int, j: int|
                    #![trigger p[fees@[k]][j]]
                    0 <= k < li && 0 <= j < p[fees@[k]].len() ==> !sent_by(
                        p[fees@[k]][j],
                        sender@),
                best matches Some(n) ==> {
                    &&& entry(p, wit.0, wit.1)
                    &&& sent_by(p[wit.0][wit.1], sender@)
                    &&& p[wit.0][wit.1].nonce == n
                    &&& forall|k: int, j: int|
                        #![trigger p[fees@[k]][j]]
                        0 <= k < li && 0 <= j < p[fees@[k]].len() && sent_by(
                            p[fees@[k]][j],
                            sender@) ==> p[fees@[k]][j].nonce <= n
                },
            decreases fees.len() - li,
        {
            let f = fees[li];
            proof {
                assert(fees@.to_set().contains(f));
            }
            let bucket = self.bucket(f);
            let mut j: usize = 0;
            while j < bucket.len()
                invariant
                    self.wf(),
                    p == self@.pool,
                    is_fee_order(fees@, p.dom()),
                    li < fees.len(),
                    f == fees@[li as int],
                    p.dom().contains(f),
                    bucket_view(*bucket) == p[f],
                    j <= bucket.len(),
                    best is None ==> forall|k: int, m: int|
                        #![trigger p[fees@[k]][m]]
                        0 <= k < li && 0 <= m < p[fees@[k]].len() ==> !sent_by(
                            p[fees@[k]][m],
                            sender@),
                    best is None ==> forall|m: int|
                        #![trigger p[f][m]]
                        0 <= m < j ==> !sent_by(p[f][m], sender@),
                    best matches Some(n) ==> {
                        &&& entry(p, wit.0, wit.1)
                        &&& sent_by(p[wit.0][wit.1], sender@)
                        &&& p[wit.0][wit.1].nonce == n
                        &&& forall|k: int, m: int|
                            #![trigger p[fees@[k]][m]]
                            0 <= k < li && 0 <= m < p[fees@[k]].len() && sent_by(
                                p[fees@[k]][m],
                                sender@) ==> p[fees@[k]][m].nonce <= n
                        &&& forall|m: int|
                            #![trigger p[f][m]]
                            0 <= m < j && sent_by(p[f][m], sender@) ==> p[f][m].nonce <= n
                    },
                decreases bucket.len() - j,
            {
                let t = &bucket[j];
                proof {
                    assert(p[f][j as int] == t@);
                }
                if t.get_sender().eq(sender) {
                    let n = t.get_nonce();
                    let better = match best {
                        Some(b) => n > b,
                        None => true,
                    };
                    if better {
                        best = Some(n);
                        proof {
                            wit = (f, j as int);
                        }
                    }
                }
                j += 1;
            }
            li += 1;
        }
        proof {
            match best {
                Some(n) => {
                    assert forall|g: u64, k: int|
                        #![trigger p[g][k]]
                        entry(p, g, k) && sent_by(p[g][k], sender@) implies p[g][k].nonce
                            <= n by {
                        assert(fees@.to_set().contains(g));
                        let m = choose|m: int| 0 <= m < fees@.len() && fees@[m] == g;
                        assert(p[fees@[m]][k] == p[g][k]);
                    }
                    assert(is_top_nonce(p, sender@, n));
                    lemma_top_nonce_is(p, sender@, n);
                },
                None => {
                    if crate::model::has_pending(p, sender@) {
                        let (g, k) = choose|g: u64, k: int|
                            #![trigger p[g][k]]
                            entry(p, g, k) && sent_by(p[g][k], sender@);
                        assert(fees@.to_set().contains(g));
                        let m = choose|m: int| 0 <= m < fees@.len() && fees@[m] == g;
                        assert(p[fees@[m]][k] == p[g][k]);
                    }
                },
            }
        }
        best
    }

    /// Removes the transaction at position `idx` of the bucket at `fee`.
    fn remove_entry(&mut self, fee: u64, idx: usize)
        requires
            old(self).wf(),
            entry(old(self)@.pool, fee, idx as int),
        ensures
            final(self).wf(),
            final(self).provider() == old(self).provider(),
            final(self).eviction_ch == old(self).eviction_ch,
            final(self)@ == (PoolState { pool: remove_at(old(self)@.pool, fee, idx as int), ..old(self)@ }),
    {
        proof {
            self.lemma_pool_dom();
            lemma_wf_remove_at(self@, fee, idx as int);
        }
        let ghost old_state = self@;
        let ghost old_map = self.transactions@;
        let mut bucket = self.transactions.remove(&fee).unwrap();
        proof {
            assert(bucket == old_map[fee]);
            assert(self.transactions@ == old_map.remove(fee));
        }
        bucket.remove(idx);
        proof {
            assert(bucket_view(bucket) =~= old_state.pool[fee].remove(idx as int));
        }
        if bucket.len() > 0 {
            self.transactions.insert(fee, bucket);
        }
        self.size = self.size - 1;
        proof {
            assert(self@.pool =~= remove_at(old_state.pool, fee, idx as int));
        }
    }

    /// Counts one more rejection.
    fn count_rejection(&mut self)
        requires
            old(self).wf(),
        ensures
            final(self).wf(),
            final(self).provider() == old(self).provider(),
            final(self).eviction_ch == old(self).eviction_ch,
            final(self)@ == reject(old(self)@),
    {
        self.rejection_count = self.rejection_count.wrapping_add(1);
    }

    /// Replace-by-fee: when a transaction from the same sender with the same
    /// nonce is pending, `tx` is turned away unless it pays strictly more, and
    /// otherwise the pending one is removed to make way for it.
    fn duplicity_check(&mut self, tx: &Transaction) -> (r: Result<(), MempoolError>)
        requires
            old(self).wf(),
        ensures
            final(self).wf(),
            final(self).provider() == old(self).provider(),
            final(self).eviction_ch == old(self).eviction_ch,
            match r {
                Ok(()) => {
                    &&& !outbid_by_pending(old(self)@.pool, tx@)
                    &&& final(self)@ == if holds_slot(old(self)@.pool, tx@.sender, tx@.nonce) {
                        PoolState { pool: drop_slot(old(self)@.pool, tx@.sender, tx@.nonce), ..old(self)@ }
                    } else {
                        old(self)@
                    }
                },
                Err(e) => outbid_by_pending(old(self)@.pool, tx@) && final(self)@ == reject(
                    old(self)@,
                ) && e@ == (Rejection::Duplicate {
                    sender: tx@.sender,
                    nonce: tx@.nonce,
                    existing_fee: slot_tx(old(self)@.pool, tx@.sender, tx@.nonce).fee,
                    new_fee: tx@.fee,
                }),
            },
    {
        let existing = self.find_slot(tx.get_sender(), tx.get_nonce());
        match existing {
            Some((bucket_fee, idx, old_fee)) => {
                if tx.get_fee() <= old_fee {
                    self.count_rejection();
                    return Err(
                        MempoolError::Duplicate {
                            sender: tx.get_sender().clone(),
                            nonce: tx.get_nonce(),
                            existing_fee: old_fee,
                            new_fee: tx.get_fee(),
                        },
                    );
                }
                proof {
                    lemma_slot_pos(self@.pool, tx@.sender, tx@.nonce);
                }
                self.remove_entry(bucket_fee, idx);
                Ok(())
            },
            None => Ok(()),
        }
    }

    /// The nonce of `tx` must be the one the pool expects next from its sender.
    fn nonce_gap_check(&mut self, tx: &Transaction, onchain_nonce: u64) -> (r: Result<(), MempoolError>)
        requires
            old(self).wf(),
            pending_nonce(old(self)@.pool, tx@.sender) != Some(u64::MAX),
        ensures
            final(self).wf(),
            final(self).provider() == old(self).provider(),
            final(self).eviction_ch == old(self).eviction_ch,
            match r {
                Ok(()) => tx@.nonce == expected_nonce(old(self)@.pool, tx@.sender, onchain_nonce)
                    && final(self)@ == old(self)@,
                Err(e) => tx@.nonce != expected_nonce(old(self)@.pool, tx@.sender, onchain_nonce)
                    && final(self)@ == reject(old(self)@) && e@ == (Rejection::NonceGap {
                    sender: tx@.sender,
                    expected: expected_nonce(old(self)@.pool, tx@.sender, onchain_nonce) as u64,
                    got: tx@.nonce,
                }),
            },
    {
        let existing = self.top_nonce_of(tx.get_sender());
        let expected: u64 = match existing {
            Some(n) => n + 1,
            None => onchain_nonce,
        };
        if tx.get_nonce() != expected {
            self.count_rejection();
            return Err(
                MempoolError::NonceGap {
                    sender: tx.get_sender().clone(),
                    expected,
                    got: tx.get_nonce(),
                },
            );
        }
        Ok(())
    }

    /// Offers `tx` to the pool, given what the chain reports of its sender: the
    /// nonce the chain expects next and, when known, the sender's balance.
    /// Checks run in order: stale nonce, balance, minimum fee, replace-by-fee,
    /// nonce gap, then room in the pool, evicting the worst transaction when
    /// `tx` outbids it.
    pub fn insert_with_state(
        &mut self,
        tx: Transaction,
        onchain_nonce: u64,
        onchain_balance: Option<u64>,
    ) -> (r: Result<(), MempoolError>)
        requires
            old(self).wf(),
            chain_accepts(tx@, onchain_nonce, onchain_balance) ==> !nonce_overflows(old(self)@, tx@),
        ensures
            final(self).wf(),
            final(self).provider() == old(self).provider(),
            forall|rx: Receiver<Transaction>| #[trigger] old(self).heard_by(rx) ==> final(self).heard_by(rx),
            final(self)@ == accept_tx(old(self)@, tx@, onchain_nonce, onchain_balance).0,
            outcome_view(r) == accept_tx(old(self)@, tx@, onchain_nonce, onchain_balance).1,
    {
        let ghost s0 = self@;
        let ghost t = tx@;
        if tx.get_nonce() < onchain_nonce {
            self.count_rejection();
            return Err(
                MempoolError::UnexpectedNonce {
                    sender: tx.get_sender().clone(),
                    expected: onchain_nonce,
                    got: tx.get_nonce(),
                },
            );
        }
        match onchain_balance {
            Some(onchain_balance) => {
                if tx.get_fee() > onchain_balance {
                    self.count_rejection();
                    return Err(
                        MempoolError::InsufficientBalance {
                            sender: tx.get_sender().clone(),
                            balance: onchain_balance,
                            fee: tx.get_fee(),
                        },
                    );
                }
            },
            None => {},
        }
        if tx.get_fee() < self.min_fee {
            self.count_rejection();
            return Err(MempoolError::FeeBelowMinimum { fee: tx.get_fee(), min_fee: self.min_fee });
        }
        proof {
            if holds_slot(s0.pool, t.sender, t.nonce) {
                lemma_slot_pos(s0.pool, t.sender, t.nonce);
                let (f, i) = slot_pos(s0.pool, t.sender, t.nonce);
                lemma_wf_remove_at(s0, f, i);
                lemma_drop_slot_frees(s0, t.sender, t.nonce);
            }
        }
        let before = self.size;
        match self.duplicity_check(&tx) {
            Ok(()) => {},
            Err(e) => {
                return Err(e);
            },
        }
        // A replacement has just left the pool one smaller; it keeps the
        // slot's place in the sender's nonces and needs no room.
        if self.size == before {
            match self.nonce_gap_check(&tx, onchain_nonce) {
                Ok(()) => {},
                Err(e) => {
                    return Err(e);
                },
            }
            if self.size >= self.capacity {
                let opt_worst_fee = self.lowest_fee();
                match opt_worst_fee {
                    Some(worst_fee) => {
                        if tx.get_fee() <= worst_fee {
                            return Err(MempoolError::Eviction { fee: tx.get_fee(), worst_fee });
                        }
                        proof {
                            lemma_count_zero(s0.pool);
                            lemma_extreme_levels(s0.pool);
                            lemma_take_back_is_remove_at(s0.pool, lowest(s0.pool));
                            lemma_remove_at_keeps_free(
                                s0.pool,
                                lowest(s0.pool),
                                s0.pool[lowest(s0.pool)].len() - 1,
                                t.sender,
                                t.nonce,
                            );
                            lemma_wf_remove_at(
                                s0,
                                lowest(s0.pool),
                                s0.pool[lowest(s0.pool)].len() - 1,
                            );
                        }
                        let ghost pre = *self;
                        self.pop_worst();
                        proof {
                            assert forall|rx: Receiver<Transaction>|
                                #[trigger] old(self).heard_by(rx) implies self.heard_by(rx) by {
                                assert(pre.heard_by(rx));
                            }
                        }
                    },
                    None => {
                        return Err(MempoolError::PoolFull);
                    },
                }
            }
        }
        self.push_tx(tx);
        Ok(())
    }

    /// Offers `tx` to the pool, asking the state provider for the sender's
    /// on-chain nonce (taken as zero when unknown) and, unless that nonce
    /// already shows `tx` stale, its balance. An offer the chain accepts must
    /// not be one that `nonce_would_overflow` reports.
    pub fn insert(&mut self, tx: Transaction) -> (r: Result<(), MempoolError>)
        requires
            old(self).wf(),
            forall|nonce_answer: Option<u64>, balance_answer: Option<u64>|
                #[trigger] provider_gave(old(self).provider(), tx@, nonce_answer, balance_answer)
                    && chain_accepts(tx@, chain_nonce(nonce_answer), balance_answer)
                    ==> !nonce_overflows(old(self)@, tx@),
        ensures
            final(self).wf(),
            final(self).provider() == old(self).provider(),
            forall|rx: Receiver<Transaction>| #[trigger] old(self).heard_by(rx) ==> final(self).heard_by(rx),
            (forall|n: u64| #[trigger] old(self).provider().nonce_answer(tx@.sender, Some(n)) ==> n
                <= tx@.nonce) && (forall|b: Option<u64>|
                #[trigger] old(self).provider().balance_answer(tx@.sender, b) ==> (b matches Some(v)
                && v < tx@.fee)) ==> {
                &&& r matches Err(e) && (e@ matches Rejection::InsufficientBalance { sender, balance, fee }
                    && sender == tx@.sender && fee == tx@.fee && old(self).provider().balance_answer(
                    tx@.sender,
                    Some(balance),
                ))
                &&& final(self)@ == (PoolState { rejections: wrap_inc(old(self)@.rejections), ..old(self)@ })
            },
            (forall|a: Option<u64>| #[trigger] old(self).provider().nonce_answer(tx@.sender, a) ==> (a matches Some(
                n,
            ) && n > tx@.nonce)) ==> {
                &&& r matches Err(e) && (e@ matches Rejection::UnexpectedNonce { sender, expected, got }
                    && sender == tx@.sender && got == tx@.nonce && old(self).provider().nonce_answer(
                    tx@.sender,
                    Some(expected),
                ))
                &&& final(self)@ == (PoolState { rejections: wrap_inc(old(self)@.rejections), ..old(self)@ })
            },
            exists|nonce_answer: Option<u64>, balance_answer: Option<u64>|
                #[trigger] provider_gave(old(self).provider(), tx@, nonce_answer, balance_answer)
                    && final(self)@ == offer_with_answers(
                    old(self)@,
                    tx@,
                    nonce_answer,
                    balance_answer,
                ).0 && outcome_view(r) == offer_with_answers(
                    old(self)@,
                    tx@,
                    nonce_answer,
                    balance_answer,
                ).1,
    {
        let nonce_answer = self.state_provider.get_nonce(tx.get_sender().as_str());
        let onchain_nonce: u64 = match nonce_answer {
            Some(n) => n,
            None => 0,
        };
        let balance_answer = if tx.get_nonce() < onchain_nonce {
            None
        } else {
            self.state_provider.get_balance(tx.get_sender().as_str())
        };
        proof {
            assert(provider_gave(old(self).provider(), tx@, nonce_answer, balance_answer));
        }
        self.insert_with_state(tx, onchain_nonce, balance_answer)
    }

    /// Whether offering `tx` would reach the nonce check with a pending nonce
    /// at the top of `u64`, where the next nonce cannot be computed.
    pub fn nonce_would_overflow(&self, tx: &Transaction) -> (r: bool)
        requires
            self.wf(),
        ensures
            r == nonce_overflows(self@, tx@),
    {
        if tx.get_fee() < self.min_fee {
            return false;
        }
        if self.find_slot(tx.get_sender(), tx.get_nonce()).is_some() {
            return false;
        }
        let top = self.top_nonce_of(tx.get_sender());
        match top {
            Some(n) => n == u64::MAX,
            None => false,
        }
    }

    /// Copies of the `top_n` best-paying transactions: highest fee first and,
    /// within a fee, oldest first. The pool is left as it was.
    pub fn snapshot(&self, top_n: usize) -> (r: Vec<Transaction>)
        requires
            self.wf(),
        ensures
            bucket_view(r) == prefix(descending(self@.pool), top_n as nat),
            forall|i: int| 0 <= i < r.len() ==> contents(self@.pool).contains(#[trigger] r@[i]@),
    {
        proof {
            lemma_listings_hold_contents(self@, top_n as nat);
        }
        let ghost p = self@.pool;
        let fees = self.fee_levels();
        let ghost order = fees@.reverse();
        let ghost bs = buckets_in(p, order);
        proof {
            lemma_levels(p);
        }
        let mut out: Vec<Transaction> = Vec::new();
        let mut done: usize = 0;
        while done < fees.len() && out.len() < top_n
            invariant
                self.wf(),
                p == self@.pool,
                fees@ == levels(p),
                is_fee_order(fees@, p.dom()),
                order == fees@.reverse(),
                bs == buckets_in(p, order),
                done <= fees.len(),
                bucket_view(out) == bs.take(done as int).flatten(),
            decreases fees.len() - done,
        {
            let f = fees[fees.len() - 1 - done];
            proof {
                assert(fees@.to_set().contains(f));
                assert(bs[done as int] == p[f]);
            }
            let bucket = self.bucket(f);
            let ghost before = bucket_view(out);
            let mut j: usize = 0;
            while j < bucket.len()
                invariant
                    self.wf(),
                    p == self@.pool,
                    p.dom().contains(f),
                    bucket_view(*bucket) == p[f],
                    j <= bucket.len(),
                    bucket_view(out) == before + p[f].take(j as int),
                decreases bucket.len() - j,
            {
                let copy = bucket[j].clone();
                let ghost prev = bucket_view(out);
                proof {
                    assert(p[f][j as int] == copy@);
                }
                out.push(copy);
                proof {
                    assert(bucket_view(out) =~= prev.push(copy@));
                    assert(p[f].take(j + 1) =~= p[f].take(j as int).push(copy@));
                    assert(bucket_view(out) =~= before + p[f].take(j + 1));
                }
                j += 1;
            }
            proof {
                assert(p[f].take(j as int) =~= p[f]);
                assert(bs.take(done + 1) =~= bs.take(done as int).push(bs[done as int]));
                bs.take(done as int).lemma_flatten_push(bs[done as int]);
            }
            done += 1;
        }
        proof {
            assert(bs =~= bs.take(done as int) + bs.skip(done as int));
            vstd::seq_lib::lemma_flatten_concat(bs.take(done as int), bs.skip(done as int));
            assert(descending(p) == bs.flatten());
        }
        out.truncate(top_n);
        proof {
            let flat = bs.flatten();
            if done == fees.len() {
                assert(bs.take(done as int) =~= bs);
            } else {
                assert(bucket_view(out) =~= flat.take(top_n as int));
            }
            assert forall|i: int| 0 <= i < out.len() implies contents(p).contains(#[trigger] out@[i]@) by {
                assert(bucket_view(out) == prefix(descending(p), top_n as nat));
                assert(bucket_view(out)[i] == out@[i]@);
                assert(contents(p).contains(prefix(descending(p), top_n as nat)[i]));
            }
        }
        out
    }

    /// Copies of every pending transaction: lowest fee first and, within a
    /// fee, oldest first.
    pub fn get_transactions(&self) -> (r: Vec<Transaction>)
        requires
            self.wf(),
        ensures
            bucket_view(r) == ascending(self@.pool),
            bucket_view(r).to_multiset() == contents(self@.pool),
    {
        proof {
            lemma_listings_hold_contents(self@, 0);
        }
        let ghost p = self@.pool;
        let fees = self.fee_levels();
        let ghost bs = buckets_in(p, fees@);
        proof {
            lemma_levels(p);
        }
        let mut out: Vec<Transaction> = Vec::new();
        let mut done: usize = 0;
        while done < fees.len()
            invariant
                self.wf(),
                p == self@.pool,
                is_fee_order(fees@, p.dom()),
                bs == buckets_in(p, fees@),
                done <= fees.len(),
                bucket_view(out) == bs.take(done as int).flatten(),
            decreases fees.len() - done,
        {
            let f = fees[done];
            proof {
                assert(fees@.to_set().contains(f));
            }
            let bucket = self.bucket(f);
            let ghost before = bucket_view(out);
            let mut j: usize = 0;
            while j < bucket.len()
                invariant
                    self.wf(),
                    p == self@.pool,
                    p.dom().contains(f),
                    bucket_view(*bucket) == p[f],
                    j <= bucket.len(),
                    bucket_view(out) == before + p[f].take(j as int),
                decreases bucket.len() - j,
            {
                let copy = bucket[j].clone();
                let ghost prev = bucket_view(out);
                proof {
                    assert(p[f][j as int] == copy@);
                }
                out.push(copy);
                proof {
                    assert(bucket_view(out) =~= prev.push(copy@));
                    assert(p[f].take(j + 1) =~= p[f].take(j as int).push(copy@));
                    assert(bucket_view(out) =~= before + p[f].take(j + 1));
                }
                j += 1;
            }
            proof {
                assert(p[f].take(j as int) =~= p[f]);
                assert(bs.take(done + 1) =~= bs.take(done as int).push(bs[done as int]));
                bs.take(done as int).lemma_flatten_push(bs[done as int]);
            }
            done += 1;
        }
        proof {
            assert(bs.take(done as int) =~= bs);
        }
        out
    }

    /// The sum of the fees of the pending transactions.
    pub fn total_fee(&self) -> (total: u128)
        requires
            self.wf(),
        ensures
            total == fee_sum(ascending(self@.pool)),
    {
        let ghost p = self@.pool;
        let fees = self.fee_levels();
        let ghost bs = buckets_in(p, fees@);
        let ghost flat = bs.flatten();
        proof {
            lemma_levels(p);
            lemma_flat_len(p);
        }
        let mut total: u128 = 0;
        let mut done: usize = 0;
        while done < fees.len()
            invariant
                self.wf(),
                p == self@.pool,
                is_fee_order(fees@, p.dom()),
                bs == buckets_in(p, fees@),
                flat == bs.flatten(),
                flat.len() <= usize::MAX,
                done <= fees.len(),
                total == fee_sum(bs.take(done as int).flatten()),
                total <= bs.take(done as int).flatten().len() * 0xffff_ffff_ffff_ffffu64,
                bs.take(done as int).flatten().len() <= flat.len(),
            decreases fees.len() - done,
        {
            let f = fees[done];
            proof {
                assert(fees@.to_set().contains(f));
            }
            let bucket = self.bucket(f);
            let ghost before = bs.take(done as int).flatten();
            proof {
                assert(bs =~= bs.take(done as int) + bs.skip(done as int));
                vstd::seq_lib::lemma_flatten_concat(bs.take(done as int), bs.skip(done as int));
                assert(bs.skip(done as int).first() == p[f]);
                assert(bs.skip(done as int).flatten() == p[f] + bs.skip(done as int).drop_first().flatten());
                assert(before.len() + p[f].len() <= flat.len());
            }
            let mut j: usize = 0;
            while j < bucket.len()
                invariant
                    self.wf(),
                    p == self@.pool,
                    p.dom().contains(f),
                    bucket_view(*bucket) == p[f],
                    j <= bucket.len(),
                    before.len() + p[f].len() <= flat.len(),
                    flat.len() <= usize::MAX,
                    total == fee_sum(before + p[f].take(j as int)),
                    total <= (before + p[f].take(j as int)).len() * 0xffff_ffff_ffff_ffffu64,
                decreases bucket.len() - j,
            {
                let fee = bucket[j].get_fee();
                let ghost seen = before + p[f].take(j as int);
                proof {
                    assert(p[f][j as int].fee == fee);
                    assert(before + p[f].take(j + 1) =~= seen.push(p[f][j as int]));
                    assert((seen.push(p[f][j as int])).drop_last() =~= seen);
                }
                total = total + fee as u128;
                j += 1;
            }
            proof {
                assert(p[f].take(j as int) =~= p[f]);
                assert(bs.take(done + 1) =~= bs.take(done as int).push(bs[done as int]));
                bs.take(done as int).lemma_flatten_push(bs[done as int]);
            }
            done += 1;
        }
        proof {
            assert(bs.take(done as int) =~= bs);
        }
        total
    }
}

} // verus!
