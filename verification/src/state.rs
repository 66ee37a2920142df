use vstd::prelude::*;
use std::collections::HashMap;

verus! {

/// Where the pool learns what the chain knows of a sender: the next nonce the
/// chain expects and the balance the sender holds. Implementors decide how the
/// answer is found, and say which answers they may give: a provider whose
/// answers change over time can allow every answer.
pub trait StateProvider: Send + Sync {
    /// `r` is an answer `get_nonce` may give for `sender`.
    spec fn nonce_answer(&self, sender: Seq<char>, r: Option<u64>) -> bool;

    /// `r` is an answer `get_balance` may give for `sender`.
    spec fn balance_answer(&self, sender: Seq<char>, r: Option<u64>) -> bool;

    fn get_nonce(&self, sender: &str) -> (r: Option<u64>)
        ensures
            self.nonce_answer(sender@, r),
    ;

    fn get_balance(&self, sender: &str) -> (r: Option<u64>)
        ensures
            self.balance_answer(sender@, r),
    ;
}

/// `r` is what looking `key` up in `table` answers: the value stored under a
/// key with those characters, or nothing when no key has them.
pub open spec fn table_answers(table: Map<String, u64>, key: Seq<char>, r: Option<u64>) -> bool {
    match r {
        Some(v) => exists|k: String| #[trigger] table.contains_key(k) && k@ == key && table[k] == v,
        None => forall|k: String| #[trigger] table.contains_key(k) ==> k@ != key,
    }
}

/// Calls `std::collections::HashMap::get` on a table keyed by `String` with a
/// `&str` key. Claims what std documents: the result is the value stored under
/// the key equal to `key` (a `String` and a `str` compare by their characters),
/// and nothing when there is no such key.
#[verifier::external_body]
fn table_get<'a>(table: &'a HashMap<String, u64>, key: &str) -> (r: Option<&'a u64>)
    ensures
        match r {
            Some(v) => table_answers(table@, key@, Some(*v)),
            None => table_answers(table@, key@, None),
        },
{
    table.get(key)
}

/// A state provider that answers from two fixed tables.
pub struct MockStateProvider {
    nonces: HashMap<String, u64>,
    balances: HashMap<String, u64>,
}

impl MockStateProvider {
    /// A provider that knows no sender.
    pub fn new() -> (p: MockStateProvider)
        ensures
            p.nonce_table() == Map::<String, u64>::empty(),
            p.balance_table() == Map::<String, u64>::empty(),
    {
        MockStateProvider { nonces: HashMap::new(), balances: HashMap::new() }
    }

    /// A provider that answers from the given tables.
    pub fn new_with_values(nonces: HashMap<String, u64>, balances: HashMap<String, u64>) -> (p:
        MockStateProvider)
        ensures
            p.nonce_table() == nonces@,
            p.balance_table() == balances@,
    {
        MockStateProvider { nonces, balances }
    }

    pub closed spec fn nonce_table(&self) -> Map<String, u64> {
        self.nonces@
    }

    pub closed spec fn balance_table(&self) -> Map<String, u64> {
        self.balances@
    }
}

impl StateProvider for MockStateProvider {
    open spec fn nonce_answer(&self, sender: Seq<char>, r: Option<u64>) -> bool {
        table_answers(self.nonce_table(), sender, r)
    }

    open spec fn balance_answer(&self, sender: Seq<char>, r: Option<u64>) -> bool {
        table_answers(self.balance_table(), sender, r)
    }

    fn get_nonce(&self, sender: &str) -> (r: Option<u64>)
        ensures
            table_answers(self.nonce_table(), sender@, r),
    {
        match table_get(&self.nonces, sender) {
            Some(n) => Some(*n),
            None => None,
        }
    }

    fn get_balance(&self, sender: &str) -> (r: Option<u64>)
        ensures
            table_answers(self.balance_table(), sender@, r),
    {
        match table_get(&self.balances, sender) {
            Some(b) => Some(*b),
            None => None,
        }
    }
}

} // verus!
