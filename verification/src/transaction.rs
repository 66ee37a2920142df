use vstd::prelude::*;

verus! {

/// What a transaction holds, as plain mathematical values.
pub struct TxView {
    pub sender: Seq<char>,
    pub nonce: u64,
    pub fee: u64,
    pub data: Seq<u8>,
}

/// A pending transaction: who sends it, its position in the sender's
/// sequence (the nonce), the fee it pays and its opaque payload.
#[derive(Debug, PartialEq)]
pub struct Transaction {
    pub sender: String,
    nonce: u64,
    pub fee: u64,
    data: Vec<u8>,
}

impl View for Transaction {
    type V = TxView;

    closed spec fn view(&self) -> TxView {
        TxView { sender: self.sender@, nonce: self.nonce, fee: self.fee, data: self.data@ }
    }
}

impl Transaction {
    pub fn new(sender: String, nonce: u64, fee: u64, data: Vec<u8>) -> (tx: Transaction)
        ensures
            tx@ == (TxView { sender: sender@, nonce, fee, data: data@ }),
    {
        Transaction { sender, nonce, fee, data }
    }

    pub fn get_nonce(&self) -> (n: u64)
        ensures
            n == self@.nonce,
    {
        self.nonce
    }

    pub fn get_fee(&self) -> (f: u64)
        ensures
            f == self@.fee,
    {
        self.fee
    }

    pub fn get_sender(&self) -> (s: &String)
        ensures
            s@ == self@.sender,
    {
        &self.sender
    }
}

impl Clone for Transaction {
    fn clone(&self) -> (copy: Self)
        ensures
            copy@ == self@,
    {
        let data = self.data.clone();
        proof {
            assert(data@ =~= self.data@);
        }
        Transaction { sender: self.sender.clone(), nonce: self.nonce, fee: self.fee, data }
    }
}

} // verus!
