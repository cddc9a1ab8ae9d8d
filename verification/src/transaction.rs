use vstd::prelude::*;

verus! {

/// A transaction as the block sees it: a stable, content-derived identifier.
/// Its meaning to the ledger lives with the transaction collaborator; the
/// block only concatenates and hashes these identifier bytes.
pub struct Transaction {
    id: Vec<u8>,
}

impl View for Transaction {
    type V = Seq<u8>;

    closed spec fn view(&self) -> Seq<u8> {
        self.id@
    }
}

impl Transaction {
    /// Builds a transaction around its identifier bytes.
    pub fn new(id: Vec<u8>) -> (t: Transaction)
        ensures
            t@ == id@,
    {
        Transaction { id }
    }

    /// The identifier bytes.
    pub fn get_id(&self) -> (r: &Vec<u8>)
        ensures
            r@ == self@,
    {
        &self.id
    }
}

impl Clone for Transaction {
    fn clone(&self) -> (t: Self)
        ensures
            t@ == self@,
    {
        Transaction { id: vstd::slice::slice_to_vec(self.id.as_slice()) }
    }
}

} // verus!
