//! A schema-typed, hierarchical document store over an ordered byte-keyed
//! map, with the rules of its paths, schema and mutations proved.

use vstd::prelude::*;

pub mod codec;
pub mod error;
pub mod frames;
pub mod index;
pub mod laws;
pub mod membership;
pub mod message;
pub mod model;
pub mod permission;
pub mod round_trip;
pub mod schema;
pub mod seqs;
pub mod server;
pub mod session;
pub mod store;
pub mod tidy;
pub mod transaction;
pub mod value;

verus! {

/// The number by which a connected client is known.
#[derive(Copy, Clone, Debug, Hash, PartialEq, Eq, Structural)]
pub struct ClientId(pub u64);

/// The registry of connected clients: it hands out a number to each
/// client that connects, never the same number twice.
pub struct ClientManager {
    next: u64,
    clients: Vec<ClientId>,
}

impl ClientManager {
    /// The clients that are registered, in the order in which they came.
    pub closed spec fn registered(&self) -> Seq<ClientId> {
        self.clients@
    }

    /// The number that the next client gets.
    pub closed spec fn next_id(&self) -> u64 {
        self.next
    }

    /// Every registered client has a number below the next one, and no two
    /// have the same.
    pub open spec fn wf(&self) -> bool {
        &&& self.registered().no_duplicates()
        &&& forall|i: int|
            0 <= i < self.registered().len() ==> (#[trigger] self.registered()[i]).0
                < self.next_id()
    }

    /// A registry without clients.
    pub fn new() -> (manager: ClientManager)
        ensures
            manager.wf(),
            manager.registered() == Seq::<ClientId>::empty(),
            manager.next_id() == 0,
    {
        ClientManager { next: 0, clients: Vec::new() }
    }

    /// Registers a client under a number that no client has had.
    pub fn new_client(&mut self) -> (id: ClientId)
        requires
            old(self).wf(),
            old(self).next_id() < u64::MAX,
        ensures
            final(self).wf(),
            id.0 == old(self).next_id(),
            final(self).next_id() == old(self).next_id() + 1,
            final(self).registered() == old(self).registered().push(id),
            !old(self).registered().contains(id),
    {
        let id = ClientId(self.next);
        self.next = self.next + 1;
        self.clients.push(id);
        id
    }

    /// Where a client stands in the registry.
    fn position(&self, client_id: ClientId) -> (found: Option<usize>)
        ensures
            match found {
                Some(i) => i < self.registered().len() && self.registered()[i as int] == client_id,
                None => !self.registered().contains(client_id),
            },
    {
        let mut i: usize = 0;
        while i < self.clients.len()
            invariant
                i <= self.clients.len(),
                forall|j: int| 0 <= j < i ==> self.registered()[j] != client_id,
            decreases self.clients.len() - i,
        {
            if self.clients[i] == client_id {
                return Some(i);
            }
            i = i + 1;
        }
        None
    }

    /// Whether a client is registered.
    pub fn is_registered(&self, client_id: ClientId) -> (found: bool)
        ensures
            found == self.registered().contains(client_id),
    {
        self.position(client_id).is_some()
    }

    /// Takes a client out of the registry; the others stay, in order.
    pub fn remove(&mut self, client_id: ClientId)
        requires
            old(self).wf(),
        ensures
            final(self).wf(),
            final(self).next_id() == old(self).next_id(),
            !final(self).registered().contains(client_id),
            final(self).registered() == if old(self).registered().contains(client_id) {
                old(self).registered().remove(old(self).registered().index_of(client_id))
            } else {
                old(self).registered()
            },
    {
        let ghost before = self.registered();
        match self.position(client_id) {
            Some(i) => {
                let _ = self.clients.remove(i);
                proof {
                    crate::seqs::lemma_remove_distinct(before, i as int);
                    let after = self.registered();
                    assert(after =~= before.remove(i as int));
                    assert forall|a: int| 0 <= a < after.len() implies (#[trigger] after[a]).0
                        < self.next_id() by {
                        assert(before.contains(after[a]));
                        let k = choose|k: int| 0 <= k < before.len() && before[k] == after[a];
                        assert(before[k].0 < self.next_id());
                    }
                }
            },
            None => {},
        }
    }
}

/// Sum of two sizes.
pub fn add(left: usize, right: usize) -> (sum: usize)
    requires
        left + right <= usize::MAX,
    ensures
        sum == left + right,
{
    left + right
}

} // verus!
