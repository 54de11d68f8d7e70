//! Paths as clients write them.

use crate::codec::names_of;
use crate::value::{Json, Value};
use vstd::prelude::*;

verus! {

/// One name of a path.
pub type RefComponent = String;

/// A path: the names that lead from the root to a node.
#[derive(Clone, Debug, Hash, PartialEq, Eq)]
pub struct Ref(pub Vec<RefComponent>);

impl View for Ref {
    type V = Seq<Seq<char>>;

    open spec fn view(&self) -> Seq<Seq<char>> {
        names_of(self.0@)
    }
}

impl Ref {
    /// The path one name below this one.
    pub fn child(&self, name: &String) -> (below: Ref)
        ensures
            below@ == self@.push(name@),
    {
        let mut below = self.duplicate();
        let ghost before = below@;
        below.0.push(name.clone());
        proof {
            assert(below@ =~= before.push(name@));
        }
        below
    }

    /// Whether two paths are the same, name for name.
    pub fn same(&self, other: &Ref) -> (equal: bool)
        ensures
            equal == (self@ == other@),
    {
        if self.0.len() != other.0.len() {
            assert(self@.len() != other@.len());
            return false;
        }
        let mut i: usize = 0;
        while i < self.0.len()
            invariant
                i <= self.0.len(),
                self.0.len() == other.0.len(),
                forall|j: int| 0 <= j < i ==> self@[j] == other@[j],
            decreases self.0.len() - i,
        {
            if self.0[i] != other.0[i] {
                assert(self@[i as int] != other@[i as int]);
                return false;
            }
            i = i + 1;
        }
        assert(self@ =~= other@);
        true
    }

    /// A copy of this path.
    pub fn duplicate(&self) -> (copy: Ref)
        ensures
            copy@ == self@,
    {
        let mut names: Vec<String> = Vec::new();
        let mut i: usize = 0;
        while i < self.0.len()
            invariant
                i <= self.0.len(),
                names_of(names@) == self@.subrange(0, i as int),
            decreases self.0.len() - i,
        {
            let ghost before = names_of(names@);
            names.push(self.0[i].clone());
            proof {
                assert(names_of(names@) =~= before.push(self.0@[i as int]@));
                assert(before.push(self.0@[i as int]@) =~= self@.subrange(0, i + 1));
            }
            i = i + 1;
        }
        proof {
            assert(self@.subrange(0, self.0@.len() as int) =~= self@);
        }
        Ref(names)
    }
}

/// A request of a client.
#[derive(Debug)]
pub enum ClientMessage {
    /// Read the value at a path.
    Get(Ref),
    /// Write a value at a document or a collection.
    Insert(Ref, Value),
    /// Replace what a path holds.
    Update(Ref, Value),
    /// Remove a path and all below it.
    Remove(Ref),
    /// Be told of every change at or below a path.
    Subscribe(Ref),
    /// Be told no more of the changes at or below a path.
    Unsubscribe(Ref),
}

/// What a client is sent.
#[derive(Debug)]
pub enum ServerMessage {
    /// The value that was read, or null after a mutation.
    Value(Value),
    /// The words for why a request failed.
    Error(String),
    /// A change under a subscribed path: the path that was subscribed to,
    /// and the string that was set, or nothing where a key was removed.
    SubscriptionUpdate(Ref, Option<String>),
}

/// The plain form of a [`ServerMessage`].
pub ghost enum Reply {
    Value(Json),
    Error(Seq<char>),
    SubscriptionUpdate(Seq<Seq<char>>, Option<Seq<char>>),
}

impl View for ServerMessage {
    type V = Reply;

    open spec fn view(&self) -> Reply {
        match self {
            ServerMessage::Value(value) => Reply::Value(value@),
            ServerMessage::Error(text) => Reply::Error(text@),
            ServerMessage::SubscriptionUpdate(key, value) => Reply::SubscriptionUpdate(
                key@,
                match value {
                    Some(text) => Some(text@),
                    None => None,
                },
            ),
        }
    }
}

} // verus!
