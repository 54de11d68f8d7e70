//! What a client must be permitted to do for each request.

use crate::message::ClientMessage;
use vstd::prelude::*;

verus! {

/// What a request does to the store, as the permission check sees it.
#[derive(Debug, Clone, Copy, PartialEq, Eq)]
pub enum Operation {
    Read,
    Insert,
    Update,
    Remove,
}

impl Operation {
    /// The word by which the permission check knows this operation.
    pub fn name(&self) -> (word: &'static str)
        ensures
            word@ == match self {
                Operation::Read => "read"@,
                Operation::Insert => "insert"@,
                Operation::Update => "update"@,
                Operation::Remove => "remove"@,
            },
    {
        match self {
            Operation::Read => "read",
            Operation::Insert => "insert",
            Operation::Update => "update",
            Operation::Remove => "remove",
        }
    }
}

/// The operation that a request needs permission for: a read for a get or
/// a subscription, the mutation itself for a mutation, none for ending a
/// subscription.
pub open spec fn needed(msg: ClientMessage) -> Option<Operation> {
    match msg {
        ClientMessage::Get(_) => Some(Operation::Read),
        ClientMessage::Insert(_, _) => Some(Operation::Insert),
        ClientMessage::Update(_, _) => Some(Operation::Update),
        ClientMessage::Remove(_) => Some(Operation::Remove),
        ClientMessage::Subscribe(_) => Some(Operation::Read),
        ClientMessage::Unsubscribe(_) => None,
    }
}

/// The operation that a request needs permission for.
pub fn required_operation(msg: &ClientMessage) -> (op: Option<Operation>)
    ensures
        op == needed(*msg),
{
    match msg {
        ClientMessage::Get(_) => Some(Operation::Read),
        ClientMessage::Insert(_, _) => Some(Operation::Insert),
        ClientMessage::Update(_, _) => Some(Operation::Update),
        ClientMessage::Remove(_) => Some(Operation::Remove),
        ClientMessage::Subscribe(_) => Some(Operation::Read),
        ClientMessage::Unsubscribe(_) => None,
    }
}

} // verus!
