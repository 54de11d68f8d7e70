//! One client's session: what to answer to each request, and which paths
//! the client is subscribed to. The session decides; sending, watching and
//! cancelling are left to the caller.

use crate::codec::bytes_to_string;
use crate::error::{answers_failure, failure_text, reports_storage, ServerError};
use crate::message::{ClientMessage, Ref, Reply, ServerMessage};
use crate::model::{
    insert_outcome, insert_refused, path_refusal, read_spec, remove_outcome, update_outcome,
    update_refused, Contents, Failure, Path,
};
use crate::schema::SchemaItem;
use crate::server::{PathEvent, Server};
use crate::value::{Json, Value};
use vstd::prelude::*;
use vstd::string::StringExecFns;
use vstd::utf8::{decode_utf8, valid_utf8};

verus! {

/// What the caller is to do after a request.
#[derive(Debug)]
pub enum Action {
    /// Send a message to the client.
    Respond(ServerMessage),
    /// Start to forward the changes at or below a path.
    Watch(Ref),
    /// Stop forwarding the changes at or below a path.
    Cancel(Ref),
}

/// The plain form of an [`Action`].
pub ghost enum Step {
    Respond(Reply),
    Watch(Path),
    Cancel(Path),
}

impl View for Action {
    type V = Step;

    open spec fn view(&self) -> Step {
        match self {
            Action::Respond(msg) => Step::Respond(msg@),
            Action::Watch(key) => Step::Watch(key@),
            Action::Cancel(key) => Step::Cancel(key@),
        }
    }
}

/// The plain forms of a list of actions, in order.
pub open spec fn steps(actions: Seq<Action>) -> Seq<Step> {
    Seq::new(actions.len(), |i: int| actions[i]@)
}

/// The subscribed paths after a subscription to `path`.
pub open spec fn watch_added(watched: Seq<Path>, path: Path) -> Seq<Path> {
    if watched.contains(path) {
        watched
    } else {
        watched.push(path)
    }
}

/// The subscribed paths after the subscription to `path` has ended.
pub open spec fn watch_removed(watched: Seq<Path>, path: Path) -> Seq<Path> {
    if watched.contains(path) {
        watched.remove(watched.index_of(path))
    } else {
        watched
    }
}

/// Whether `step` answers a read whose result is `expected`: the value
/// that was read, or the words of the failure that the read ends in, or
/// the report of a failure of the map underneath; where the schema refuses
/// the path, the words of that refusal.
pub open spec fn read_answered(
    refusal: Option<Failure>,
    expected: Result<Json, Failure>,
    step: Step,
) -> bool {
    &&& match step {
        Step::Respond(Reply::Value(value)) => expected == Ok::<Json, Failure>(value),
        Step::Respond(Reply::Error(text)) => reports_storage(text) || (expected matches Err(f)
            && text == failure_text(f)),
        _ => false,
    }
    &&& refusal matches Some(f) ==> step == Step::Respond(Reply::Error(failure_text(f)))
}

/// Whether `step` answers a mutation whose result is `expected`: null,
/// where the store holds what the mutation makes of it; or the words of the
/// failure that the mutation ends in, where the store is as it was; or the
/// report of a failure of the map underneath. Where the request is refused
/// before anything is read or written, the answer is the words of that
/// refusal.
pub open spec fn write_answered(
    refusal: Option<Failure>,
    expected: Result<Contents, Failure>,
    before: Contents,
    after: Contents,
    step: Step,
) -> bool {
    &&& match step {
        Step::Respond(Reply::Value(value)) => value == Json::Null && expected == Ok::<
            Contents,
            Failure,
        >(after),
        Step::Respond(Reply::Error(text)) => reports_storage(text) || (expected matches Err(f)
            && text == failure_text(f) && after == before),
        _ => false,
    }
    &&& refusal matches Some(f) ==> step == Step::Respond(Reply::Error(failure_text(f))) && after
        == before
}

/// What a session makes of a request. A request that is not permitted is
/// answered by the error `permissions` and changes nothing. A read or a
/// mutation is answered by one message. A subscription is answered by an
/// acknowledgement, where the session gives one, and starts a watch. The
/// end of a subscription is not answered and needs no permission.
pub open spec fn handled(
    watched: Seq<Path>,
    acknowledges: bool,
    before: Contents,
    root: SchemaItem,
    permitted: bool,
    msg: ClientMessage,
    watched_after: Seq<Path>,
    after: Contents,
    done: Seq<Step>,
) -> bool {
    match msg {
        ClientMessage::Unsubscribe(key) => {
            &&& after == before
            &&& watched_after == watch_removed(watched, key@)
            &&& done == if watched.contains(key@) {
                seq![Step::Cancel(key@)]
            } else {
                Seq::<Step>::empty()
            }
        },
        _ => if !permitted {
            &&& after == before
            &&& watched_after == watched
            &&& done == seq![Step::Respond(Reply::Error("permissions"@))]
        } else {
            match msg {
                ClientMessage::Get(key) => {
                    &&& after == before
                    &&& watched_after == watched
                    &&& done.len() == 1
                    &&& read_answered(
                        path_refusal(root, key@),
                        read_spec(before, root, key@),
                        done[0],
                    )
                },
                ClientMessage::Insert(key, val) => {
                    &&& watched_after == watched
                    &&& done.len() == 1
                    &&& write_answered(
                        insert_refused(root, key@, val),
                        insert_outcome(before, root, key@, val),
                        before,
                        after,
                        done[0],
                    )
                },
                ClientMessage::Update(key, val) => {
                    &&& watched_after == watched
                    &&& done.len() == 1
                    &&& write_answered(
                        update_refused(root, key@, val),
                        update_outcome(before, root, key@, val),
                        before,
                        after,
                        done[0],
                    )
                },
                ClientMessage::Remove(key) => {
                    &&& watched_after == watched
                    &&& done.len() == 1
                    &&& write_answered(
                        path_refusal(root, key@),
                        remove_outcome(before, root, key@),
                        before,
                        after,
                        done[0],
                    )
                },
                ClientMessage::Subscribe(key) => {
                    &&& after == before
                    &&& watched_after == watch_added(watched, key@)
                    &&& done == if acknowledges {
                        seq![Step::Respond(Reply::Value(Json::Null)), Step::Watch(key@)]
                    } else {
                        seq![Step::Watch(key@)]
                    }
                },
                ClientMessage::Unsubscribe(_) => true,
            }
        },
    }
}

/// The answer to a read: the value, or the words for the error.
pub fn reply_to_read(outcome: Result<Value, ServerError>) -> (msg: ServerMessage)
    ensures
        match outcome {
            Ok(value) => msg@ == Reply::Value(value@),
            Err(e) => msg matches ServerMessage::Error(text) && answers_failure(e, text@),
        },
{
    match outcome {
        Ok(value) => ServerMessage::Value(value),
        Err(e) => ServerMessage::Error(e.to_text()),
    }
}

/// The answer to a mutation: null, or the words for the error.
pub fn reply_to_write(outcome: Result<(), ServerError>) -> (msg: ServerMessage)
    ensures
        match outcome {
            Ok(()) => msg@ == Reply::Value(Json::Null),
            Err(e) => msg matches ServerMessage::Error(text) && answers_failure(e, text@),
        },
{
    match outcome {
        Ok(()) => ServerMessage::Value(Value::Null),
        Err(e) => ServerMessage::Error(e.to_text()),
    }
}

/// What a subscriber to `key` is sent for an item of the stream, and
/// whether the forwarding ends with it: for a key that was set, the string
/// it was set to; for a key that was removed, no string; for a value that
/// is not a string, or an item that is an error, the words for the error,
/// after which nothing more is forwarded.
pub fn subscription_update(key: &Ref, item: Result<PathEvent, ServerError>) -> (sent: (
    ServerMessage,
    bool,
))
    ensures
        sent.1 == (sent.0 is Error),
        match item {
            Ok(PathEvent::Insert { key: _, value }) => sent.0@ == if valid_utf8(value@) {
                Reply::SubscriptionUpdate(key@, Some(decode_utf8(value@)))
            } else {
                Reply::Error(failure_text(Failure::CorruptKey))
            },
            Ok(PathEvent::Remove { key: _ }) => sent.0@ == Reply::SubscriptionUpdate(key@, None),
            Err(e) => sent.0 matches ServerMessage::Error(text) && answers_failure(e, text@),
        },
{
    match item {
        Ok(PathEvent::Insert { key: _, value }) => match bytes_to_string(value) {
            Some(text) => (ServerMessage::SubscriptionUpdate(key.duplicate(), Some(text)), false),
            None => (ServerMessage::Error(ServerError::CorruptKey.to_text()), true),
        },
        Ok(PathEvent::Remove { key: _ }) => (
            ServerMessage::SubscriptionUpdate(key.duplicate(), None),
            false,
        ),
        Err(e) => (ServerMessage::Error(e.to_text()), true),
    }
}

/// One client's session.
pub struct Session {
    subscriptions: Vec<Ref>,
    acknowledge: bool,
}

impl Session {
    /// The paths that the client is subscribed to, in the order in which
    /// it subscribed.
    pub closed spec fn watched(&self) -> Seq<Path> {
        Seq::new(self.subscriptions@.len(), |i: int| self.subscriptions@[i]@)
    }

    /// Whether a subscription is answered by an acknowledgement.
    pub closed spec fn acknowledges(&self) -> bool {
        self.acknowledge
    }

    /// No path is listed twice.
    pub open spec fn wf(&self) -> bool {
        self.watched().no_duplicates()
    }

    /// A session without subscriptions.
    pub fn new(acknowledge: bool) -> (session: Session)
        ensures
            session.wf(),
            session.watched() == Seq::<Path>::empty(),
            session.acknowledges() == acknowledge,
    {
        let session = Session { subscriptions: Vec::new(), acknowledge };
        assert(session.watched() =~= Seq::<Path>::empty());
        session
    }

    /// Where `key` stands among the subscribed paths.
    fn position(&self, key: &Ref) -> (found: Option<usize>)
        ensures
            match found {
                Some(i) => i < self.watched().len() && self.watched()[i as int] == key@,
                None => !self.watched().contains(key@),
            },
    {
        let mut i: usize = 0;
        while i < self.subscriptions.len()
            invariant
                i <= self.subscriptions.len(),
                forall|j: int| 0 <= j < i ==> self.watched()[j] != key@,
            decreases self.subscriptions.len() - i,
        {
            if self.subscriptions[i].same(key) {
                return Some(i);
            }
            i = i + 1;
        }
        None
    }

    /// Decides what follows from one request. `permitted` is what the
    /// permission check has said of the request's operation on its path.
    pub fn handle(&mut self, server: &mut Server, permitted: bool, msg: ClientMessage) -> (actions:
        Vec<Action>)
        requires
            old(self).wf(),
        ensures
            final(self).wf(),
            final(self).acknowledges() == old(self).acknowledges(),
            final(server).root() == old(server).root(),
            handled(
                old(self).watched(),
                old(self).acknowledges(),
                old(server).contents(),
                old(server).root(),
                permitted,
                msg,
                final(self).watched(),
                final(server).contents(),
                steps(actions@),
            ),
    {
        let ghost watched = self.watched();
        match msg {
            ClientMessage::Unsubscribe(key) => {
                match self.position(&key) {
                    Some(i) => {
                        let _ = self.subscriptions.remove(i);
                        let actions = vec![Action::Cancel(key)];
                        proof {
                            crate::seqs::lemma_remove_distinct(watched, i as int);
                            assert(self.watched() =~= watched.remove(i as int));
                            assert(steps(actions@) =~= seq![Step::Cancel(key@)]);
                        }
                        actions
                    },
                    None => {
                        let actions: Vec<Action> = Vec::new();
                        proof {
                            assert(steps(actions@) =~= Seq::<Step>::empty());
                        }
                        actions
                    },
                }
            },
            msg => {
                if !permitted {
                    let actions = vec![
                        Action::Respond(ServerMessage::Error(String::from_str("permissions"))),
                    ];
                    proof {
                        assert(steps(actions@) =~= seq![
                            Step::Respond(Reply::Error("permissions"@)),
                        ]);
                    }
                    return actions;
                }
                match msg {
                    ClientMessage::Get(key) => {
                        let actions = vec![Action::Respond(reply_to_read(server.get(&key)))];
                        actions
                    },
                    ClientMessage::Insert(key, val) => {
                        let actions = vec![
                            Action::Respond(reply_to_write(server.insert(&key, val))),
                        ];
                        actions
                    },
                    ClientMessage::Update(key, val) => {
                        let actions = vec![
                            Action::Respond(reply_to_write(server.update(&key, val))),
                        ];
                        actions
                    },
                    ClientMessage::Remove(key) => {
                        let actions = vec![Action::Respond(reply_to_write(server.remove(&key)))];
                        actions
                    },
                    ClientMessage::Subscribe(key) => {
                        if self.position(&key).is_none() {
                            self.subscriptions.push(key.duplicate());
                            proof {
                                assert(self.watched() =~= watched.push(key@));
                            }
                        }
                        if self.acknowledge {
                            let actions = vec![
                                Action::Respond(ServerMessage::Value(Value::Null)),
                                Action::Watch(key),
                            ];
                            proof {
                                assert(steps(actions@) =~= seq![
                                    Step::Respond(Reply::Value(Json::Null)),
                                    Step::Watch(key@),
                                ]);
                            }
                            actions
                        } else {
                            let actions = vec![Action::Watch(key)];
                            proof {
                                assert(steps(actions@) =~= seq![Step::Watch(key@)]);
                            }
                            actions
                        }
                    },
                    ClientMessage::Unsubscribe(_) => Vec::new(),
                }
            },
        }
    }

    /// Ends the session: every subscription is to be cancelled, in the
    /// order in which the client subscribed.
    pub fn close(&mut self) -> (actions: Vec<Action>)
        ensures
            final(self).watched() == Seq::<Path>::empty(),
            final(self).wf(),
            final(self).acknowledges() == old(self).acknowledges(),
            steps(actions@) == Seq::new(
                old(self).watched().len(),
                |i: int| Step::Cancel(old(self).watched()[i]),
            ),
    {
        let ghost watched = self.watched();
        let mut actions: Vec<Action> = Vec::new();
        let mut i: usize = 0;
        while i < self.subscriptions.len()
            invariant
                i <= self.subscriptions.len(),
                self.watched() == watched,
                self.acknowledges() == old(self).acknowledges(),
                steps(actions@) == Seq::new(i as nat, |j: int| Step::Cancel(watched[j])),
            decreases self.subscriptions.len() - i,
        {
            let ghost before = steps(actions@);
            actions.push(Action::Cancel(self.subscriptions[i].duplicate()));
            proof {
                assert(steps(actions@) =~= before.push(Step::Cancel(watched[i as int])));
                assert(steps(actions@) =~= Seq::new(
                    (i + 1) as nat,
                    |j: int| Step::Cancel(watched[j]),
                ));
            }
            i = i + 1;
        }
        self.subscriptions = Vec::new();
        proof {
            assert(self.watched() =~= Seq::<Path>::empty());
        }
        actions
    }
}

} // verus!
