//! The store: reads, and the mutations that each run as one transaction.

use crate::codec::{
    bytes_to_string, decode_path, encode_path, is_ancestor, lemma_ancestor_iff_key_prefix,
    path_fits,
};
use crate::error::{ServerError, TxError};
use crate::index::read_members;
use crate::message::Ref;
use crate::model::{
    get_fields, get_members, get_spec, insert_outcome, insert_refused, lemma_get_fields_stops,
    lemma_get_members_stops, path_refusal, read_spec, remove_outcome, update_outcome,
    update_refused, Contents, Failure,
};
use crate::schema::{Schema, SchemaItem};
use crate::store::{
    db_contains, db_contents, db_read, next_change, open_db, watch_prefix, watched_prefix,
    RawEvent, TransactionHandler,
};
use crate::transaction::{command_outcome, refused_outright, Command};
use crate::value::{lemma_record_push, record_model, Json, Value};
use vstd::prelude::*;

verus! {

/// `Tree::transaction` of sled, with one mutation as the transaction's body.
/// The body is [`TransactionHandler::apply`]; what it makes of the map that
/// it sees is proved there. Taken on trust of sled is the rest: the body
/// sees the map as the database holds it when the transaction begins; where
/// the body goes through, what it wrote is committed as a whole and the
/// database holds what the body saw at its end; where the body refuses the
/// request, nothing is written and its error comes back. A body that
/// refuses before it reads or writes has made no call that can fail, and
/// sled hands its refusal back. Where the map underneath fails, nothing is
/// claimed.
#[verifier::external_body]
fn transact(db: &mut sled::Db, schema: &Schema, command: &Command) -> (r: Result<(), ServerError>)
    ensures
        match r {
            Ok(()) => command_outcome(db_contents(*old(db)), schema.root(), *command) == Ok::<
                Contents,
                Failure,
            >(db_contents(*final(db))),
            Err(ServerError::SledError(_)) => true,
            Err(e) => command_outcome(db_contents(*old(db)), schema.root(), *command) == Err::<
                Contents,
                Failure,
            >(e@) && db_contents(*final(db)) == db_contents(*old(db)),
        },
        turned_down(
            refused_outright(schema.root(), *command),
            r,
            db_contents(*old(db)),
            db_contents(*final(db)),
        ),
{
    let outcome = db.transaction(|tree| {
        let mut handler = TransactionHandler { store: tree, schema };
        handler.apply(command).map_err(|e| match e {
            TxError::Abort(e) => sled::transaction::ConflictableTransactionError::Abort(e),
            TxError::Store(e) => e.into(),
        })
    });
    match outcome {
        Ok(()) => Ok(()),
        Err(sled::transaction::TransactionError::Abort(e)) => Err(e),
        Err(sled::transaction::TransactionError::Storage(e)) => Err(ServerError::SledError(e)),
    }
}

/// A change of one key, with the key read back as a path.
#[derive(Debug)]
pub enum PathEvent {
    /// A key has been set to a value.
    Insert {
        /// The path whose key has been set.
        key: Ref,
        /// The value that it has been set to.
        value: Vec<u8>,
    },
    /// A key has been removed.
    Remove {
        /// The path whose key has been removed.
        key: Ref,
    },
}

impl PathEvent {
    /// The path whose key was changed.
    pub open spec fn path(self) -> Seq<Seq<char>> {
        match self {
            PathEvent::Insert { key, value } => key@,
            PathEvent::Remove { key } => key@,
        }
    }
}

/// Whether `r` is what the change `raw` is as an event: the same change,
/// with the key read back as a path; `CorruptKey` where the key spells no
/// path.
pub open spec fn projects_to(raw: RawEvent, r: Result<PathEvent, ServerError>) -> bool {
    match raw {
        RawEvent::Insert { key, value } => match decode_path(key@) {
            Some(path) => r matches Ok(PathEvent::Insert { key: k, value: v }) && k@ == path && v
                == value,
            None => r matches Err(ServerError::CorruptKey),
        },
        RawEvent::Remove { key } => match decode_path(key@) {
            Some(path) => r matches Ok(PathEvent::Remove { key: k }) && k@ == path,
            None => r matches Err(ServerError::CorruptKey),
        },
    }
}

/// Reads a change of a key as an event. The path of the event has the
/// changed key.
pub fn project_event(raw: RawEvent) -> (r: Result<PathEvent, ServerError>)
    ensures
        projects_to(raw, r),
        r matches Ok(event) ==> encode_path(event.path()) == raw.key() && path_fits(event.path()),
{
    match raw {
        RawEvent::Insert { key, value } => match crate::codec::decode_components(key.as_slice()) {
            Ok(path) => Ok(PathEvent::Insert { key: Ref(path), value }),
            Err(_) => Err(ServerError::CorruptKey),
        },
        RawEvent::Remove { key } => match crate::codec::decode_components(key.as_slice()) {
            Ok(path) => Ok(PathEvent::Remove { key: Ref(path) }),
            Err(_) => Err(ServerError::CorruptKey),
        },
    }
}

/// The changes at or below one path, as events. After an event that cannot
/// be read the stream has ended.
pub struct SubscriptionStream {
    sub: sled::Subscriber,
    key: Ref,
    ended: bool,
}

impl SubscriptionStream {
    /// The path that was subscribed to.
    pub closed spec fn path(&self) -> Seq<Seq<char>> {
        self.key@
    }

    /// Whether the stream has ended.
    pub closed spec fn has_ended(&self) -> bool {
        self.ended
    }

    /// The prefix of the keys whose changes the stream is told of.
    pub closed spec fn watches(&self) -> Seq<u8> {
        watched_prefix(self.sub)
    }

    /// The stream is told of the changes of the keys that begin with the
    /// key of its path.
    pub open spec fn wf(&self) -> bool {
        self.watches() == encode_path(self.path()) && path_fits(self.path())
    }

    /// The path that was subscribed to.
    pub fn key(&self) -> (key: &Ref)
        ensures
            key@ == self.path(),
    {
        &self.key
    }

    /// Whether the stream has ended.
    pub fn ended(&self) -> (ended: bool)
        ensures
            ended == self.has_ended(),
    {
        self.ended
    }

    /// The subscriber underneath, for a caller that waits for its changes
    /// in its own way and hands them to [`SubscriptionStream::project`].
    pub fn subscriber(&mut self) -> (sub: &mut sled::Subscriber)
        ensures
            final(self).path() == old(self).path(),
            final(self).has_ended() == old(self).has_ended(),
    {
        &mut self.sub
    }

    /// What the stream gives for the next change reported from underneath:
    /// nothing once it has ended or where there is no change; else the
    /// change as an event, and where that fails the error, once, as the
    /// stream's last item.
    pub fn project(&mut self, raw: Option<RawEvent>) -> (r: Option<Result<PathEvent, ServerError>>)
        ensures
            final(self).path() == old(self).path(),
            final(self).watches() == old(self).watches(),
            old(self).has_ended() || raw is None ==> r is None && final(self).has_ended(),
            !old(self).has_ended() && raw is Some ==> r is Some && projects_to(
                raw->Some_0,
                r->Some_0,
            ) && final(self).has_ended() == (r->Some_0 is Err),
            r matches Some(Ok(event)) ==> encode_path(event.path()) == raw->Some_0.key()
                && path_fits(event.path()),
    {
        if self.ended {
            return None;
        }
        match raw {
            None => {
                self.ended = true;
                None
            },
            Some(raw) => {
                let event = project_event(raw);
                if event.is_err() {
                    self.ended = true;
                }
                Some(event)
            },
        }
    }

    /// Waits for the next change at or below the subscribed path and gives
    /// it as an event; nothing once the stream has ended. An event is of a
    /// path at or below the subscribed one.
    pub fn next_event(&mut self) -> (r: Option<Result<PathEvent, ServerError>>)
        ensures
            final(self).path() == old(self).path(),
            final(self).watches() == old(self).watches(),
            old(self).has_ended() ==> r is None,
            r is None ==> final(self).has_ended(),
            r matches Some(Err(_)) ==> final(self).has_ended(),
            r matches Some(Ok(_)) ==> !final(self).has_ended(),
            r matches Some(Ok(event)) ==> old(self).watches().is_prefix_of(
                encode_path(event.path()),
            ),
            old(self).wf() ==> (r matches Some(Ok(event)) ==> is_ancestor(
                old(self).path(),
                event.path(),
            )),
    {
        if self.ended {
            return None;
        }
        let raw = next_change(&mut self.sub);
        let r = self.project(raw);
        proof {
            if old(self).wf() && r is Some && r->Some_0 is Ok {
                lemma_ancestor_iff_key_prefix(old(self).path(), r->Some_0->Ok_0.path());
            }
        }
        r
    }
}

/// Whether a request was refused as `refusal` says, where it says so, and
/// left the store as it was.
pub open spec fn turned_down<T>(
    refusal: Option<Failure>,
    r: Result<T, ServerError>,
    before: Contents,
    after: Contents,
) -> bool {
    refusal matches Some(f) ==> (r matches Err(e) && !(e is SledError) && e@ == f) && after
        == before
}

/// A store: a map of keys on disk, read and written under a schema. The
/// store is the only writer of its map.
pub struct Server {
    store: sled::Db,
    schema: Schema,
}

impl Server {
    /// The map that the store holds.
    pub closed spec fn contents(&self) -> Contents {
        db_contents(self.store)
    }

    /// The root of the store's schema.
    pub closed spec fn root(&self) -> SchemaItem {
        self.schema.root()
    }

    /// A store over a map that is already open. From here on the store is
    /// to be the only writer of the map.
    pub fn with_store(store: sled::Db, schema: Schema) -> (server: Server)
        ensures
            server.root() == schema.root(),
            server.contents() == db_contents(store),
    {
        Server { store, schema }
    }

    /// Opens the store in the directory `path` under `schema`.
    pub fn open(path: &str, schema: Schema) -> (r: Result<Server, ServerError>)
        ensures
            r matches Ok(server) ==> server.root() == schema.root(),
            r matches Err(e) ==> e is SledError,
    {
        match open_db(path) {
            Ok(store) => Ok(Server { store, schema }),
            Err(e) => Err(ServerError::SledError(e)),
        }
    }

    /// Writes `val` at `key`, which must be a document or a collection, as
    /// one transaction: all of it or, where any part is refused, nothing.
    pub fn insert(&mut self, key: &Ref, val: Value) -> (r: Result<(), ServerError>)
        ensures
            final(self).root() == old(self).root(),
            match r {
                Ok(()) => insert_outcome(old(self).contents(), old(self).root(), key@, val) == Ok::<
                    Contents,
                    Failure,
                >(final(self).contents()),
                Err(ServerError::SledError(_)) => true,
                Err(e) => insert_outcome(old(self).contents(), old(self).root(), key@, val) == Err::<
                    Contents,
                    Failure,
                >(e@) && final(self).contents() == old(self).contents(),
            },
            turned_down(
                insert_refused(old(self).root(), key@, val),
                r,
                old(self).contents(),
                final(self).contents(),
            ),
    {
        match self.schema.resolve(key.0.as_slice()) {
            Err(e) => {
                return Err(ServerError::SchemaError(e));
            },
            Ok(SchemaItem::Scalar) => {
                return Err(ServerError::NonDocumentInsert);
            },
            Ok(_) => {},
        }
        transact(&mut self.store, &self.schema, &Command::Insert(key, &val))
    }

    /// Replaces what `key` holds by `val`, as one transaction. The key of
    /// `key` must be present.
    pub fn update(&mut self, key: &Ref, val: Value) -> (r: Result<(), ServerError>)
        ensures
            final(self).root() == old(self).root(),
            match r {
                Ok(()) => update_outcome(old(self).contents(), old(self).root(), key@, val) == Ok::<
                    Contents,
                    Failure,
                >(final(self).contents()),
                Err(ServerError::SledError(_)) => true,
                Err(e) => update_outcome(old(self).contents(), old(self).root(), key@, val) == Err::<
                    Contents,
                    Failure,
                >(e@) && final(self).contents() == old(self).contents(),
            },
            turned_down(
                update_refused(old(self).root(), key@, val),
                r,
                old(self).contents(),
                final(self).contents(),
            ),
    {
        match self.schema.resolve(key.0.as_slice()) {
            Err(e) => {
                return Err(ServerError::SchemaError(e));
            },
            Ok(_) => {},
        }
        transact(&mut self.store, &self.schema, &Command::Update(key, &val))
    }

    /// Removes `key` and all below it, as one transaction.
    pub fn remove(&mut self, key: &Ref) -> (r: Result<(), ServerError>)
        ensures
            final(self).root() == old(self).root(),
            match r {
                Ok(()) => remove_outcome(old(self).contents(), old(self).root(), key@) == Ok::<
                    Contents,
                    Failure,
                >(final(self).contents()),
                Err(ServerError::SledError(_)) => true,
                Err(e) => remove_outcome(old(self).contents(), old(self).root(), key@) == Err::<
                    Contents,
                    Failure,
                >(e@) && final(self).contents() == old(self).contents(),
            },
            turned_down(
                path_refusal(old(self).root(), key@),
                r,
                old(self).contents(),
                final(self).contents(),
            ),
    {
        match self.schema.resolve(key.0.as_slice()) {
            Err(e) => {
                return Err(ServerError::SchemaError(e));
            },
            Ok(_) => {},
        }
        transact(&mut self.store, &self.schema, &Command::Remove(key))
    }

    /// Subscribes to the changes of every key that begins with the key of
    /// `key`: those of the paths at or below `key`.
    pub fn subscribe(&self, key: &Ref) -> (stream: SubscriptionStream)
        ensures
            stream.path() == key@,
            !stream.has_ended(),
            stream.watches() == encode_path(key@),
            stream.wf(),
    {
        let encoded_ref = self.schema.encode_ref(key.0.as_slice());
        SubscriptionStream {
            sub: watch_prefix(&self.store, encoded_ref.as_slice()),
            key: key.duplicate(),
            ended: false,
        }
    }

    /// The schema of the store.
    pub fn schema(&self) -> (schema: &Schema)
        ensures
            schema.root() == self.root(),
    {
        &self.schema
    }

    /// Reads the value at `key`: a string at a scalar, a record of all
    /// declared fields at an initialised document and null at any other, a
    /// record of all members at a collection.
    pub fn get(&self, key: &Ref) -> (r: Result<Value, ServerError>)
        ensures
            match r {
                Ok(value) => read_spec(self.contents(), self.root(), key@) == Ok::<Json, Failure>(
                    value@,
                ),
                Err(e) => e is SledError || read_spec(self.contents(), self.root(), key@) == Err::<
                    Json,
                    Failure,
                >(e@),
            },
            turned_down(path_refusal(self.root(), key@), r, self.contents(), self.contents()),
            r matches Ok(value) ==> (self.root().wf() ==> value.wf()),
    {
        match self.schema.resolve(key.0.as_slice()) {
            Err(e) => Err(ServerError::SchemaError(e)),
            Ok(item) => {
                proof {
                    if self.root().wf() {
                        crate::schema::lemma_resolve_wf(self.root(), key@);
                    }
                }
                self.get_at(key, item)
            },
        }
    }

    /// The bytes stored under the key of `key`, if there are any.
    pub fn stored_at(&self, key: &Ref) -> (r: Result<Option<Vec<u8>>, ServerError>)
        ensures
            match r {
                Ok(value) => crate::store::bytes_view(value) == crate::store::lookup(
                    self.contents(),
                    crate::codec::encode_path(key@),
                ),
                Err(e) => e is SledError,
            },
    {
        let encoded_ref = self.schema.encode_ref(key.0.as_slice());
        match db_read(&self.store, encoded_ref.as_slice()) {
            Ok(value) => Ok(value),
            Err(e) => Err(ServerError::SledError(e)),
        }
    }

    /// Reads the value at `key`, which `item` governs.
    #[verifier::loop_isolation(false)]
    pub fn get_at(&self, key: &Ref, item: &SchemaItem) -> (r: Result<Value, ServerError>)
        ensures
            match r {
                Ok(value) => get_spec(self.contents(), *item, key@) == Ok::<Json, Failure>(value@),
                Err(e) => e is SledError || get_spec(self.contents(), *item, key@) == Err::<
                    Json,
                    Failure,
                >(e@),
            },
            r matches Ok(value) ==> (item.wf() ==> value.wf()),
        decreases *item,
    {
        let encoded_ref = self.schema.encode_ref(key.0.as_slice());
        match item {
            SchemaItem::Collection(inner) => {
                let found = match db_read(&self.store, encoded_ref.as_slice()) {
                    Err(e) => {
                        return Err(ServerError::SledError(e));
                    },
                    Ok(found) => found,
                };
                let bytes = match found {
                    None => {
                        let entries: Vec<(String, Value)> = Vec::new();
                        return Ok(Value::Object(entries));
                    },
                    Some(bytes) => bytes,
                };
                let names = match read_members(bytes.as_slice()) {
                    None => {
                        return Err(ServerError::CorruptKey);
                    },
                    Some(names) => names,
                };
                let mut result: Vec<(String, Value)> = Vec::new();
                let mut i: usize = 0;
                while i < names.len()
                    invariant
                        i <= names.len(),
                        *item == SchemaItem::Collection(*inner),
                        get_members(
                            self.contents(),
                            **inner,
                            key@,
                            crate::codec::names_of(names@),
                            i as nat,
                        ) == Ok::<Map<Seq<char>, Json>, Failure>(record_model(result@)),
                        result@.len() == i,
                        forall|t: int|
                            0 <= t < i ==> (#[trigger] result@[t]).0@ == names@[t]@ && (item.wf()
                                ==> result@[t].1.wf()),
                    decreases names.len() - i,
                {
                    let sub_key = key.child(&names[i]);
                    match self.get_at(&sub_key, inner) {
                        Err(e) => {
                            proof {
                                if !(e is SledError) {
                                    lemma_get_members_stops(
                                        self.contents(),
                                        **inner,
                                        key@,
                                        crate::codec::names_of(names@),
                                        (i + 1) as nat,
                                        names@.len() as nat,
                                    );
                                }
                            }
                            return Err(e);
                        },
                        Ok(sub_value) => {
                            proof {
                                lemma_record_push(result@, (names@[i as int], sub_value));
                            }
                            result.push((names[i].clone(), sub_value));
                        },
                    }
                    i = i + 1;
                }
                let count = result.len();
                proof {
                    crate::membership::lemma_members_fit(bytes@);
                    let listed = crate::codec::names_of(names@);
                    assert forall|a: int, b: int| 0 <= a < b < result@.len() implies (
                    #[trigger] result@[a]).0@ != (#[trigger] result@[b]).0@ by {
                        assert(listed[a] != listed[b]);
                    }
                    assert forall|t: int| 0 <= t < result@.len() implies crate::codec::name_fits(
                        (#[trigger] result@[t]).0@,
                    ) by {
                        assert(crate::codec::name_fits(listed[t]));
                    }
                }
                Ok(Value::Object(result))
            },
            SchemaItem::Document(fields) => {
                match db_contains(&self.store, encoded_ref.as_slice()) {
                    Err(e) => {
                        return Err(ServerError::SledError(e));
                    },
                    Ok(found) => {
                        if !found {
                            return Ok(Value::Null);
                        }
                    },
                }
                let mut values: Vec<(String, Value)> = Vec::new();
                let mut i: usize = 0;
                while i < fields.len()
                    invariant
                        i <= fields.len(),
                        *item == SchemaItem::Document(*fields),
                        get_fields(self.contents(), fields@, key@, i as nat) == Ok::<
                            Map<Seq<char>, Json>,
                            Failure,
                        >(record_model(values@)),
                        item.wf() ==> forall|t: int|
                            0 <= t < values@.len() ==> (#[trigger] values@[t]).1.wf() && exists|
                                f: int,
                            |
                                0 <= f < i && fields@[f].0@ == values@[t].0@,
                        item.wf() ==> crate::value::distinct_keys(values@),
                    decreases fields.len() - i,
                {
                    let ghost earlier = values@;
                    let sub_key = key.child(&fields[i].0);
                    match self.get_at(&sub_key, &fields[i].1) {
                        Err(e) => {
                            let absent = match (&fields[i].1, &e) {
                                (SchemaItem::Scalar, ServerError::KeyNotFound) => true,
                                _ => false,
                            };
                            if !absent {
                                proof {
                                    if !(e is SledError) {
                                        lemma_get_fields_stops(
                                            self.contents(),
                                            fields@,
                                            key@,
                                            (i + 1) as nat,
                                            fields@.len() as nat,
                                        );
                                    }
                                }
                                return Err(e);
                            }
                        },
                        Ok(sub_value) => {
                            proof {
                                lemma_record_push(values@, (fields@[i as int].0, sub_value));
                            }
                            values.push((fields[i].0.clone(), sub_value));
                            proof {
                                if item.wf() {
                                    assert forall|t: int| 0 <= t < values@.len() implies (
                                    #[trigger] values@[t]).1.wf() && exists|f: int|
                                        0 <= f < i + 1 && fields@[f].0@ == values@[t].0@ by {
                                        if t < earlier.len() {
                                            assert(values@[t] == earlier[t]);
                                            let f = choose|f: int|
                                                0 <= f < i && fields@[f].0@ == earlier[t].0@;
                                            assert(0 <= f < i + 1 && fields@[f].0@
                                                == values@[t].0@);
                                        } else {
                                            assert(fields@[i as int].0@ == values@[t].0@);
                                        }
                                    }
                                    assert forall|a: int, b: int|
                                        0 <= a < b < values@.len() implies (
                                    #[trigger] values@[a]).0@ != (#[trigger] values@[b]).0@ by {
                                        assert(values@[a] == earlier[a]);
                                        if b < earlier.len() {
                                            assert(values@[b] == earlier[b]);
                                        } else {
                                            let f = choose|f: int|
                                                0 <= f < i && fields@[f].0@ == earlier[a].0@;
                                            assert(fields@[f].0@ != fields@[i as int].0@);
                                        }
                                    }
                                }
                            }
                        },
                    }
                    i = i + 1;
                }
                let count = values.len();
                proof {
                    if item.wf() {
                        assert forall|t: int| 0 <= t < values@.len() implies crate::codec::name_fits(
                            (#[trigger] values@[t]).0@,
                        ) by {
                            let f = choose|f: int|
                                0 <= f < fields@.len() && fields@[f].0@ == values@[t].0@;
                            assert(crate::codec::name_fits(fields@[f].0@));
                        }
                    }
                }
                Ok(Value::Object(values))
            },
            SchemaItem::Scalar => {
                match db_read(&self.store, encoded_ref.as_slice()) {
                    Err(e) => Err(ServerError::SledError(e)),
                    Ok(None) => Err(ServerError::KeyNotFound),
                    Ok(Some(bytes)) => match bytes_to_string(bytes) {
                        Some(text) => Ok(Value::String(text)),
                        None => Err(ServerError::CorruptKey),
                    },
                }
            },
        }
    }
}

} // verus!
