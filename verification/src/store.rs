//! The ordered byte-keyed map underneath the store, and what is taken on
//! trust about it.

use crate::schema::Schema;
use vstd::prelude::*;

verus! {

/// `sled::Db`: the handle of an open database. What it holds is spoken of
/// through [`db_contents`].
#[verifier::external_type_specification]
#[verifier::external_body]
pub struct ExDb(sled::Db);

/// `sled::transaction::TransactionalTree`: what the body of a transaction
/// reads and writes. What it shows is spoken of through [`tree_contents`].
#[verifier::external_type_specification]
#[verifier::external_body]
pub struct ExTransactionalTree(sled::transaction::TransactionalTree);

/// `sled::Error`: a failure of the database. Nothing is read from it.
#[verifier::external_type_specification]
#[verifier::external_body]
pub struct ExSledError(sled::Error);

/// `sled::transaction::UnabortableTransactionError`: a failure of a read
/// or a write inside a transaction. Nothing is read from it.
#[verifier::external_type_specification]
#[verifier::external_body]
pub struct ExUnabortableTransactionError(sled::transaction::UnabortableTransactionError);

/// `sled::Event`: a change that a subscriber is told of.
#[verifier::external_type_specification]
#[verifier::external_body]
pub struct ExEvent(sled::Event);

/// `sled::Subscriber`: the receiving end of a watch on a prefix of keys.
#[verifier::external_type_specification]
#[verifier::external_body]
pub struct ExSubscriber(sled::Subscriber);

/// The keys that a database holds, each with its value. A handle stands
/// for what it holds only as long as nothing else writes to the database.
pub uninterp spec fn db_contents(db: sled::Db) -> Map<Seq<u8>, Seq<u8>>;

/// The keys that a transaction sees, each with its value: those of the
/// database when the transaction began, changed by the transaction's own
/// writes.
pub uninterp spec fn tree_contents(tree: sled::transaction::TransactionalTree) -> Map<
    Seq<u8>,
    Seq<u8>,
>;

/// The value under `key`, if the map holds one.
pub open spec fn lookup(contents: Map<Seq<u8>, Seq<u8>>, key: Seq<u8>) -> Option<Seq<u8>> {
    if contents.dom().contains(key) {
        Some(contents[key])
    } else {
        None
    }
}

/// The plain form of an optional byte string.
pub open spec fn bytes_view(value: Option<Vec<u8>>) -> Option<Seq<u8>> {
    match value {
        Some(v) => Some(v@),
        None => None,
    }
}

/// One transaction on the store: what it sees of the map, and the schema.
pub struct TransactionHandler<'a> {
    pub(crate) store: &'a sled::transaction::TransactionalTree,
    pub(crate) schema: &'a Schema,
}

impl<'a> TransactionHandler<'a> {
    /// What the transaction sees of the map.
    pub closed spec fn contents(&self) -> Map<Seq<u8>, Seq<u8>> {
        tree_contents(*self.store)
    }

    /// The root of the schema that the transaction works under.
    pub closed spec fn root(&self) -> crate::schema::SchemaItem {
        self.schema.root()
    }

    /// The schema that the transaction works under.
    pub fn schema(&self) -> (schema: &'a Schema)
        ensures
            schema.root() == self.root(),
    {
        self.schema
    }

    /// `TransactionalTree::get` of sled: where it succeeds, it gives the
    /// value that the transaction sees under `key`, and changes nothing that
    /// the transaction sees.
    #[verifier::external_body]
    fn read(&self, key: &[u8]) -> (r: Result<
        Option<Vec<u8>>,
        sled::transaction::UnabortableTransactionError,
    >)
        ensures
            r matches Ok(value) ==> bytes_view(value) == lookup(tree_contents(*self.store), key@),
    {
        self.store.get(key).map(|found| found.map(|value| value.to_vec()))
    }

    /// `TransactionalTree::insert` of sled: where it succeeds, the
    /// transaction sees `value` under `key` and every other key as before.
    #[verifier::external_body]
    fn write(&mut self, key: &[u8], value: &[u8]) -> (r: Result<
        (),
        sled::transaction::UnabortableTransactionError,
    >)
        ensures
            final(self).schema == old(self).schema,
            r is Ok ==> tree_contents(*final(self).store) == tree_contents(*old(self).store).insert(
                key@,
                value@,
            ),
    {
        self.store.insert(key, value).map(|_| ())
    }

    /// `TransactionalTree::remove` of sled: where it succeeds, the
    /// transaction sees nothing under `key` and every other key as before.
    #[verifier::external_body]
    fn delete(&mut self, key: &[u8]) -> (r: Result<
        (),
        sled::transaction::UnabortableTransactionError,
    >)
        ensures
            final(self).schema == old(self).schema,
            r is Ok ==> tree_contents(*final(self).store) == tree_contents(*old(self).store).remove(
                key@,
            ),
    {
        self.store.remove(key).map(|_| ())
    }

    /// The value that the transaction sees under `key`.
    pub fn get(&self, key: &[u8]) -> (r: Result<
        Option<Vec<u8>>,
        sled::transaction::UnabortableTransactionError,
    >)
        ensures
            r matches Ok(value) ==> bytes_view(value) == lookup(self.contents(), key@),
    {
        self.read(key)
    }

    /// Sets `key` to `value` in what the transaction sees.
    pub fn put(&mut self, key: &[u8], value: &[u8]) -> (r: Result<
        (),
        sled::transaction::UnabortableTransactionError,
    >)
        ensures
            final(self).root() == old(self).root(),
            r is Ok ==> final(self).contents() == old(self).contents().insert(key@, value@),
    {
        self.write(key, value)
    }

    /// Takes `key` out of what the transaction sees.
    pub fn erase(&mut self, key: &[u8]) -> (r: Result<
        (),
        sled::transaction::UnabortableTransactionError,
    >)
        ensures
            final(self).root() == old(self).root(),
            r is Ok ==> final(self).contents() == old(self).contents().remove(key@),
    {
        self.delete(key)
    }
}

/// `Tree::get` of sled, through the database handle: where it succeeds, it
/// gives the value that the database holds under `key`.
#[verifier::external_body]
pub(crate) fn db_read(db: &sled::Db, key: &[u8]) -> (r: Result<Option<Vec<u8>>, sled::Error>)
    ensures
        r matches Ok(value) ==> bytes_view(value) == lookup(db_contents(*db), key@),
{
    db.get(key).map(|found| found.map(|value| value.to_vec()))
}

/// `Tree::contains_key` of sled: where it succeeds, it says whether the
/// database holds `key`.
#[verifier::external_body]
pub(crate) fn db_contains(db: &sled::Db, key: &[u8]) -> (r: Result<bool, sled::Error>)
    ensures
        r matches Ok(found) ==> found == db_contents(*db).dom().contains(key@),
{
    db.contains_key(key)
}

/// `sled::open`: opens the database in the directory `path`, creating it
/// where there is none. Nothing is claimed of what it holds.
#[verifier::external_body]
pub(crate) fn open_db(path: &str) -> (r: Result<sled::Db, sled::Error>) {
    sled::open(path)
}

/// The prefix with which a subscriber was registered: it is told of the
/// changes of the keys that begin with it, and of no others.
pub uninterp spec fn watched_prefix(sub: sled::Subscriber) -> Seq<u8>;

/// `Tree::watch_prefix` of sled: a subscriber that is registered with
/// `prefix`. The database stays as it is.
#[verifier::external_body]
pub(crate) fn watch_prefix(db: &sled::Db, prefix: &[u8]) -> (sub: sled::Subscriber)
    ensures
        watched_prefix(sub) == prefix@,
{
    db.watch_prefix(prefix)
}

/// A change of one key, as the map underneath reports it.
pub enum RawEvent {
    /// A key has been set to a value.
    Insert { key: Vec<u8>, value: Vec<u8> },
    /// A key has been removed.
    Remove { key: Vec<u8> },
}

impl RawEvent {
    /// The key that was changed.
    pub open spec fn key(self) -> Seq<u8> {
        match self {
            RawEvent::Insert { key, value } => key@,
            RawEvent::Remove { key } => key@,
        }
    }
}

/// `Subscriber::next` of sled, through its `Iterator` impl: waits for the
/// next change that the subscriber is told of and gives it, or nothing once
/// the database is gone. The subscriber stays registered with its prefix,
/// and the key of the change begins with that prefix: sled hands a change
/// to the subscribers whose prefix the changed key starts with.
#[verifier::external_body]
pub(crate) fn next_change(sub: &mut sled::Subscriber) -> (r: Option<RawEvent>)
    ensures
        watched_prefix(*final(sub)) == watched_prefix(*old(sub)),
        r matches Some(event) ==> watched_prefix(*old(sub)).is_prefix_of(event.key()),
{
    sub.next().map(|event| match event {
        sled::Event::Insert { key, value } => RawEvent::Insert {
            key: key.to_vec(),
            value: value.to_vec(),
        },
        sled::Event::Remove { key } => RawEvent::Remove { key: key.to_vec() },
    })
}

} // verus!
