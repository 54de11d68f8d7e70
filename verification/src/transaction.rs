//! The steps of a mutation, run inside one transaction: each checks the
//! value against the schema, writes the keys, and keeps the membership of
//! collections.

use crate::codec::{names_of, string_bytes};
use crate::error::{ServerError, TxError};
use crate::index::{contains_name, read_members, remove_name, write_members};
use crate::message::Ref;
use crate::model::{
    insert_entries, insert_members, insert_outcome, insert_spec, lemma_insert_entries_stops,
    lemma_insert_members_stops, lemma_remove_fields_stops, lemma_remove_members_stops,
    lemma_update_entries_stops, lemma_update_members_stops, link_spec, missing_field,
    insert_refusal, insert_refused, path_refusal, remove_fields, remove_members, remove_outcome, remove_spec,
    touches_parent, undeclared_key, unlink_spec, update_entries, update_members, update_outcome,
    update_refused, update_refused_outright, update_spec, without, write_refused_outright, Contents, Failure,
};
use crate::schema::resolve_spec;
use crate::schema::{declares, lemma_field_index, SchemaItem};
use crate::store::TransactionHandler;
use crate::value::{has_key, Value};
use vstd::prelude::*;
use vstd::slice::slice_subrange;

verus! {

/// A mutation of the store.
pub enum Command<'a> {
    /// Write a value at a document or a collection.
    Insert(&'a Ref, &'a Value),
    /// Replace what a path holds.
    Update(&'a Ref, &'a Value),
    /// Remove a path and all below it.
    Remove(&'a Ref),
}

/// The map after a mutation.
pub open spec fn command_outcome(m: Contents, root: SchemaItem, command: Command) -> Result<
    Contents,
    Failure,
> {
    match command {
        Command::Insert(key, val) => insert_outcome(m, root, key@, *val),
        Command::Update(key, val) => update_outcome(m, root, key@, *val),
        Command::Remove(key) => remove_outcome(m, root, key@),
    }
}

/// The refusal of a mutation that is decided before anything is read or
/// written: by the schema alone, or by the kind and the names of the value.
pub open spec fn refused_outright(root: SchemaItem, command: Command) -> Option<Failure> {
    match command {
        Command::Insert(key, val) => insert_refused(root, key@, *val),
        Command::Update(key, val) => update_refused(root, key@, *val),
        Command::Remove(key) => path_refusal(root, key@),
    }
}

/// Whether a step was refused as `refusal` says, where it says so, and
/// left what the transaction sees as it was.
pub open spec fn refused_as(
    refusal: Option<Failure>,
    r: Result<(), TxError>,
    before: Contents,
    after: Contents,
) -> bool {
    refusal matches Some(f) ==> (r matches Err(TxError::Abort(e)) && e@ == f) && after == before
}

/// What a step inside a transaction has done to the map: `after` where it
/// went through, the failure where it was refused, and nothing where the
/// map underneath failed.
pub open spec fn step_result(
    r: Result<(), TxError>,
    expected: Result<Contents, Failure>,
    after: Contents,
) -> bool {
    match r {
        Ok(()) => expected == Ok::<Contents, Failure>(after),
        Err(TxError::Abort(e)) => expected == Err::<Contents, Failure>(e@),
        Err(TxError::Store(_)) => true,
    }
}

/// Whether some entry has the name `name`.
pub fn has_entry(entries: &Vec<(String, Value)>, name: &String) -> (found: bool)
    ensures
        found == has_key(entries@, name@),
{
    let mut i: usize = 0;
    while i < entries.len()
        invariant
            i <= entries.len(),
            forall|j: int| 0 <= j < i ==> (#[trigger] entries@[j]).0@ != name@,
        decreases entries.len() - i,
    {
        if entries[i].0 == *name {
            return true;
        }
        i = i + 1;
    }
    false
}

/// Whether some entry names a field that is not declared.
pub fn any_undeclared(fields: &Vec<(String, SchemaItem)>, entries: &Vec<(String, Value)>) -> (found:
    bool)
    ensures
        found == undeclared_key(fields@, entries@),
{
    let mut i: usize = 0;
    while i < entries.len()
        invariant
            i <= entries.len(),
            forall|j: int| 0 <= j < i ==> declares(fields@, (#[trigger] entries@[j]).0@),
        decreases entries.len() - i,
    {
        if SchemaItem::field(fields, &entries[i].0).is_none() {
            return true;
        }
        i = i + 1;
    }
    false
}

/// Whether some declared field has no entry.
pub fn any_missing(fields: &Vec<(String, SchemaItem)>, entries: &Vec<(String, Value)>) -> (found:
    bool)
    ensures
        found == missing_field(fields@, entries@),
{
    let mut j: usize = 0;
    while j < fields.len()
        invariant
            j <= fields.len(),
            forall|k: int| 0 <= k < j ==> has_key(entries@, (#[trigger] fields@[k]).0@),
        decreases fields.len() - j,
    {
        if !has_entry(entries, &fields[j].0) {
            return true;
        }
        j = j + 1;
    }
    false
}

impl<'a> TransactionHandler<'a> {
    /// Adds the last name of `key` to the members of its parent, where the
    /// parent is a collection; a name that is a member already stays one.
    pub fn link(&mut self, key: &Ref) -> (r: Result<(), TxError>)
        ensures
            final(self).root() == old(self).root(),
            step_result(
                r,
                link_spec(old(self).contents(), old(self).root(), key@),
                final(self).contents(),
            ),
            !touches_parent(old(self).root(), key@) ==> !(r matches Err(TxError::Store(_)))
                && final(self).contents() == old(self).contents(),
    {
        let len = key.0.len();
        if len <= 1 {
            return Ok(());
        }
        let parent_ref = slice_subrange(key.0.as_slice(), 0, len - 1);
        proof {
            assert(names_of(parent_ref@) =~= key@.drop_last());
        }
        let parent_schema = match self.schema().resolve(parent_ref) {
            Ok(schema) => schema,
            Err(err) => {
                return Err(TxError::Abort(ServerError::SchemaError(err)));
            },
        };
        match parent_schema {
            SchemaItem::Collection(_) => {},
            _ => {
                return Ok(());
            },
        }
        let encoded_collection_key = self.schema().encode_ref(parent_ref);
        let found = match self.get(encoded_collection_key.as_slice()) {
            Err(e) => {
                return Err(TxError::Store(e));
            },
            Ok(found) => found,
        };
        let mut keys: Vec<String> = match found {
            None => Vec::new(),
            Some(bytes) => match read_members(bytes.as_slice()) {
                None => {
                    return Err(TxError::Abort(ServerError::CorruptKey));
                },
                Some(names) => names,
            },
        };
        let name = &key.0[len - 1];
        if !contains_name(&keys, name) {
            let ghost before = names_of(keys@);
            keys.push(name.clone());
            proof {
                assert(key@.last() == name@);
                assert(names_of(keys@) =~= before.push(name@));
                if found is None {
                    assert(before =~= Seq::<Seq<char>>::empty());
                    assert(before.push(name@) =~= seq![name@]);
                }
            }
            let keys_encoded = write_members(&keys);
            match self.put(encoded_collection_key.as_slice(), keys_encoded.as_slice()) {
                Err(e) => {
                    return Err(TxError::Store(e));
                },
                Ok(()) => {},
            }
        }
        Ok(())
    }

    /// Takes the last name of `key` out of the members of its parent, where
    /// the parent is a collection, and writes the members back.
    pub fn unlink(&mut self, key: &Ref) -> (r: Result<(), TxError>)
        ensures
            final(self).root() == old(self).root(),
            step_result(
                r,
                unlink_spec(old(self).contents(), old(self).root(), key@),
                final(self).contents(),
            ),
            !touches_parent(old(self).root(), key@) ==> !(r matches Err(TxError::Store(_)))
                && final(self).contents() == old(self).contents(),
    {
        let len = key.0.len();
        if len <= 1 {
            return Ok(());
        }
        let parent_ref = slice_subrange(key.0.as_slice(), 0, len - 1);
        proof {
            assert(names_of(parent_ref@) =~= key@.drop_last());
        }
        let parent_schema = match self.schema().resolve(parent_ref) {
            Ok(schema) => schema,
            Err(err) => {
                return Err(TxError::Abort(ServerError::SchemaError(err)));
            },
        };
        match parent_schema {
            SchemaItem::Collection(_) => {},
            _ => {
                return Ok(());
            },
        }
        let encoded_collection_key = self.schema().encode_ref(parent_ref);
        let found = match self.get(encoded_collection_key.as_slice()) {
            Err(e) => {
                return Err(TxError::Store(e));
            },
            Ok(found) => found,
        };
        let keys: Vec<String> = match found {
            None => Vec::new(),
            Some(bytes) => match read_members(bytes.as_slice()) {
                None => {
                    return Err(TxError::Abort(ServerError::CorruptKey));
                },
                Some(names) => names,
            },
        };
        let kept = remove_name(&keys, &key.0[len - 1]);
        proof {
            if found is None {
                assert(names_of(keys@) =~= Seq::<Seq<char>>::empty());
                assert(names_of(kept@) =~= Seq::<Seq<char>>::empty());
            }
        }
        let keys_encoded = write_members(&kept);
        match self.put(encoded_collection_key.as_slice(), keys_encoded.as_slice()) {
            Err(e) => Err(TxError::Store(e)),
            Ok(()) => Ok(()),
        }
    }

    /// Writes `val` at `key`, which `schema` governs, with all below it, and
    /// makes the last name of `key` a member of a parent that is a
    /// collection.
    #[verifier::loop_isolation(false)]
    pub fn tx_insert(&mut self, key: &Ref, schema: &SchemaItem, val: &Value) -> (r: Result<
        (),
        TxError,
    >)
        ensures
            final(self).root() == old(self).root(),
            step_result(
                r,
                insert_spec(old(self).contents(), old(self).root(), *schema, key@, *val),
                final(self).contents(),
            ),
            refused_as(
                write_refused_outright(*schema, *val),
                r,
                old(self).contents(),
                final(self).contents(),
            ),
        decreases *schema,
    {
        let ghost before = self.contents();
        let ghost root = self.root();
        match schema {
            SchemaItem::Collection(inner) => {
                let obj = match val {
                    Value::Object(obj) => obj,
                    _ => {
                        return Err(TxError::Abort(ServerError::SchemaMismatch));
                    },
                };
                let mut i: usize = 0;
                while i < obj.len()
                    invariant
                        i <= obj.len(),
                        self.root() == old(self).root(),
                        insert_members(before, root, **inner, key@, obj@, i as nat) == Ok::<
                            Contents,
                            Failure,
                        >(self.contents()),
                        i == 0 ==> self.contents() == before,
                        i > 0 ==> write_refused_outright(**inner, obj@[0].1) is None,
                    decreases obj.len() - i,
                {
                    let sub_key = key.child(&obj[i].0);
                    match self.tx_insert(&sub_key, inner, &obj[i].1) {
                        Err(e) => {
                            proof {
                                if e is Abort {
                                    lemma_insert_members_stops(
                                        before,
                                        root,
                                        **inner,
                                        key@,
                                        obj@,
                                        (i + 1) as nat,
                                        obj@.len() as nat,
                                    );
                                }
                            }
                            return Err(e);
                        },
                        Ok(()) => {},
                    }
                    i = i + 1;
                }
            },
            SchemaItem::Document(fields) => {
                let obj = match val {
                    Value::Object(obj) => obj,
                    _ => {
                        return Err(TxError::Abort(ServerError::SchemaMismatch));
                    },
                };
                if any_undeclared(fields, obj) {
                    return Err(TxError::Abort(ServerError::ExtraKeyFound));
                }
                if any_missing(fields, obj) {
                    return Err(TxError::Abort(ServerError::SchemaMismatch));
                }
                let encoded_ref = self.schema().encode_ref(key.0.as_slice());
                let mark: [u8; 1] = [1];
                proof {
                    assert(mark@ =~= crate::model::presence_mark());
                }
                match self.put(encoded_ref.as_slice(), mark.as_slice()) {
                    Err(e) => {
                        return Err(TxError::Store(e));
                    },
                    Ok(()) => {},
                }
                let ghost marked = self.contents();
                let mut i: usize = 0;
                while i < obj.len()
                    invariant
                        i <= obj.len(),
                        self.root() == old(self).root(),
                        insert_entries(marked, root, fields@, key@, obj@, i as nat) == Ok::<
                            Contents,
                            Failure,
                        >(self.contents()),
                    decreases obj.len() - i,
                {
                    proof {
                        lemma_field_index(fields@, obj@[i as int].0@, 0);
                    }
                    let field = match SchemaItem::field(fields, &obj[i].0) {
                        Some(field) => field,
                        None => {
                            proof {
                                lemma_insert_entries_stops(
                                    marked,
                                    root,
                                    fields@,
                                    key@,
                                    obj@,
                                    (i + 1) as nat,
                                    obj@.len() as nat,
                                );
                            }
                            return Err(TxError::Abort(ServerError::ExtraKeyFound));
                        },
                    };
                    let sub_key = key.child(&obj[i].0);
                    match self.tx_insert(&sub_key, field, &obj[i].1) {
                        Err(e) => {
                            proof {
                                if e is Abort {
                                    lemma_insert_entries_stops(
                                        marked,
                                        root,
                                        fields@,
                                        key@,
                                        obj@,
                                        (i + 1) as nat,
                                        obj@.len() as nat,
                                    );
                                }
                            }
                            return Err(e);
                        },
                        Ok(()) => {},
                    }
                    i = i + 1;
                }
            },
            SchemaItem::Scalar => {
                let text = match val {
                    Value::String(text) => text,
                    _ => {
                        return Err(TxError::Abort(ServerError::SchemaMismatch));
                    },
                };
                let encoded_ref = self.schema().encode_ref(key.0.as_slice());
                let bytes = string_bytes(text);
                match self.put(encoded_ref.as_slice(), bytes.as_slice()) {
                    Err(e) => {
                        return Err(TxError::Store(e));
                    },
                    Ok(()) => {},
                }
            },
        }
        self.link(key)
    }
}

impl<'a> TransactionHandler<'a> {
    /// Replaces what `key` holds, which `schema` governs, by `val`. The key
    /// of `key` must be present; at a document only the given fields
    /// change, at a collection only members that it lists.
    #[verifier::loop_isolation(false)]
    pub fn tx_update(&mut self, key: &Ref, schema: &SchemaItem, val: &Value) -> (r: Result<
        (),
        TxError,
    >)
        ensures
            final(self).root() == old(self).root(),
            step_result(
                r,
                update_spec(old(self).contents(), *schema, key@, *val),
                final(self).contents(),
            ),
            refused_as(
                update_refused_outright(*schema, *val),
                r,
                old(self).contents(),
                final(self).contents(),
            ),
            (*schema is Scalar && (r matches Err(TxError::Abort(_)))) ==> final(self).contents()
                == old(self).contents(),
        decreases *schema,
    {
        let ghost before = self.contents();
        let encoded_ref = self.schema().encode_ref(key.0.as_slice());
        match schema {
            SchemaItem::Collection(inner) => {
                let obj = match val {
                    Value::Object(obj) => obj,
                    _ => {
                        return Err(TxError::Abort(ServerError::SchemaMismatch));
                    },
                };
                let found = match self.get(encoded_ref.as_slice()) {
                    Err(e) => {
                        return Err(TxError::Store(e));
                    },
                    Ok(found) => found,
                };
                let bytes = match found {
                    None => {
                        return Err(TxError::Abort(ServerError::KeyNotFound));
                    },
                    Some(bytes) => bytes,
                };
                let names = match read_members(bytes.as_slice()) {
                    None => {
                        return Err(TxError::Abort(ServerError::CorruptKey));
                    },
                    Some(names) => names,
                };
                let mut i: usize = 0;
                while i < obj.len()
                    invariant
                        i <= obj.len(),
                        self.root() == old(self).root(),
                        update_members(
                            before,
                            **inner,
                            key@,
                            names_of(names@),
                            obj@,
                            i as nat,
                        ) == Ok::<Contents, Failure>(self.contents()),
                    decreases obj.len() - i,
                {
                    if !contains_name(&names, &obj[i].0) {
                        proof {
                            lemma_update_members_stops(
                                before,
                                **inner,
                                key@,
                                names_of(names@),
                                obj@,
                                (i + 1) as nat,
                                obj@.len() as nat,
                            );
                        }
                        return Err(TxError::Abort(ServerError::KeyNotFound));
                    }
                    let sub_key = key.child(&obj[i].0);
                    match self.tx_update(&sub_key, inner, &obj[i].1) {
                        Err(e) => {
                            proof {
                                if e is Abort {
                                    lemma_update_members_stops(
                                        before,
                                        **inner,
                                        key@,
                                        names_of(names@),
                                        obj@,
                                        (i + 1) as nat,
                                        obj@.len() as nat,
                                    );
                                }
                            }
                            return Err(e);
                        },
                        Ok(()) => {},
                    }
                    i = i + 1;
                }
                Ok(())
            },
            SchemaItem::Document(fields) => {
                let obj = match val {
                    Value::Object(obj) => obj,
                    _ => {
                        return Err(TxError::Abort(ServerError::SchemaMismatch));
                    },
                };
                match self.get(encoded_ref.as_slice()) {
                    Err(e) => {
                        return Err(TxError::Store(e));
                    },
                    Ok(None) => {
                        return Err(TxError::Abort(ServerError::KeyNotFound));
                    },
                    Ok(Some(_)) => {},
                }
                let mut i: usize = 0;
                while i < obj.len()
                    invariant
                        i <= obj.len(),
                        self.root() == old(self).root(),
                        update_entries(before, fields@, key@, obj@, i as nat) == Ok::<
                            Contents,
                            Failure,
                        >(self.contents()),
                    decreases obj.len() - i,
                {
                    proof {
                        lemma_field_index(fields@, obj@[i as int].0@, 0);
                    }
                    let field = match SchemaItem::field(fields, &obj[i].0) {
                        Some(field) => field,
                        None => {
                            proof {
                                lemma_update_entries_stops(
                                    before,
                                    fields@,
                                    key@,
                                    obj@,
                                    (i + 1) as nat,
                                    obj@.len() as nat,
                                );
                            }
                            return Err(TxError::Abort(ServerError::ExtraKeyFound));
                        },
                    };
                    let sub_key = key.child(&obj[i].0);
                    match self.tx_update(&sub_key, field, &obj[i].1) {
                        Err(e) => {
                            proof {
                                if e is Abort {
                                    lemma_update_entries_stops(
                                        before,
                                        fields@,
                                        key@,
                                        obj@,
                                        (i + 1) as nat,
                                        obj@.len() as nat,
                                    );
                                }
                            }
                            return Err(e);
                        },
                        Ok(()) => {},
                    }
                    i = i + 1;
                }
                Ok(())
            },
            SchemaItem::Scalar => {
                let text = match val {
                    Value::String(text) => text,
                    _ => {
                        return Err(TxError::Abort(ServerError::SchemaMismatch));
                    },
                };
                match self.get(encoded_ref.as_slice()) {
                    Err(e) => {
                        return Err(TxError::Store(e));
                    },
                    Ok(None) => {
                        return Err(TxError::Abort(ServerError::KeyNotFound));
                    },
                    Ok(Some(_)) => {},
                }
                let bytes = string_bytes(text);
                match self.put(encoded_ref.as_slice(), bytes.as_slice()) {
                    Err(e) => Err(TxError::Store(e)),
                    Ok(()) => Ok(()),
                }
            },
        }
    }

    /// Removes `key`, which `schema` governs, with all below it, and takes
    /// the last name of `key` out of the members of a parent that is a
    /// collection.
    #[verifier::loop_isolation(false)]
    pub fn tx_remove(&mut self, key: &Ref, schema: &SchemaItem) -> (r: Result<(), TxError>)
        ensures
            final(self).root() == old(self).root(),
            step_result(
                r,
                remove_spec(old(self).contents(), old(self).root(), *schema, key@),
                final(self).contents(),
            ),
        decreases *schema,
    {
        let ghost before = self.contents();
        let ghost root = self.root();
        let encoded_ref = self.schema().encode_ref(key.0.as_slice());
        match schema {
            SchemaItem::Collection(inner) => {
                let found = match self.get(encoded_ref.as_slice()) {
                    Err(e) => {
                        return Err(TxError::Store(e));
                    },
                    Ok(found) => found,
                };
                let value = match found {
                    None => {
                        return Err(TxError::Abort(ServerError::KeyNotFound));
                    },
                    Some(value) => value,
                };
                let keys = match read_members(value.as_slice()) {
                    None => {
                        return Err(TxError::Abort(ServerError::CorruptKey));
                    },
                    Some(keys) => keys,
                };
                let mut i: usize = 0;
                while i < keys.len()
                    invariant
                        i <= keys.len(),
                        self.root() == old(self).root(),
                        remove_members(
                            before,
                            root,
                            **inner,
                            key@,
                            names_of(keys@),
                            i as nat,
                        ) == Ok::<Contents, Failure>(self.contents()),
                    decreases keys.len() - i,
                {
                    let sub_key = key.child(&keys[i]);
                    match self.tx_remove(&sub_key, inner) {
                        Err(e) => {
                            proof {
                                if e is Abort {
                                    lemma_remove_members_stops(
                                        before,
                                        root,
                                        **inner,
                                        key@,
                                        names_of(keys@),
                                        (i + 1) as nat,
                                        keys@.len() as nat,
                                    );
                                }
                            }
                            return Err(e);
                        },
                        Ok(()) => {},
                    }
                    i = i + 1;
                }
                match self.erase(encoded_ref.as_slice()) {
                    Err(e) => {
                        return Err(TxError::Store(e));
                    },
                    Ok(()) => {},
                }
            },
            SchemaItem::Document(fields) => {
                match self.erase(encoded_ref.as_slice()) {
                    Err(e) => {
                        return Err(TxError::Store(e));
                    },
                    Ok(()) => {},
                }
                let ghost unmarked = self.contents();
                let mut i: usize = 0;
                while i < fields.len()
                    invariant
                        i <= fields.len(),
                        self.root() == old(self).root(),
                        remove_fields(unmarked, root, fields@, key@, i as nat) == Ok::<
                            Contents,
                            Failure,
                        >(self.contents()),
                    decreases fields.len() - i,
                {
                    let sub_key = key.child(&fields[i].0);
                    match self.tx_remove(&sub_key, &fields[i].1) {
                        Err(e) => {
                            proof {
                                if e is Abort {
                                    lemma_remove_fields_stops(
                                        unmarked,
                                        root,
                                        fields@,
                                        key@,
                                        (i + 1) as nat,
                                        fields@.len() as nat,
                                    );
                                }
                            }
                            return Err(e);
                        },
                        Ok(()) => {},
                    }
                    i = i + 1;
                }
            },
            SchemaItem::Scalar => {
                match self.erase(encoded_ref.as_slice()) {
                    Err(e) => {
                        return Err(TxError::Store(e));
                    },
                    Ok(()) => {},
                }
            },
        }
        self.unlink(key)
    }

    /// Carries out one mutation: finds the node that governs its path and
    /// runs the step for it. An insert at a scalar is refused.
    pub fn apply(&mut self, command: &Command) -> (r: Result<(), TxError>)
        ensures
            final(self).root() == old(self).root(),
            step_result(
                r,
                command_outcome(old(self).contents(), old(self).root(), *command),
                final(self).contents(),
            ),
            refused_as(
                refused_outright(old(self).root(), *command),
                r,
                old(self).contents(),
                final(self).contents(),
            ),
    {
        match command {
            Command::Insert(key, val) => {
                match self.schema().resolve(key.0.as_slice()) {
                    Err(e) => Err(TxError::Abort(ServerError::SchemaError(e))),
                    Ok(SchemaItem::Scalar) => Err(TxError::Abort(ServerError::NonDocumentInsert)),
                    Ok(item) => self.tx_insert(key, item, val),
                }
            },
            Command::Update(key, val) => {
                match self.schema().resolve(key.0.as_slice()) {
                    Err(e) => Err(TxError::Abort(ServerError::SchemaError(e))),
                    Ok(item) => self.tx_update(key, item, val),
                }
            },
            Command::Remove(key) => {
                match self.schema().resolve(key.0.as_slice()) {
                    Err(e) => Err(TxError::Abort(ServerError::SchemaError(e))),
                    Ok(item) => self.tx_remove(key, item),
                }
            },
        }
    }
}

} // verus!
