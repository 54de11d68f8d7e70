//! What the store means: the reading of a map of keys as a tree of values,
//! and what each operation makes of the map.

use crate::codec::{encode_path, path_fits};
use crate::schema::{declares, field_index, resolve_spec, ResolveFailure, SchemaItem};
use crate::store::lookup;
use crate::value::{has_key, Json, Value};
use vstd::bytes::{spec_u64_from_le_bytes, spec_u64_to_le_bytes};
use vstd::prelude::*;
use vstd::utf8::{decode_utf8, encode_utf8, valid_utf8};

verus! {

/// The map underneath: keys and values are byte strings.
pub type Contents = Map<Seq<u8>, Seq<u8>>;

/// A path, name by name.
pub type Path = Seq<Seq<char>>;

/// Why an operation did not go through.
pub ghost enum Failure {
    /// The map underneath failed.
    Storage,
    /// The path has no schema node.
    Schema(ResolveFailure),
    /// A key that must be present is absent.
    KeyNotFound,
    /// A record names a field that the schema does not declare.
    ExtraKeyFound,
    /// A record lacks a declared field, or a value is of the wrong kind.
    SchemaMismatch,
    /// An insert aimed at a scalar.
    NonDocumentInsert,
    /// A stored key or value cannot be read back.
    CorruptKey,
}

/// The value stored under the key of an initialised document.
pub open spec fn presence_mark() -> Seq<u8> {
    seq![1u8]
}

/// The first `count` names written at the front of `bytes`, each as a
/// length and its UTF-8 bytes; what follows them is not looked at.
pub open spec fn take_names(bytes: Seq<u8>, count: nat) -> Option<Seq<Seq<char>>>
    decreases count,
{
    if count == 0 {
        Some(Seq::empty())
    } else if bytes.len() < 8 {
        None
    } else {
        let n = spec_u64_from_le_bytes(bytes.subrange(0, 8)) as int;
        if 8 + n > bytes.len() {
            None
        } else if !valid_utf8(bytes.subrange(8, 8 + n)) {
            None
        } else {
            match take_names(bytes.subrange(8 + n, bytes.len() as int), (count - 1) as nat) {
                Some(rest) => Some(seq![decode_utf8(bytes.subrange(8, 8 + n))] + rest),
                None => None,
            }
        }
    }
}

/// The list of names that a stored membership value spells: a count, then
/// that many names.
pub open spec fn index_names(bytes: Seq<u8>) -> Option<Seq<Seq<char>>> {
    if bytes.len() < 8 {
        None
    } else {
        take_names(
            bytes.subrange(8, bytes.len() as int),
            spec_u64_from_le_bytes(bytes.subrange(0, 8)) as nat,
        )
    }
}

/// The stored form of a list of names.
pub open spec fn index_bytes(names: Seq<Seq<char>>) -> Seq<u8> {
    spec_u64_to_le_bytes(names.len() as u64) + encode_path(names)
}

/// A list of names that can be stored: their number and sizes fit.
pub open spec fn index_fits(names: Seq<Seq<char>>) -> bool {
    names.len() <= u64::MAX && path_fits(names)
}

/// The names of a list, each once, in the order of first occurrence.
pub open spec fn distinct(names: Seq<Seq<char>>) -> Seq<Seq<char>>
    decreases names.len(),
{
    if names.len() == 0 {
        Seq::empty()
    } else {
        let init = distinct(names.drop_last());
        if init.contains(names.last()) {
            init
        } else {
            init.push(names.last())
        }
    }
}

/// The names of a list without `name`, in order.
pub open spec fn without(names: Seq<Seq<char>>, name: Seq<char>) -> Seq<Seq<char>>
    decreases names.len(),
{
    if names.len() == 0 {
        Seq::empty()
    } else {
        let init = without(names.drop_last(), name);
        if names.last() == name {
            init
        } else {
            init.push(names.last())
        }
    }
}

/// The members that a stored membership value lists, each once.
pub open spec fn member_names(bytes: Seq<u8>) -> Option<Seq<Seq<char>>> {
    match index_names(bytes) {
        Some(names) => Some(distinct(names)),
        None => None,
    }
}

/// The map after the last name of `path` has joined the members of its
/// parent, where the parent is a collection.
pub open spec fn link_spec(m: Contents, root: SchemaItem, path: Path) -> Result<Contents, Failure> {
    if path.len() <= 1 {
        Ok(m)
    } else {
        let parent = path.drop_last();
        match resolve_spec(root, parent) {
            Err(e) => Err(Failure::Schema(e)),
            Ok(SchemaItem::Collection(_)) => {
                let key = encode_path(parent);
                match lookup(m, key) {
                    None => Ok(m.insert(key, index_bytes(seq![path.last()]))),
                    Some(bytes) => match member_names(bytes) {
                        None => Err(Failure::CorruptKey),
                        Some(names) => if names.contains(path.last()) {
                            Ok(m)
                        } else {
                            Ok(m.insert(key, index_bytes(names.push(path.last()))))
                        },
                    },
                }
            },
            Ok(_) => Ok(m),
        }
    }
}

/// The map after the last name of `path` has left the members of its
/// parent, where the parent is a collection.
pub open spec fn unlink_spec(m: Contents, root: SchemaItem, path: Path) -> Result<
    Contents,
    Failure,
> {
    if path.len() <= 1 {
        Ok(m)
    } else {
        let parent = path.drop_last();
        match resolve_spec(root, parent) {
            Err(e) => Err(Failure::Schema(e)),
            Ok(SchemaItem::Collection(_)) => {
                let key = encode_path(parent);
                match lookup(m, key) {
                    None => Ok(m.insert(key, index_bytes(Seq::empty()))),
                    Some(bytes) => match member_names(bytes) {
                        None => Err(Failure::CorruptKey),
                        Some(names) => Ok(m.insert(key, index_bytes(without(names, path.last())))),
                    },
                }
            },
            Ok(_) => Ok(m),
        }
    }
}

/// What a read of `path` gives, where `item` governs `path`.
pub open spec fn get_spec(m: Contents, item: SchemaItem, path: Path) -> Result<Json, Failure>
    decreases item, 0nat, 0nat,
{
    match item {
        SchemaItem::Scalar => match lookup(m, encode_path(path)) {
            Some(bytes) => if valid_utf8(bytes) {
                Ok(Json::Text(decode_utf8(bytes)))
            } else {
                Err(Failure::CorruptKey)
            },
            None => Err(Failure::KeyNotFound),
        },
        SchemaItem::Document(fields) => if !m.dom().contains(encode_path(path)) {
            Ok(Json::Null)
        } else {
            match get_fields(m, fields@, path, fields@.len()) {
                Ok(record) => Ok(Json::Record(record)),
                Err(e) => Err(e),
            }
        },
        SchemaItem::Collection(inner) => match lookup(m, encode_path(path)) {
            None => Ok(Json::Record(Map::empty())),
            Some(bytes) => match member_names(bytes) {
                None => Err(Failure::CorruptKey),
                Some(names) => match get_members(m, *inner, path, names, names.len()) {
                    Ok(record) => Ok(Json::Record(record)),
                    Err(e) => Err(e),
                },
            },
        },
    }
}

/// A scalar field of the document at `path` that holds no value.
pub open spec fn absent_scalar(m: Contents, field: (String, SchemaItem), path: Path) -> bool {
    field.1 is Scalar && !m.dom().contains(encode_path(path.push(field.0@)))
}

/// The record of the first `n` declared fields of the document at `path`,
/// read in order. A scalar field that holds no value is left out of the
/// record; the first other field that cannot be read decides.
pub open spec fn get_fields(
    m: Contents,
    fields: Seq<(String, SchemaItem)>,
    path: Path,
    n: nat,
) -> Result<Map<Seq<char>, Json>, Failure>
    decreases fields, 1nat, n,
{
    if n == 0 || n > fields.len() {
        Ok(Map::empty())
    } else {
        match get_fields(m, fields, path, (n - 1) as nat) {
            Err(e) => Err(e),
            Ok(record) => if absent_scalar(m, fields[n - 1], path) {
                Ok(record)
            } else {
                match get_spec(m, fields[n - 1].1, path.push(fields[n - 1].0@)) {
                    Err(e) => Err(e),
                    Ok(value) => Ok(record.insert(fields[n - 1].0@, value)),
                }
            },
        }
    }
}

/// The record of the first `n` of the listed members of the collection at
/// `path`, read in order; the first member that cannot be read decides.
pub open spec fn get_members(
    m: Contents,
    inner: SchemaItem,
    path: Path,
    names: Seq<Seq<char>>,
    n: nat,
) -> Result<Map<Seq<char>, Json>, Failure>
    decreases inner, 1nat, n,
{
    if n == 0 || n > names.len() {
        Ok(Map::empty())
    } else {
        match get_members(m, inner, path, names, (n - 1) as nat) {
            Err(e) => Err(e),
            Ok(record) => match get_spec(m, inner, path.push(names[n - 1])) {
                Err(e) => Err(e),
                Ok(value) => Ok(record.insert(names[n - 1], value)),
            },
        }
    }
}

/// Some entry names a field that is not declared.
pub open spec fn undeclared_key(
    fields: Seq<(String, SchemaItem)>,
    entries: Seq<(String, Value)>,
) -> bool {
    exists|i: int| 0 <= i < entries.len() && !declares(fields, (#[trigger] entries[i]).0@)
}

/// Some declared field has no entry.
pub open spec fn missing_field(
    fields: Seq<(String, SchemaItem)>,
    entries: Seq<(String, Value)>,
) -> bool {
    exists|j: int| 0 <= j < fields.len() && !has_key(entries, (#[trigger] fields[j]).0@)
}

/// The map after `val` has been written at `path`, where `item` governs
/// `path`, and the last name of `path` has joined the members of a parent
/// that is a collection.
pub open spec fn insert_spec(
    m: Contents,
    root: SchemaItem,
    item: SchemaItem,
    path: Path,
    val: Value,
) -> Result<Contents, Failure>
    decreases item, 0nat, 1nat,
{
    match write_spec(m, root, item, path, val) {
        Err(e) => Err(e),
        Ok(written) => link_spec(written, root, path),
    }
}

/// The map after `val` has been written at `path`, where `item` governs
/// `path`: a string at a scalar; the presence mark and every field at a
/// document; every given member at a collection.
pub open spec fn write_spec(
    m: Contents,
    root: SchemaItem,
    item: SchemaItem,
    path: Path,
    val: Value,
) -> Result<Contents, Failure>
    decreases item, 0nat, 0nat,
{
    match item {
        SchemaItem::Scalar => match val {
            Value::String(text) => Ok(m.insert(encode_path(path), encode_utf8(text@))),
            _ => Err(Failure::SchemaMismatch),
        },
        SchemaItem::Document(fields) => match val {
            Value::Object(entries) => if undeclared_key(fields@, entries@) {
                Err(Failure::ExtraKeyFound)
            } else if missing_field(fields@, entries@) {
                Err(Failure::SchemaMismatch)
            } else {
                insert_entries(
                    m.insert(encode_path(path), presence_mark()),
                    root,
                    fields@,
                    path,
                    entries@,
                    entries@.len(),
                )
            },
            _ => Err(Failure::SchemaMismatch),
        },
        SchemaItem::Collection(inner) => match val {
            Value::Object(entries) => insert_members(
                m,
                root,
                *inner,
                path,
                entries@,
                entries@.len(),
            ),
            _ => Err(Failure::SchemaMismatch),
        },
    }
}

/// The map after the first `n` entries have been written, in order, each
/// under the field of its name in the document at `path`.
pub open spec fn insert_entries(
    m: Contents,
    root: SchemaItem,
    fields: Seq<(String, SchemaItem)>,
    path: Path,
    entries: Seq<(String, Value)>,
    n: nat,
) -> Result<Contents, Failure>
    decreases fields, 1nat, n,
{
    if n == 0 || n > entries.len() {
        Ok(m)
    } else {
        match insert_entries(m, root, fields, path, entries, (n - 1) as nat) {
            Err(e) => Err(e),
            Ok(written) => match field_index(fields, entries[n - 1].0@, 0) {
                Some(i) => if 0 <= i < fields.len() {
                    insert_spec(
                        written,
                        root,
                        fields[i].1,
                        path.push(entries[n - 1].0@),
                        entries[n - 1].1,
                    )
                } else {
                    Err(Failure::ExtraKeyFound)
                },
                None => Err(Failure::ExtraKeyFound),
            },
        }
    }
}

/// The map after the first `n` entries have been written, in order, each as
/// the member of its name in the collection at `path`.
pub open spec fn insert_members(
    m: Contents,
    root: SchemaItem,
    inner: SchemaItem,
    path: Path,
    entries: Seq<(String, Value)>,
    n: nat,
) -> Result<Contents, Failure>
    decreases inner, 1nat, n,
{
    if n == 0 || n > entries.len() {
        Ok(m)
    } else {
        match insert_members(m, root, inner, path, entries, (n - 1) as nat) {
            Err(e) => Err(e),
            Ok(written) => insert_spec(
                written,
                root,
                inner,
                path.push(entries[n - 1].0@),
                entries[n - 1].1,
            ),
        }
    }
}

/// The map after `val` has replaced what `path` holds, where `item` governs
/// `path`. The key of `path` must be present. At a document only the given
/// fields change; at a collection only members that it lists.
pub open spec fn update_spec(m: Contents, item: SchemaItem, path: Path, val: Value) -> Result<
    Contents,
    Failure,
>
    decreases item, 0nat, 0nat,
{
    match item {
        SchemaItem::Scalar => match val {
            Value::String(text) => if m.dom().contains(encode_path(path)) {
                Ok(m.insert(encode_path(path), encode_utf8(text@)))
            } else {
                Err(Failure::KeyNotFound)
            },
            _ => Err(Failure::SchemaMismatch),
        },
        SchemaItem::Document(fields) => match val {
            Value::Object(entries) => if m.dom().contains(encode_path(path)) {
                update_entries(m, fields@, path, entries@, entries@.len())
            } else {
                Err(Failure::KeyNotFound)
            },
            _ => Err(Failure::SchemaMismatch),
        },
        SchemaItem::Collection(inner) => match val {
            Value::Object(entries) => match lookup(m, encode_path(path)) {
                None => Err(Failure::KeyNotFound),
                Some(bytes) => match member_names(bytes) {
                    None => Err(Failure::CorruptKey),
                    Some(names) => update_members(
                        m,
                        *inner,
                        path,
                        names,
                        entries@,
                        entries@.len(),
                    ),
                },
            },
            _ => Err(Failure::SchemaMismatch),
        },
    }
}

/// The map after the first `n` entries have updated, in order, the fields
/// of their names in the document at `path`.
pub open spec fn update_entries(
    m: Contents,
    fields: Seq<(String, SchemaItem)>,
    path: Path,
    entries: Seq<(String, Value)>,
    n: nat,
) -> Result<Contents, Failure>
    decreases fields, 1nat, n,
{
    if n == 0 || n > entries.len() {
        Ok(m)
    } else {
        match update_entries(m, fields, path, entries, (n - 1) as nat) {
            Err(e) => Err(e),
            Ok(written) => match field_index(fields, entries[n - 1].0@, 0) {
                Some(i) => if 0 <= i < fields.len() {
                    update_spec(
                        written,
                        fields[i].1,
                        path.push(entries[n - 1].0@),
                        entries[n - 1].1,
                    )
                } else {
                    Err(Failure::ExtraKeyFound)
                },
                None => Err(Failure::ExtraKeyFound),
            },
        }
    }
}

/// The map after the first `n` entries have updated, in order, the members
/// of their names in the collection at `path`, whose members are `names`.
pub open spec fn update_members(
    m: Contents,
    inner: SchemaItem,
    path: Path,
    names: Seq<Seq<char>>,
    entries: Seq<(String, Value)>,
    n: nat,
) -> Result<Contents, Failure>
    decreases inner, 1nat, n,
{
    if n == 0 || n > entries.len() {
        Ok(m)
    } else {
        match update_members(m, inner, path, names, entries, (n - 1) as nat) {
            Err(e) => Err(e),
            Ok(written) => if names.contains(entries[n - 1].0@) {
                update_spec(written, inner, path.push(entries[n - 1].0@), entries[n - 1].1)
            } else {
                Err(Failure::KeyNotFound)
            },
        }
    }
}

/// The map after `path` and all below it has been removed, where `item`
/// governs `path`, and the last name of `path` has left the members of a
/// parent that is a collection.
pub open spec fn remove_spec(m: Contents, root: SchemaItem, item: SchemaItem, path: Path) -> Result<
    Contents,
    Failure,
>
    decreases item, 0nat, 1nat,
{
    match clear_spec(m, root, item, path) {
        Err(e) => Err(e),
        Ok(cleared) => unlink_spec(cleared, root, path),
    }
}

/// The map after `path` and all below it has been removed, where `item`
/// governs `path`: the key of a scalar; the presence mark of a document
/// and then each declared field; each listed member of a collection and
/// then its membership value, which must be present.
pub open spec fn clear_spec(m: Contents, root: SchemaItem, item: SchemaItem, path: Path) -> Result<
    Contents,
    Failure,
>
    decreases item, 0nat, 0nat,
{
    match item {
        SchemaItem::Scalar => Ok(m.remove(encode_path(path))),
        SchemaItem::Document(fields) => remove_fields(
            m.remove(encode_path(path)),
            root,
            fields@,
            path,
            fields@.len(),
        ),
        SchemaItem::Collection(inner) => match lookup(m, encode_path(path)) {
            None => Err(Failure::KeyNotFound),
            Some(bytes) => match member_names(bytes) {
                None => Err(Failure::CorruptKey),
                Some(names) => match remove_members(m, root, *inner, path, names, names.len()) {
                    Err(e) => Err(e),
                    Ok(cleared) => Ok(cleared.remove(encode_path(path))),
                },
            },
        },
    }
}

/// The map after the first `n` declared fields of the document at `path`
/// have been removed, in order.
pub open spec fn remove_fields(
    m: Contents,
    root: SchemaItem,
    fields: Seq<(String, SchemaItem)>,
    path: Path,
    n: nat,
) -> Result<Contents, Failure>
    decreases fields, 1nat, n,
{
    if n == 0 || n > fields.len() {
        Ok(m)
    } else {
        match remove_fields(m, root, fields, path, (n - 1) as nat) {
            Err(e) => Err(e),
            Ok(cleared) => remove_spec(cleared, root, fields[n - 1].1, path.push(fields[n - 1].0@)),
        }
    }
}

/// The map after the first `n` of the listed members of the collection at
/// `path` have been removed, in order.
pub open spec fn remove_members(
    m: Contents,
    root: SchemaItem,
    inner: SchemaItem,
    path: Path,
    names: Seq<Seq<char>>,
    n: nat,
) -> Result<Contents, Failure>
    decreases inner, 1nat, n,
{
    if n == 0 || n > names.len() {
        Ok(m)
    } else {
        match remove_members(m, root, inner, path, names, (n - 1) as nat) {
            Err(e) => Err(e),
            Ok(cleared) => remove_spec(cleared, root, inner, path.push(names[n - 1])),
        }
    }
}

/// What a read of `path` gives.
pub open spec fn read_spec(m: Contents, root: SchemaItem, path: Path) -> Result<Json, Failure> {
    match resolve_spec(root, path) {
        Err(e) => Err(Failure::Schema(e)),
        Ok(item) => get_spec(m, item, path),
    }
}

/// The map after an insert of `val` at `path`. Only a document or a
/// collection can be the target.
pub open spec fn insert_outcome(m: Contents, root: SchemaItem, path: Path, val: Value) -> Result<
    Contents,
    Failure,
> {
    match resolve_spec(root, path) {
        Err(e) => Err(Failure::Schema(e)),
        Ok(SchemaItem::Scalar) => Err(Failure::NonDocumentInsert),
        Ok(item) => insert_spec(m, root, item, path, val),
    }
}

/// The map after an update of `path` with `val`.
pub open spec fn update_outcome(m: Contents, root: SchemaItem, path: Path, val: Value) -> Result<
    Contents,
    Failure,
> {
    match resolve_spec(root, path) {
        Err(e) => Err(Failure::Schema(e)),
        Ok(item) => update_spec(m, item, path, val),
    }
}

/// The map after a removal of `path`.
pub open spec fn remove_outcome(m: Contents, root: SchemaItem, path: Path) -> Result<
    Contents,
    Failure,
> {
    match resolve_spec(root, path) {
        Err(e) => Err(Failure::Schema(e)),
        Ok(item) => remove_spec(m, root, item, path),
    }
}

/// Once a field cannot be read, reading more fields gives the same failure.
pub proof fn lemma_get_fields_stops(
    m: Contents,
    fields: Seq<(String, SchemaItem)>,
    path: Path,
    k: nat,
    n: nat,
)
    requires
        k <= n <= fields.len(),
        get_fields(m, fields, path, k) is Err,
    ensures
        get_fields(m, fields, path, n) == get_fields(m, fields, path, k),
    decreases n - k,
{
    if k < n {
        lemma_get_fields_stops(m, fields, path, k, (n - 1) as nat);
    }
}

/// Once a member cannot be read, reading more members gives the same
/// failure.
pub proof fn lemma_get_members_stops(
    m: Contents,
    inner: SchemaItem,
    path: Path,
    names: Seq<Seq<char>>,
    k: nat,
    n: nat,
)
    requires
        k <= n <= names.len(),
        get_members(m, inner, path, names, k) is Err,
    ensures
        get_members(m, inner, path, names, n) == get_members(m, inner, path, names, k),
    decreases n - k,
{
    if k < n {
        lemma_get_members_stops(m, inner, path, names, k, (n - 1) as nat);
    }
}

/// Once an entry is refused, writing more entries gives the same failure.
pub proof fn lemma_insert_entries_stops(
    m: Contents,
    root: SchemaItem,
    fields: Seq<(String, SchemaItem)>,
    path: Path,
    entries: Seq<(String, Value)>,
    k: nat,
    n: nat,
)
    requires
        k <= n <= entries.len(),
        insert_entries(m, root, fields, path, entries, k) is Err,
    ensures
        insert_entries(m, root, fields, path, entries, n) == insert_entries(
            m,
            root,
            fields,
            path,
            entries,
            k,
        ),
    decreases n - k,
{
    if k < n {
        lemma_insert_entries_stops(m, root, fields, path, entries, k, (n - 1) as nat);
    }
}

/// Once a member is refused, writing more members gives the same failure.
pub proof fn lemma_insert_members_stops(
    m: Contents,
    root: SchemaItem,
    inner: SchemaItem,
    path: Path,
    entries: Seq<(String, Value)>,
    k: nat,
    n: nat,
)
    requires
        k <= n <= entries.len(),
        insert_members(m, root, inner, path, entries, k) is Err,
    ensures
        insert_members(m, root, inner, path, entries, n) == insert_members(
            m,
            root,
            inner,
            path,
            entries,
            k,
        ),
    decreases n - k,
{
    if k < n {
        lemma_insert_members_stops(m, root, inner, path, entries, k, (n - 1) as nat);
    }
}

/// Once an entry is refused, updating more fields gives the same failure.
pub proof fn lemma_update_entries_stops(
    m: Contents,
    fields: Seq<(String, SchemaItem)>,
    path: Path,
    entries: Seq<(String, Value)>,
    k: nat,
    n: nat,
)
    requires
        k <= n <= entries.len(),
        update_entries(m, fields, path, entries, k) is Err,
    ensures
        update_entries(m, fields, path, entries, n) == update_entries(m, fields, path, entries, k),
    decreases n - k,
{
    if k < n {
        lemma_update_entries_stops(m, fields, path, entries, k, (n - 1) as nat);
    }
}

/// Once an entry is refused, updating more members gives the same failure.
pub proof fn lemma_update_members_stops(
    m: Contents,
    inner: SchemaItem,
    path: Path,
    names: Seq<Seq<char>>,
    entries: Seq<(String, Value)>,
    k: nat,
    n: nat,
)
    requires
        k <= n <= entries.len(),
        update_members(m, inner, path, names, entries, k) is Err,
    ensures
        update_members(m, inner, path, names, entries, n) == update_members(
            m,
            inner,
            path,
            names,
            entries,
            k,
        ),
    decreases n - k,
{
    if k < n {
        lemma_update_members_stops(m, inner, path, names, entries, k, (n - 1) as nat);
    }
}

/// Once a field cannot be removed, removing more fields gives the same
/// failure.
pub proof fn lemma_remove_fields_stops(
    m: Contents,
    root: SchemaItem,
    fields: Seq<(String, SchemaItem)>,
    path: Path,
    k: nat,
    n: nat,
)
    requires
        k <= n <= fields.len(),
        remove_fields(m, root, fields, path, k) is Err,
    ensures
        remove_fields(m, root, fields, path, n) == remove_fields(m, root, fields, path, k),
    decreases n - k,
{
    if k < n {
        lemma_remove_fields_stops(m, root, fields, path, k, (n - 1) as nat);
    }
}

/// Once a member cannot be removed, removing more members gives the same
/// failure.
pub proof fn lemma_remove_members_stops(
    m: Contents,
    root: SchemaItem,
    inner: SchemaItem,
    path: Path,
    names: Seq<Seq<char>>,
    k: nat,
    n: nat,
)
    requires
        k <= n <= names.len(),
        remove_members(m, root, inner, path, names, k) is Err,
    ensures
        remove_members(m, root, inner, path, names, n) == remove_members(
            m,
            root,
            inner,
            path,
            names,
            k,
        ),
    decreases n - k,
{
    if k < n {
        lemma_remove_members_stops(m, root, inner, path, names, k, (n - 1) as nat);
    }
}

/// The refusal of a request on `path` that the schema alone decides: the
/// path has no schema node.
pub open spec fn path_refusal(root: SchemaItem, path: Path) -> Option<Failure> {
    match resolve_spec(root, path) {
        Err(e) => Some(Failure::Schema(e)),
        Ok(_) => None,
    }
}

/// The refusal of an insert at `path` that the schema alone decides: the
/// path has no schema node, or its node is a scalar.
pub open spec fn insert_refusal(root: SchemaItem, path: Path) -> Option<Failure> {
    match resolve_spec(root, path) {
        Err(e) => Some(Failure::Schema(e)),
        Ok(SchemaItem::Scalar) => Some(Failure::NonDocumentInsert),
        Ok(_) => None,
    }
}

/// The refusal of a write of `val` under `item` that is decided before
/// anything is read or written: a value of the wrong kind, a record with
/// an undeclared name or without a declared one, or such a refusal of the
/// first member given to a collection.
pub open spec fn write_refused_outright(item: SchemaItem, val: Value) -> Option<Failure>
    decreases item,
{
    match item {
        SchemaItem::Scalar => if val is String {
            None
        } else {
            Some(Failure::SchemaMismatch)
        },
        SchemaItem::Document(fields) => match val {
            Value::Object(entries) => if undeclared_key(fields@, entries@) {
                Some(Failure::ExtraKeyFound)
            } else if missing_field(fields@, entries@) {
                Some(Failure::SchemaMismatch)
            } else {
                None
            },
            _ => Some(Failure::SchemaMismatch),
        },
        SchemaItem::Collection(inner) => match val {
            Value::Object(entries) => if entries@.len() > 0 {
                write_refused_outright(*inner, entries@[0].1)
            } else {
                None
            },
            _ => Some(Failure::SchemaMismatch),
        },
    }
}

/// The refusal of an update with `val` under `item` that is decided before
/// anything is read: a value of the wrong kind.
pub open spec fn update_refused_outright(item: SchemaItem, val: Value) -> Option<Failure> {
    match item {
        SchemaItem::Scalar => if val is String {
            None
        } else {
            Some(Failure::SchemaMismatch)
        },
        _ => if val is Object {
            None
        } else {
            Some(Failure::SchemaMismatch)
        },
    }
}

/// The refusal of an insert of `val` at `path` that is decided before
/// anything is read or written: by the schema alone, or by the kind and
/// the names of the value.
pub open spec fn insert_refused(root: SchemaItem, path: Path, val: Value) -> Option<Failure> {
    match insert_refusal(root, path) {
        Some(f) => Some(f),
        None => write_refused_outright(resolve_spec(root, path)->Ok_0, val),
    }
}

/// The refusal of an update of `path` with `val` that is decided before
/// anything is read: by the schema alone, or by the kind of the value.
pub open spec fn update_refused(root: SchemaItem, path: Path, val: Value) -> Option<Failure> {
    match path_refusal(root, path) {
        Some(f) => Some(f),
        None => update_refused_outright(resolve_spec(root, path)->Ok_0, val),
    }
}

/// Whether joining or leaving the members of the parent of `path` reads
/// the map: the path has a parent below the root, and it is a collection.
pub open spec fn touches_parent(root: SchemaItem, path: Path) -> bool {
    path.len() > 1 && (resolve_spec(root, path.drop_last()) matches Ok(SchemaItem::Collection(_)))
}

} // verus!
