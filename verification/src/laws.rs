//! What holds of reads after writes.

use crate::codec::{encode_path, path_fits};
use crate::frames::{
    lemma_child_key, lemma_own_key_is_below_no_child, lemma_remove_fields_frame,
    lemma_unlink_frame,
};
use crate::model::{
    clear_spec, insert_members, insert_outcome, insert_refused, insert_spec,
    lemma_insert_members_stops, path_refusal, read_spec, remove_fields, remove_outcome,
    update_outcome, update_refused, write_refused_outright, write_spec, Contents, Failure, Path,
};
use crate::round_trip::{covered, lemma_get_after_insert};
use crate::schema::{lemma_resolve_wf, resolve_spec, SchemaItem};
use crate::store::lookup;
use crate::value::{Json, Value};
use vstd::prelude::*;

verus! {

/// What a read finds where nothing is stored: no key at a scalar, null at
/// a document, the empty record at a collection.
pub open spec fn nothing_at(item: SchemaItem) -> Result<Json, Failure> {
    match item {
        SchemaItem::Scalar => Err(Failure::KeyNotFound),
        SchemaItem::Document(_) => Ok(Json::Null),
        SchemaItem::Collection(_) => Ok(Json::Record(Map::empty())),
    }
}

/// After a removal of a path has gone through, a read of that path finds
/// nothing: `KeyNotFound` at a scalar, null at a document, the empty record
/// at a collection.
pub proof fn law_read_after_remove(m: Contents, root: SchemaItem, path: Path)
    requires
        remove_outcome(m, root, path) is Ok,
    ensures
        read_spec(remove_outcome(m, root, path)->Ok_0, root, path) == nothing_at(
            resolve_spec(root, path)->Ok_0,
        ),
{
    let item = resolve_spec(root, path)->Ok_0;
    let key = encode_path(path);
    let cleared = clear_spec(m, root, item, path)->Ok_0;
    let after = remove_outcome(m, root, path)->Ok_0;
    assert(lookup(cleared, key) is None) by {
        match item {
            SchemaItem::Document(fields) => {
                lemma_own_key_is_below_no_child(path);
                lemma_remove_fields_frame(m.remove(key), root, fields@, path, fields@.len(), key);
            },
            _ => {},
        }
    }
    assert(lookup(after, key) is None) by {
        if path.len() > 1 {
            lemma_child_key(path.drop_last(), path.last());
            assert(path.drop_last().push(path.last()) =~= path);
        }
        lemma_unlink_frame(cleared, root, path, key);
    }
}

/// After an insert has gone through, a read of the same path gives the
/// inserted value, record for record and string for string. This holds
/// under a schema whose root is a document and whose documents name each
/// field once, for a value whose records name each entry once, and where
/// every collection that the value reaches lists only members that the
/// value names there: a member that the value lacks stays beside the
/// inserted ones.
pub proof fn law_read_after_insert(m: Contents, root: SchemaItem, path: Path, val: Value)
    requires
        root is Document,
        root.wf(),
        path_fits(path),
        val.wf(),
        insert_outcome(m, root, path, val) is Ok,
        covered(m, resolve_spec(root, path)->Ok_0, path, val),
    ensures
        read_spec(insert_outcome(m, root, path, val)->Ok_0, root, path) == Ok::<Json, Failure>(
            val.model(),
        ),
{
    let item = resolve_spec(root, path)->Ok_0;
    lemma_resolve_wf(root, path);
    lemma_get_after_insert(m, root, item, path, val);
}

/// A write that is refused before anything is read or written is refused
/// so whatever the map holds.
pub proof fn lemma_write_refused(
    m: Contents,
    root: SchemaItem,
    item: SchemaItem,
    path: Path,
    val: Value,
)
    requires
        write_refused_outright(item, val) is Some,
    ensures
        write_spec(m, root, item, path, val) == Err::<Contents, Failure>(
            write_refused_outright(item, val)->Some_0,
        ),
        insert_spec(m, root, item, path, val) == Err::<Contents, Failure>(
            write_refused_outright(item, val)->Some_0,
        ),
    decreases item,
{
    match item {
        SchemaItem::Collection(inner) => {
            match val {
                Value::Object(entries) => {
                    lemma_write_refused(
                        m,
                        root,
                        *inner,
                        path.push(entries@[0].0@),
                        entries@[0].1,
                    );
                    assert(insert_members(m, root, *inner, path, entries@, 0) == Ok::<
                        Contents,
                        Failure,
                    >(m));
                    assert(insert_members(m, root, *inner, path, entries@, 1) is Err);
                    lemma_insert_members_stops(m, root, *inner, path, entries@, 1, entries@.len());
                },
                _ => {},
            }
        },
        _ => {},
    }
}

/// A request that is refused before anything is read or written ends in
/// that refusal whatever the store holds: what is owed of such a request
/// agrees with what the request makes of any map.
pub proof fn law_refusal_is_the_outcome(m: Contents, root: SchemaItem, path: Path, val: Value)
    ensures
        path_refusal(root, path) matches Some(f) ==> read_spec(m, root, path) == Err::<
            Json,
            Failure,
        >(f) && remove_outcome(m, root, path) == Err::<Contents, Failure>(f),
        insert_refused(root, path, val) matches Some(f) ==> insert_outcome(m, root, path, val)
            == Err::<Contents, Failure>(f),
        update_refused(root, path, val) matches Some(f) ==> update_outcome(m, root, path, val)
            == Err::<Contents, Failure>(f),
{
    if resolve_spec(root, path) is Ok {
        let item = resolve_spec(root, path)->Ok_0;
        if !(item is Scalar) && write_refused_outright(item, val) is Some {
            lemma_write_refused(m, root, item, path, val);
        }
    }
}

} // verus!
