//! Which keys an operation can touch, and which keys a read depends on.

use crate::codec::{
    component_bytes, encode_path, lemma_ancestor_iff_key_prefix, lemma_component_len,
    lemma_encode_push, name_fits, path_fits,
};
use crate::model::{
    clear_spec, get_fields, get_members, get_spec, insert_entries, insert_members, insert_spec,
    link_spec, remove_fields, remove_members, remove_spec, unlink_spec, write_spec, Contents, Path,
};
use crate::schema::{field_index, resolve_spec, SchemaItem};
use crate::store::lookup;
use crate::value::Value;
use vstd::prelude::*;

verus! {

/// Two maps hold the same under every key that begins with `prefix`.
pub open spec fn same_below(m1: Contents, m2: Contents, prefix: Seq<u8>) -> bool {
    forall|k: Seq<u8>| prefix.is_prefix_of(k) ==> lookup(m1, k) == lookup(m2, k)
}

/// `k` is below the key of no child of `path`.
pub open spec fn below_no_child(path: Path, k: Seq<u8>) -> bool {
    forall|name: Seq<char>| !encode_path(#[trigger] path.push(name)).is_prefix_of(k)
}

/// `k` is not the membership value of a collection at `path`.
pub open spec fn no_index_at(root: SchemaItem, path: Path, k: Seq<u8>) -> bool {
    k == encode_path(path) ==> !(resolve_spec(root, path) matches Ok(SchemaItem::Collection(_)))
}

/// A key that is not below the key of `path` is below no child's key.
pub proof fn lemma_outside_is_below_no_child(path: Path, k: Seq<u8>)
    requires
        !encode_path(path).is_prefix_of(k),
    ensures
        below_no_child(path, k),
        k != encode_path(path),
{
    assert forall|name: Seq<char>| !encode_path(#[trigger] path.push(name)).is_prefix_of(k) by {
        if encode_path(path.push(name)).is_prefix_of(k) {
            lemma_below_child(path, name, k);
        }
    }
    assert(encode_path(path).is_prefix_of(encode_path(path)));
}

/// The key of `path` itself is below no child's key.
pub proof fn lemma_own_key_is_below_no_child(path: Path)
    ensures
        below_no_child(path, encode_path(path)),
{
    assert forall|name: Seq<char>| !encode_path(#[trigger] path.push(name)).is_prefix_of(
        encode_path(path),
    ) by {
        lemma_child_key(path, name);
    }
}

/// The key of a path is a proper prefix of the key of each path one name
/// below it.
pub proof fn lemma_child_key(path: Path, name: Seq<char>)
    ensures
        encode_path(path).is_prefix_of(encode_path(path.push(name))),
        encode_path(path.push(name)).len() >= encode_path(path).len() + 8,
        encode_path(path.push(name)) != encode_path(path),
        !encode_path(path.push(name)).is_prefix_of(encode_path(path)),
        path.push(name).drop_last() == path,
{
    lemma_encode_push(path, name);
    lemma_component_len(name);
    assert(path.push(name).drop_last() =~= path);
    assert(encode_path(path.push(name)).subrange(0, encode_path(path).len() as int)
        =~= encode_path(path));
}

/// A key below a child's key is below the parent's key.
pub proof fn lemma_below_child(path: Path, name: Seq<char>, k: Seq<u8>)
    requires
        encode_path(path.push(name)).is_prefix_of(k),
    ensures
        encode_path(path).is_prefix_of(k),
        k != encode_path(path),
{
    lemma_child_key(path, name);
    let parent = encode_path(path);
    let child = encode_path(path.push(name));
    assert(parent =~= child.subrange(0, parent.len() as int));
    assert(child =~= k.subrange(0, child.len() as int));
    assert(parent =~= k.subrange(0, parent.len() as int));
}

/// No key is below the keys of two different children of one path.
pub proof fn lemma_siblings_apart(path: Path, a: Seq<char>, b: Seq<char>, k: Seq<u8>)
    requires
        path_fits(path),
        name_fits(a),
        name_fits(b),
        a != b,
        encode_path(path.push(a)).is_prefix_of(k),
    ensures
        !encode_path(path.push(b)).is_prefix_of(k),
{
    let pa = path.push(a);
    let pb = path.push(b);
    let ka = encode_path(pa);
    let kb = encode_path(pb);
    if kb.is_prefix_of(k) {
        assert(ka =~= k.subrange(0, ka.len() as int));
        assert(kb =~= k.subrange(0, kb.len() as int));
        assert(path_fits(pa));
        assert(path_fits(pb));
        if ka.len() <= kb.len() {
            assert(ka =~= kb.subrange(0, ka.len() as int));
            lemma_ancestor_iff_key_prefix(pa, pb);
            assert(pa =~= pb.subrange(0, pa.len() as int));
            assert(pa[path.len() as int] == pb[path.len() as int]);
        } else {
            assert(kb =~= ka.subrange(0, kb.len() as int));
            lemma_ancestor_iff_key_prefix(pb, pa);
            assert(pb =~= pa.subrange(0, pb.len() as int));
            assert(pa[path.len() as int] == pb[path.len() as int]);
        }
    }
}

/// Joining the members of the parent touches at most the parent's key.
pub proof fn lemma_link_frame(m: Contents, root: SchemaItem, path: Path, k: Seq<u8>)
    requires
        link_spec(m, root, path) is Ok,
        path.len() > 1 ==> no_index_at(root, path.drop_last(), k),
    ensures
        lookup(link_spec(m, root, path)->Ok_0, k) == lookup(m, k),
{
}

/// Leaving the members of the parent touches at most the parent's key.
pub proof fn lemma_unlink_frame(m: Contents, root: SchemaItem, path: Path, k: Seq<u8>)
    requires
        unlink_spec(m, root, path) is Ok,
        path.len() > 1 ==> no_index_at(root, path.drop_last(), k),
    ensures
        lookup(unlink_spec(m, root, path)->Ok_0, k) == lookup(m, k),
{
}

/// An insert at `path` touches only keys below the key of `path`, and the
/// key of the parent.
pub proof fn lemma_insert_frame(
    m: Contents,
    root: SchemaItem,
    item: SchemaItem,
    path: Path,
    val: Value,
    k: Seq<u8>,
)
    requires
        insert_spec(m, root, item, path, val) is Ok,
        !encode_path(path).is_prefix_of(k),
        path.len() > 1 ==> no_index_at(root, path.drop_last(), k),
    ensures
        lookup(insert_spec(m, root, item, path, val)->Ok_0, k) == lookup(m, k),
    decreases item, 0nat, 1nat,
{
    let written = write_spec(m, root, item, path, val)->Ok_0;
    lemma_write_frame(m, root, item, path, val, k);
    lemma_link_frame(written, root, path, k);
}

/// Writing a value at `path` touches only keys below the key of `path`.
pub proof fn lemma_write_frame(
    m: Contents,
    root: SchemaItem,
    item: SchemaItem,
    path: Path,
    val: Value,
    k: Seq<u8>,
)
    requires
        write_spec(m, root, item, path, val) is Ok,
        !encode_path(path).is_prefix_of(k),
    ensures
        lookup(write_spec(m, root, item, path, val)->Ok_0, k) == lookup(m, k),
    decreases item, 0nat, 0nat,
{
    lemma_outside_is_below_no_child(path, k);
    match item {
        SchemaItem::Scalar => {},
        SchemaItem::Document(fields) => {
            match val {
                Value::Object(entries) => {
                    lemma_insert_entries_frame(
                        m.insert(encode_path(path), crate::model::presence_mark()),
                        root,
                        fields@,
                        path,
                        entries@,
                        entries@.len(),
                        k,
                    );
                },
                _ => {},
            }
        },
        SchemaItem::Collection(inner) => {
            match val {
                Value::Object(entries) => {
                    lemma_insert_members_frame(m, root, *inner, path, entries@, entries@.len(), k);
                },
                _ => {},
            }
        },
    }
}

/// Writing the fields of the document at `path` touches only keys below
/// the key of `path`.
pub proof fn lemma_insert_entries_frame(
    m: Contents,
    root: SchemaItem,
    fields: Seq<(String, SchemaItem)>,
    path: Path,
    entries: Seq<(String, Value)>,
    n: nat,
    k: Seq<u8>,
)
    requires
        insert_entries(m, root, fields, path, entries, n) is Ok,
        forall|j: int|
            0 <= j < n && j < entries.len() ==> !encode_path(
                path.push((#[trigger] entries[j]).0@),
            ).is_prefix_of(k),
        no_index_at(root, path, k),
    ensures
        lookup(insert_entries(m, root, fields, path, entries, n)->Ok_0, k) == lookup(m, k),
    decreases fields, 1nat, n,
{
    if n == 0 || n > entries.len() {
    } else {
        lemma_insert_entries_frame(m, root, fields, path, entries, (n - 1) as nat, k);
        let written = insert_entries(m, root, fields, path, entries, (n - 1) as nat)->Ok_0;
        let name = entries[n - 1].0@;
        let i = field_index(fields, name, 0)->Some_0;
        lemma_child_key(path, name);
        assert(!encode_path(path.push(entries[n - 1].0@)).is_prefix_of(k));
        lemma_insert_frame(written, root, fields[i].1, path.push(name), entries[n - 1].1, k);
    }
}

/// Writing members of the collection at `path` touches only keys below
/// the key of `path`.
pub proof fn lemma_insert_members_frame(
    m: Contents,
    root: SchemaItem,
    inner: SchemaItem,
    path: Path,
    entries: Seq<(String, Value)>,
    n: nat,
    k: Seq<u8>,
)
    requires
        insert_members(m, root, inner, path, entries, n) is Ok,
        forall|j: int|
            0 <= j < n && j < entries.len() ==> !encode_path(
                path.push((#[trigger] entries[j]).0@),
            ).is_prefix_of(k),
        no_index_at(root, path, k),
    ensures
        lookup(insert_members(m, root, inner, path, entries, n)->Ok_0, k) == lookup(m, k),
    decreases inner, 1nat, n,
{
    if n == 0 || n > entries.len() {
    } else {
        lemma_insert_members_frame(m, root, inner, path, entries, (n - 1) as nat, k);
        let written = insert_members(m, root, inner, path, entries, (n - 1) as nat)->Ok_0;
        let name = entries[n - 1].0@;
        lemma_child_key(path, name);
        assert(!encode_path(path.push(entries[n - 1].0@)).is_prefix_of(k));
        lemma_insert_frame(written, root, inner, path.push(name), entries[n - 1].1, k);
    }
}

/// A removal at `path` touches only keys below the key of `path`, and the
/// key of the parent.
pub proof fn lemma_remove_frame(
    m: Contents,
    root: SchemaItem,
    item: SchemaItem,
    path: Path,
    k: Seq<u8>,
)
    requires
        remove_spec(m, root, item, path) is Ok,
        !encode_path(path).is_prefix_of(k),
        path.len() > 1 ==> no_index_at(root, path.drop_last(), k),
    ensures
        lookup(remove_spec(m, root, item, path)->Ok_0, k) == lookup(m, k),
    decreases item, 0nat, 1nat,
{
    let cleared = clear_spec(m, root, item, path)->Ok_0;
    lemma_clear_frame(m, root, item, path, k);
    lemma_unlink_frame(cleared, root, path, k);
}

/// Clearing `path` touches only keys below the key of `path`.
pub proof fn lemma_clear_frame(
    m: Contents,
    root: SchemaItem,
    item: SchemaItem,
    path: Path,
    k: Seq<u8>,
)
    requires
        clear_spec(m, root, item, path) is Ok,
        !encode_path(path).is_prefix_of(k),
    ensures
        lookup(clear_spec(m, root, item, path)->Ok_0, k) == lookup(m, k),
    decreases item, 0nat, 0nat,
{
    lemma_outside_is_below_no_child(path, k);
    match item {
        SchemaItem::Scalar => {},
        SchemaItem::Document(fields) => {
            lemma_remove_fields_frame(
                m.remove(encode_path(path)),
                root,
                fields@,
                path,
                fields@.len(),
                k,
            );
        },
        SchemaItem::Collection(inner) => {
            let names = crate::model::member_names(lookup(m, encode_path(path))->Some_0)->Some_0;
            lemma_remove_members_frame(m, root, *inner, path, names, names.len(), k);
        },
    }
}

/// Removing fields of the document at `path` touches only keys below the
/// key of `path`.
pub proof fn lemma_remove_fields_frame(
    m: Contents,
    root: SchemaItem,
    fields: Seq<(String, SchemaItem)>,
    path: Path,
    n: nat,
    k: Seq<u8>,
)
    requires
        remove_fields(m, root, fields, path, n) is Ok,
        forall|j: int|
            0 <= j < n && j < fields.len() ==> !encode_path(
                path.push((#[trigger] fields[j]).0@),
            ).is_prefix_of(k),
        no_index_at(root, path, k),
    ensures
        lookup(remove_fields(m, root, fields, path, n)->Ok_0, k) == lookup(m, k),
    decreases fields, 1nat, n,
{
    if n == 0 || n > fields.len() {
    } else {
        lemma_remove_fields_frame(m, root, fields, path, (n - 1) as nat, k);
        let cleared = remove_fields(m, root, fields, path, (n - 1) as nat)->Ok_0;
        let name = fields[n - 1].0@;
        lemma_child_key(path, name);
        assert(!encode_path(path.push(fields[n - 1].0@)).is_prefix_of(k));
        lemma_remove_frame(cleared, root, fields[n - 1].1, path.push(name), k);
    }
}

/// Removing members of the collection at `path` touches only keys below
/// the key of `path`.
pub proof fn lemma_remove_members_frame(
    m: Contents,
    root: SchemaItem,
    inner: SchemaItem,
    path: Path,
    names: Seq<Seq<char>>,
    n: nat,
    k: Seq<u8>,
)
    requires
        remove_members(m, root, inner, path, names, n) is Ok,
        forall|j: int|
            0 <= j < n && j < names.len() ==> !encode_path(
                path.push(#[trigger] names[j]),
            ).is_prefix_of(k),
        no_index_at(root, path, k),
    ensures
        lookup(remove_members(m, root, inner, path, names, n)->Ok_0, k) == lookup(m, k),
    decreases inner, 1nat, n,
{
    if n == 0 || n > names.len() {
    } else {
        lemma_remove_members_frame(m, root, inner, path, names, (n - 1) as nat, k);
        let cleared = remove_members(m, root, inner, path, names, (n - 1) as nat)->Ok_0;
        let name = names[n - 1];
        lemma_child_key(path, name);
        assert(!encode_path(path.push(names[n - 1])).is_prefix_of(k));
        lemma_remove_frame(cleared, root, inner, path.push(name), k);
    }
}

/// A read of `path` depends only on the keys below the key of `path`.
pub proof fn lemma_get_local(m1: Contents, m2: Contents, item: SchemaItem, path: Path)
    requires
        same_below(m1, m2, encode_path(path)),
    ensures
        get_spec(m1, item, path) == get_spec(m2, item, path),
    decreases item, 0nat, 0nat,
{
    assert(encode_path(path).is_prefix_of(encode_path(path)));
    match item {
        SchemaItem::Scalar => {},
        SchemaItem::Document(fields) => {
            lemma_get_fields_local(m1, m2, fields@, path, fields@.len());
        },
        SchemaItem::Collection(inner) => {
            match lookup(m1, encode_path(path)) {
                None => {},
                Some(bytes) => {
                    match crate::model::member_names(bytes) {
                        None => {},
                        Some(names) => {
                            lemma_get_members_local(m1, m2, *inner, path, names, names.len());
                        },
                    }
                },
            }
        },
    }
}

/// A read of the fields of the document at `path` depends only on the keys
/// below the key of `path`.
pub proof fn lemma_get_fields_local(
    m1: Contents,
    m2: Contents,
    fields: Seq<(String, SchemaItem)>,
    path: Path,
    n: nat,
)
    requires
        same_below(m1, m2, encode_path(path)),
    ensures
        get_fields(m1, fields, path, n) == get_fields(m2, fields, path, n),
    decreases fields, 1nat, n,
{
    if n == 0 || n > fields.len() {
    } else {
        lemma_get_fields_local(m1, m2, fields, path, (n - 1) as nat);
        let name = fields[n - 1].0@;
        lemma_same_below_child(m1, m2, path, name);
        lemma_get_local(m1, m2, fields[n - 1].1, path.push(name));
    }
}

/// A read of members of the collection at `path` depends only on the keys
/// below the key of `path`.
pub proof fn lemma_get_members_local(
    m1: Contents,
    m2: Contents,
    inner: SchemaItem,
    path: Path,
    names: Seq<Seq<char>>,
    n: nat,
)
    requires
        same_below(m1, m2, encode_path(path)),
    ensures
        get_members(m1, inner, path, names, n) == get_members(m2, inner, path, names, n),
    decreases inner, 1nat, n,
{
    if n == 0 || n > names.len() {
    } else {
        lemma_get_members_local(m1, m2, inner, path, names, (n - 1) as nat);
        let name = names[n - 1];
        lemma_same_below_child(m1, m2, path, name);
        lemma_get_local(m1, m2, inner, path.push(name));
    }
}

/// Maps that hold the same below a path hold the same below each child.
pub proof fn lemma_same_below_child(m1: Contents, m2: Contents, path: Path, name: Seq<char>)
    requires
        same_below(m1, m2, encode_path(path)),
    ensures
        same_below(m1, m2, encode_path(path.push(name))),
{
    assert forall|k: Seq<u8>| encode_path(path.push(name)).is_prefix_of(k) implies lookup(m1, k)
        == lookup(m2, k) by {
        lemma_below_child(path, name, k);
    }
}

} // verus!
