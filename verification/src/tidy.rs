//! A removal leaves nothing behind where every stored key below the path
//! is one that the schema and the membership values lead to.

use crate::codec::{encode_path, name_fits, path_fits};
use crate::frames::{
    lemma_below_child, lemma_child_key, lemma_own_key_is_below_no_child, lemma_remove_fields_frame,
    lemma_remove_frame, lemma_remove_members_frame, lemma_same_below_child, lemma_siblings_apart,
    lemma_unlink_frame, same_below,
};
use crate::membership::{index_readable, lemma_members_fit, listed, present};
use crate::model::{
    clear_spec, member_names, remove_fields, remove_members, remove_outcome, remove_spec,
    Contents, Path,
};
use crate::schema::{
    distinct_field_names, lemma_resolve_child, lemma_resolve_wf, lemma_field_index_distinct,
    resolve_spec, ResolveFailure, SchemaItem,
};
use crate::store::lookup;
use vstd::prelude::*;

verus! {

/// `k` is at or below the key of a declared field of the document at
/// `path`.
pub open spec fn below_field(fields: Seq<(String, SchemaItem)>, path: Path, k: Seq<u8>) -> bool {
    exists|i: int|
        0 <= i < fields.len() && encode_path(path.push((#[trigger] fields[i]).0@)).is_prefix_of(k)
}

/// `k` is at or below the key of a listed member of the collection at
/// `path`.
pub open spec fn below_member(m: Contents, path: Path, k: Seq<u8>) -> bool {
    exists|name: Seq<char>| #[trigger]
        listed(m, path).contains(name) && encode_path(path.push(name)).is_prefix_of(k)
}

/// Every stored key at or below `path` is one that the schema and the
/// membership values lead to: the key of `path` itself, or a key of that
/// kind below a declared field or a listed member.
pub open spec fn tidy(m: Contents, item: SchemaItem, path: Path) -> bool
    decreases item,
{
    match item {
        SchemaItem::Scalar => forall|k: Seq<u8>| #[trigger]
            m.dom().contains(k) && encode_path(path).is_prefix_of(k) ==> k == encode_path(path),
        SchemaItem::Document(fields) => {
            &&& forall|k: Seq<u8>| #[trigger]
                m.dom().contains(k) && encode_path(path).is_prefix_of(k) ==> k == encode_path(path)
                    || below_field(fields@, path, k)
            &&& forall|i: int|
                0 <= i < fields@.len() ==> tidy(
                    m,
                    (#[trigger] fields@[i]).1,
                    path.push(fields@[i].0@),
                )
        },
        SchemaItem::Collection(inner) => {
            &&& index_readable(m, path)
            &&& forall|k: Seq<u8>| #[trigger]
                m.dom().contains(k) && encode_path(path).is_prefix_of(k) ==> k == encode_path(path)
                    || below_member(m, path, k)
            &&& forall|name: Seq<char>| #[trigger]
                listed(m, path).contains(name) ==> tidy(m, *inner, path.push(name))
        },
    }
}

/// Whether the keys below a path are tidy depends only on those keys.
pub proof fn lemma_tidy_local(m1: Contents, m2: Contents, item: SchemaItem, path: Path)
    requires
        same_below(m1, m2, encode_path(path)),
        tidy(m1, item, path),
    ensures
        tidy(m2, item, path),
    decreases item,
{
    let key = encode_path(path);
    assert(key.is_prefix_of(key));
    assert(lookup(m1, key) == lookup(m2, key));
    match item {
        SchemaItem::Scalar => {
            assert forall|k: Seq<u8>| #[trigger] m2.dom().contains(k) && key.is_prefix_of(
                k,
            ) implies k == key by {
                assert(lookup(m1, k) == lookup(m2, k));
                assert(m1.dom().contains(k));
            }
        },
        SchemaItem::Document(fields) => {
            assert forall|k: Seq<u8>| #[trigger] m2.dom().contains(k) && key.is_prefix_of(
                k,
            ) implies k == key || below_field(fields@, path, k) by {
                assert(lookup(m1, k) == lookup(m2, k));
                assert(m1.dom().contains(k));
            }
            assert forall|i: int| 0 <= i < fields@.len() implies tidy(
                m2,
                (#[trigger] fields@[i]).1,
                path.push(fields@[i].0@),
            ) by {
                lemma_same_below_child(m1, m2, path, fields@[i].0@);
                lemma_tidy_local(m1, m2, fields@[i].1, path.push(fields@[i].0@));
            }
        },
        SchemaItem::Collection(inner) => {
            assert(listed(m1, path) == listed(m2, path));
            assert forall|k: Seq<u8>| #[trigger] m2.dom().contains(k) && key.is_prefix_of(
                k,
            ) implies k == key || below_member(m2, path, k) by {
                assert(lookup(m1, k) == lookup(m2, k));
                assert(m1.dom().contains(k));
                if k != key {
                    let name = choose|name: Seq<char>| #[trigger]
                        listed(m1, path).contains(name) && encode_path(
                            path.push(name),
                        ).is_prefix_of(k);
                    assert(listed(m2, path).contains(name));
                }
            }
            assert forall|name: Seq<char>| #[trigger] listed(m2, path).contains(name) implies tidy(
                m2,
                *inner,
                path.push(name),
            ) by {
                assert(listed(m1, path).contains(name));
                lemma_same_below_child(m1, m2, path, name);
                lemma_tidy_local(m1, m2, *inner, path.push(name));
            }
        },
    }
}

/// A removal at a path whose keys are tidy leaves no key at or below the
/// path.
pub proof fn lemma_remove_empties(
    m: Contents,
    root: SchemaItem,
    item: SchemaItem,
    path: Path,
    k: Seq<u8>,
)
    requires
        item.wf(),
        path_fits(path),
        resolve_spec(root, path) == Ok::<SchemaItem, ResolveFailure>(item),
        tidy(m, item, path),
        remove_spec(m, root, item, path) is Ok,
        encode_path(path).is_prefix_of(k),
    ensures
        !remove_spec(m, root, item, path)->Ok_0.dom().contains(k),
    decreases item, 0nat, 1nat,
{
    let cleared = clear_spec(m, root, item, path)->Ok_0;
    lemma_clear_empties(m, root, item, path, k);
    if path.len() > 1 {
        assert(path.drop_last().push(path.last()) =~= path);
        lemma_below_child(path.drop_last(), path.last(), k);
    }
    lemma_unlink_frame(cleared, root, path, k);
}

/// Clearing a path whose keys are tidy leaves no key at or below the
/// path.
pub proof fn lemma_clear_empties(
    m: Contents,
    root: SchemaItem,
    item: SchemaItem,
    path: Path,
    k: Seq<u8>,
)
    requires
        item.wf(),
        path_fits(path),
        resolve_spec(root, path) == Ok::<SchemaItem, ResolveFailure>(item),
        tidy(m, item, path),
        clear_spec(m, root, item, path) is Ok,
        encode_path(path).is_prefix_of(k),
    ensures
        !clear_spec(m, root, item, path)->Ok_0.dom().contains(k),
    decreases item, 0nat, 0nat,
{
    let key = encode_path(path);
    let cleared = clear_spec(m, root, item, path)->Ok_0;
    match item {
        SchemaItem::Scalar => {},
        SchemaItem::Document(fields) => {
            let unmarked = m.remove(key);
            assert forall|i: int| 0 <= i < fields@.len() implies tidy(
                unmarked,
                (#[trigger] fields@[i]).1,
                path.push(fields@[i].0@),
            ) by {
                let name = fields@[i].0@;
                assert(same_below(m, unmarked, encode_path(path.push(name)))) by {
                    assert forall|q: Seq<u8>| encode_path(path.push(name)).is_prefix_of(
                        q,
                    ) implies lookup(m, q) == lookup(unmarked, q) by {
                        lemma_below_child(path, name, q);
                    }
                }
                lemma_tidy_local(m, unmarked, fields@[i].1, path.push(name));
            }
            lemma_remove_fields_empty(unmarked, root, fields@, path, fields@.len());
            if k == key {
                lemma_own_key_is_below_no_child(path);
                lemma_remove_fields_frame(unmarked, root, fields@, path, fields@.len(), k);
            } else if below_field(fields@, path, k) {
            } else {
                lemma_remove_fields_frame(unmarked, root, fields@, path, fields@.len(), k);
                assert(lookup(cleared, k) == lookup(m, k));
                if m.dom().contains(k) {
                    assert(k == key || below_field(fields@, path, k));
                }
            }
        },
        SchemaItem::Collection(inner) => {
            let bytes = lookup(m, key)->Some_0;
            let names = member_names(bytes)->Some_0;
            let emptied = remove_members(m, root, *inner, path, names, names.len())->Ok_0;
            lemma_members_fit(bytes);
            assert(key.is_prefix_of(key));
            assert forall|j: int| 0 <= j < names.len() implies tidy(
                m,
                *inner,
                path.push(#[trigger] names[j]),
            ) by {
                assert(names.contains(names[j]));
                assert(listed(m, path).contains(names[j]));
            }
            lemma_remove_members_empty(m, root, *inner, path, names, names.len());
            if k == key {
            } else if below_member(m, path, k) {
                let name = choose|name: Seq<char>| #[trigger]
                    listed(m, path).contains(name) && encode_path(path.push(name)).is_prefix_of(k);
                assert(names.contains(name));
                let j = choose|j: int| 0 <= j < names.len() && names[j] == name;
                assert(encode_path(path.push(names[j])).is_prefix_of(k));
            } else {
                assert forall|j: int| 0 <= j < names.len() implies !encode_path(
                    path.push(#[trigger] names[j]),
                ).is_prefix_of(k) by {
                    if encode_path(path.push(names[j])).is_prefix_of(k) {
                        assert(names.contains(names[j]));
                        assert(listed(m, path).contains(names[j]));
                    }
                }
                lemma_remove_members_frame(m, root, *inner, path, names, names.len(), k);
                assert(lookup(emptied, k) == lookup(m, k));
                if m.dom().contains(k) {
                    assert(k == key || below_member(m, path, k));
                }
            }
        },
    }
}

/// After the first `n` fields of a document have been removed, each of
/// them tidy, no key is left at or below any of them.
pub proof fn lemma_remove_fields_empty(
    m: Contents,
    root: SchemaItem,
    fields: Seq<(String, SchemaItem)>,
    path: Path,
    n: nat,
)
    requires
        distinct_field_names(fields),
        forall|i: int|
            0 <= i < fields.len() ==> name_fits((#[trigger] fields[i]).0@) && fields[i].1.wf(),
        path_fits(path),
        resolve_spec(root, path) matches Ok(SchemaItem::Document(declared)) && declared@ == fields,
        forall|i: int|
            0 <= i < fields.len() ==> tidy(m, (#[trigger] fields[i]).1, path.push(fields[i].0@)),
        n <= fields.len(),
        remove_fields(m, root, fields, path, n) is Ok,
    ensures
        forall|j: int, k: Seq<u8>|
            0 <= j < n && encode_path(path.push((#[trigger] fields[j]).0@)).is_prefix_of(k)
                ==> !#[trigger] remove_fields(m, root, fields, path, n)->Ok_0.dom().contains(k),
    decreases fields, 1nat, n,
{
    if n > 0 {
        let before = remove_fields(m, root, fields, path, (n - 1) as nat)->Ok_0;
        let after = remove_fields(m, root, fields, path, n)->Ok_0;
        let name = fields[n - 1].0@;
        let field = fields[n - 1].1;
        let child = path.push(name);
        lemma_remove_fields_empty(m, root, fields, path, (n - 1) as nat);
        lemma_field_index_distinct(fields, n - 1);
        lemma_resolve_child(root, path, name);
        lemma_child_key(path, name);
        assert(path_fits(child));
        // The field is untouched so far, so its keys are still tidy.
        assert(same_below(m, before, encode_path(child))) by {
            assert forall|q: Seq<u8>| encode_path(child).is_prefix_of(q) implies lookup(m, q)
                == lookup(before, q) by {
                assert forall|j: int| 0 <= j < n - 1 && j < fields.len() implies !encode_path(
                    path.push((#[trigger] fields[j]).0@),
                ).is_prefix_of(q) by {
                    lemma_siblings_apart(path, name, fields[j].0@, q);
                }
                lemma_below_child(path, name, q);
                lemma_remove_fields_frame(m, root, fields, path, (n - 1) as nat, q);
            }
        }
        lemma_tidy_local(m, before, field, child);
        assert forall|j: int, k: Seq<u8>|
            0 <= j < n && encode_path(path.push((#[trigger] fields[j]).0@)).is_prefix_of(
                k,
            ) implies !#[trigger] after.dom().contains(k) by {
            if j == n - 1 {
                lemma_remove_empties(before, root, field, child, k);
            } else {
                assert(!before.dom().contains(k));
                lemma_siblings_apart(path, fields[j].0@, name, k);
                lemma_below_child(path, fields[j].0@, k);
                assert(child.drop_last() =~= path);
                lemma_remove_frame(before, root, field, child, k);
            }
        }
    }
}

/// After the first `n` listed members of a collection have been removed,
/// each of them tidy, no key is left at or below any of them.
pub proof fn lemma_remove_members_empty(
    m: Contents,
    root: SchemaItem,
    inner: SchemaItem,
    path: Path,
    names: Seq<Seq<char>>,
    n: nat,
)
    requires
        inner.wf(),
        path_fits(path),
        path_fits(names),
        names.no_duplicates(),
        resolve_spec(root, path) matches Ok(SchemaItem::Collection(kind)) && *kind == inner,
        forall|j: int| 0 <= j < names.len() ==> tidy(m, inner, path.push(#[trigger] names[j])),
        n <= names.len(),
        remove_members(m, root, inner, path, names, n) is Ok,
    ensures
        forall|j: int, k: Seq<u8>|
            0 <= j < n && encode_path(path.push(#[trigger] names[j])).is_prefix_of(k)
                ==> !#[trigger] remove_members(m, root, inner, path, names, n)->Ok_0.dom().contains(
                k,
            ),
    decreases inner, 1nat, n,
{
    if n > 0 {
        let before = remove_members(m, root, inner, path, names, (n - 1) as nat)->Ok_0;
        let after = remove_members(m, root, inner, path, names, n)->Ok_0;
        let name = names[n - 1];
        let child = path.push(name);
        lemma_remove_members_empty(m, root, inner, path, names, (n - 1) as nat);
        lemma_resolve_child(root, path, name);
        lemma_child_key(path, name);
        assert(name_fits(name));
        assert(path_fits(child));
        assert(same_below(m, before, encode_path(child))) by {
            assert forall|q: Seq<u8>| encode_path(child).is_prefix_of(q) implies lookup(m, q)
                == lookup(before, q) by {
                assert forall|j: int| 0 <= j < n - 1 && j < names.len() implies !encode_path(
                    path.push(#[trigger] names[j]),
                ).is_prefix_of(q) by {
                    assert(name_fits(names[j]));
                    lemma_siblings_apart(path, name, names[j], q);
                }
                lemma_below_child(path, name, q);
                lemma_remove_members_frame(m, root, inner, path, names, (n - 1) as nat, q);
            }
        }
        lemma_tidy_local(m, before, inner, child);
        assert forall|j: int, k: Seq<u8>|
            0 <= j < n && encode_path(path.push(#[trigger] names[j])).is_prefix_of(
                k,
            ) implies !#[trigger] after.dom().contains(k) by {
            if j == n - 1 {
                lemma_remove_empties(before, root, inner, child, k);
            } else {
                assert(!before.dom().contains(k));
                assert(name_fits(names[j]));
                lemma_siblings_apart(path, names[j], name, k);
                lemma_below_child(path, names[j], k);
                assert(child.drop_last() =~= path);
                lemma_remove_frame(before, root, inner, child, k);
            }
        }
    }
}

/// After a removal of a path whose keys were tidy has gone through,
/// nothing is stored at or below the path.
pub proof fn lemma_nothing_left_after_remove(m: Contents, root: SchemaItem, path: Path)
    requires
        root.wf(),
        path_fits(path),
        path.len() >= 1,
        remove_outcome(m, root, path) is Ok,
        tidy(m, resolve_spec(root, path)->Ok_0, path),
    ensures
        !present(remove_outcome(m, root, path)->Ok_0, path.drop_last(), path.last()),
{
    let item = resolve_spec(root, path)->Ok_0;
    let after = remove_outcome(m, root, path)->Ok_0;
    lemma_resolve_wf(root, path);
    assert(path.drop_last().push(path.last()) =~= path);
    if present(after, path.drop_last(), path.last()) {
        let k = choose|k: Seq<u8>| #[trigger]
            after.dom().contains(k) && encode_path(
                path.drop_last().push(path.last()),
            ).is_prefix_of(k);
        lemma_remove_empties(m, root, item, path, k);
    }
}

} // verus!
