//! The membership value of a collection against what is stored below it.

use crate::codec::{
    encode_path, is_ancestor, lemma_ancestor_key_is_prefix, lemma_component_len,
    lemma_same_key_below, name_fits, path_fits,
};
use crate::frames::{
    lemma_below_child, lemma_child_key, lemma_insert_frame, lemma_link_frame,
    lemma_siblings_apart, lemma_write_frame, same_below,
};
use crate::index::lemma_members_round_trip;
use crate::frames::{lemma_clear_frame, lemma_outside_is_below_no_child, lemma_remove_frame};
use crate::model::{clear_spec, remove_outcome, remove_spec, unlink_spec};
use crate::model::{
    distinct, index_bytes, index_fits, index_names, insert_entries, insert_members,
    insert_outcome, insert_spec, link_spec, member_names, take_names, update_entries,
    update_members, update_outcome, update_spec, without, write_spec, Contents, Path,
};
use crate::schema::{field_index, resolve_spec, SchemaItem};
use crate::store::lookup;
use crate::value::Value;
use vstd::bytes::{lemma_auto_spec_u64_to_from_le_bytes, spec_u64_from_le_bytes};
use vstd::prelude::*;
use vstd::utf8::{decode_utf8, decode_utf8_encode_utf8, encode_utf8, valid_utf8};

verus! {

/// The names that the collection at `path` lists as its members: those of
/// its membership value, none where it has no value.
pub open spec fn listed(m: Contents, path: Path) -> Set<Seq<char>> {
    match lookup(m, encode_path(path)) {
        None => Set::empty(),
        Some(bytes) => match member_names(bytes) {
            Some(names) => names.to_set(),
            None => Set::empty(),
        },
    }
}

/// The membership value of the collection at `path`, where there is one,
/// can be read.
pub open spec fn index_readable(m: Contents, path: Path) -> bool {
    lookup(m, encode_path(path)) matches Some(bytes) ==> member_names(bytes) is Some
}

/// The collection at `path` lists fewer members than a `u64` can count, so
/// that one more can be listed.
pub open spec fn index_has_room(m: Contents, path: Path) -> bool {
    lookup(m, encode_path(path)) matches Some(bytes) ==> (member_names(bytes) matches Some(names)
        ==> names.len() < u64::MAX)
}

/// Something is stored at or below the child `name` of `path`.
pub open spec fn present(m: Contents, path: Path, name: Seq<char>) -> bool {
    exists|k: Seq<u8>| #[trigger] m.dom().contains(k) && encode_path(path.push(name)).is_prefix_of(k)
}

/// The collection at `path` lists exactly the names below which something
/// is stored.
pub open spec fn index_sound(m: Contents, path: Path) -> bool {
    &&& index_readable(m, path)
    &&& forall|name: Seq<char>|
        name_fits(name) ==> (#[trigger] listed(m, path).contains(name) <==> present(m, path, name))
}

/// Names that were read from bytes are of a size that fits.
pub proof fn lemma_taken_fit(bytes: Seq<u8>, count: nat)
    requires
        take_names(bytes, count) is Some,
    ensures
        path_fits(take_names(bytes, count)->Some_0),
        take_names(bytes, count)->Some_0.len() == count,
    decreases count,
{
    if count > 0 {
        let n = spec_u64_from_le_bytes(bytes.subrange(0, 8)) as int;
        let body = bytes.subrange(8, 8 + n);
        let tail = bytes.subrange(8 + n, bytes.len() as int);
        let rest = take_names(tail, (count - 1) as nat)->Some_0;
        let names = take_names(bytes, count)->Some_0;
        lemma_taken_fit(tail, (count - 1) as nat);
        decode_utf8_encode_utf8(body);
        assert(names =~= seq![decode_utf8(body)] + rest);
        assert forall|i: int| 0 <= i < names.len() implies name_fits(#[trigger] names[i]) by {
            if i > 0 {
                assert(names[i] == rest[i - 1]);
            }
        }
    }
}

/// The list of distinct names of a list has no name twice, holds the same
/// names, and is no longer.
pub proof fn lemma_distinct_props(names: Seq<Seq<char>>)
    ensures
        distinct(names).no_duplicates(),
        distinct(names).len() <= names.len(),
        forall|x: Seq<char>| distinct(names).contains(x) <==> names.contains(x),
        path_fits(names) ==> path_fits(distinct(names)),
    decreases names.len(),
{
    if names.len() > 0 {
        let init = names.drop_last();
        let last = names.last();
        lemma_distinct_props(init);
        let kept = distinct(init);
        let all = distinct(names);
        assert forall|x: Seq<char>| all.contains(x) <==> names.contains(x) by {
            if names.contains(x) {
                let i = choose|i: int| 0 <= i < names.len() && names[i] == x;
                if i < names.len() - 1 {
                    assert(init[i] == x);
                    assert(init.contains(x));
                    assert(kept.contains(x));
                    let j = choose|j: int| 0 <= j < kept.len() && kept[j] == x;
                    assert(all[j] == x);
                } else {
                    if !kept.contains(last) {
                        assert(all[all.len() - 1] == x);
                    }
                }
            }
            if all.contains(x) {
                let j = choose|j: int| 0 <= j < all.len() && all[j] == x;
                if j < kept.len() {
                    assert(kept[j] == x);
                    assert(init.contains(x));
                    let i = choose|i: int| 0 <= i < init.len() && init[i] == x;
                    assert(names[i] == x);
                } else {
                    assert(names[names.len() - 1] == x);
                }
            }
        }
        if path_fits(names) {
            assert(path_fits(init)) by {
                assert forall|i: int| 0 <= i < init.len() implies name_fits(#[trigger] init[i]) by {
                    assert(init[i] == names[i]);
                }
            }
            assert forall|i: int| 0 <= i < all.len() implies name_fits(#[trigger] all[i]) by {
                if i < kept.len() {
                    assert(all[i] == kept[i]);
                } else {
                    assert(all[i] == names[names.len() - 1]);
                }
            }
        }
    }
}

/// The members that a stored membership value lists are of a size that
/// fits, each listed once, and no more than a `u64` can count.
pub proof fn lemma_members_fit(bytes: Seq<u8>)
    requires
        member_names(bytes) is Some,
    ensures
        path_fits(member_names(bytes)->Some_0),
        member_names(bytes)->Some_0.no_duplicates(),
        member_names(bytes)->Some_0.len() <= u64::MAX,
{
    let names = index_names(bytes)->Some_0;
    lemma_taken_fit(
        bytes.subrange(8, bytes.len() as int),
        spec_u64_from_le_bytes(bytes.subrange(0, 8)) as nat,
    );
    lemma_distinct_props(names);
}

/// An insert takes no key away.
pub proof fn lemma_insert_grows(
    m: Contents,
    root: SchemaItem,
    item: SchemaItem,
    path: Path,
    val: Value,
    k: Seq<u8>,
)
    requires
        insert_spec(m, root, item, path, val) is Ok,
        m.dom().contains(k),
    ensures
        insert_spec(m, root, item, path, val)->Ok_0.dom().contains(k),
    decreases item, 0nat, 1nat,
{
    lemma_write_grows(m, root, item, path, val, k);
}

/// Writing a value takes no key away.
pub proof fn lemma_write_grows(
    m: Contents,
    root: SchemaItem,
    item: SchemaItem,
    path: Path,
    val: Value,
    k: Seq<u8>,
)
    requires
        write_spec(m, root, item, path, val) is Ok,
        m.dom().contains(k),
    ensures
        write_spec(m, root, item, path, val)->Ok_0.dom().contains(k),
    decreases item, 0nat, 0nat,
{
    match item {
        SchemaItem::Scalar => {},
        SchemaItem::Document(fields) => {
            match val {
                Value::Object(entries) => {
                    lemma_insert_entries_grow(
                        m.insert(encode_path(path), crate::model::presence_mark()),
                        root,
                        fields@,
                        path,
                        entries@,
                        entries@.len(),
                        k,
                    );
                },
                _ => {},
            }
        },
        SchemaItem::Collection(inner) => {
            match val {
                Value::Object(entries) => {
                    lemma_insert_members_grow(m, root, *inner, path, entries@, entries@.len(), k);
                },
                _ => {},
            }
        },
    }
}

/// Writing fields takes no key away.
pub proof fn lemma_insert_entries_grow(
    m: Contents,
    root: SchemaItem,
    fields: Seq<(String, SchemaItem)>,
    path: Path,
    entries: Seq<(String, Value)>,
    n: nat,
    k: Seq<u8>,
)
    requires
        insert_entries(m, root, fields, path, entries, n) is Ok,
        m.dom().contains(k),
    ensures
        insert_entries(m, root, fields, path, entries, n)->Ok_0.dom().contains(k),
    decreases fields, 1nat, n,
{
    if n == 0 || n > entries.len() {
    } else {
        lemma_insert_entries_grow(m, root, fields, path, entries, (n - 1) as nat, k);
        let written = insert_entries(m, root, fields, path, entries, (n - 1) as nat)->Ok_0;
        let name = entries[n - 1].0@;
        let i = field_index(fields, name, 0)->Some_0;
        lemma_insert_grows(written, root, fields[i].1, path.push(name), entries[n - 1].1, k);
    }
}

/// Writing members takes no key away.
pub proof fn lemma_insert_members_grow(
    m: Contents,
    root: SchemaItem,
    inner: SchemaItem,
    path: Path,
    entries: Seq<(String, Value)>,
    n: nat,
    k: Seq<u8>,
)
    requires
        insert_members(m, root, inner, path, entries, n) is Ok,
        m.dom().contains(k),
    ensures
        insert_members(m, root, inner, path, entries, n)->Ok_0.dom().contains(k),
    decreases inner, 1nat, n,
{
    if n == 0 || n > entries.len() {
    } else {
        lemma_insert_members_grow(m, root, inner, path, entries, (n - 1) as nat, k);
        let written = insert_members(m, root, inner, path, entries, (n - 1) as nat)->Ok_0;
        lemma_insert_grows(written, root, inner, path.push(entries[n - 1].0@), entries[n - 1].1, k);
    }
}

/// The key of a path that lies strictly above another is a proper prefix of
/// the other's key.
pub proof fn lemma_strictly_above(above: Path, below: Path)
    requires
        is_ancestor(above, below),
        above.len() < below.len(),
    ensures
        encode_path(above).is_prefix_of(encode_path(below)),
        encode_path(above).len() < encode_path(below).len(),
        !encode_path(below).is_prefix_of(encode_path(above)),
        encode_path(above) != encode_path(below),
{
    lemma_ancestor_key_is_prefix(above, below);
    if encode_path(above).len() >= encode_path(below).len() {
        assert(encode_path(above) =~= encode_path(below));
        lemma_same_key_below(above, below);
    }
}

/// Two maps that hold the same below a child store something below it
/// or not alike.
pub proof fn lemma_present_same(m1: Contents, m2: Contents, path: Path, name: Seq<char>)
    requires
        same_below(m1, m2, encode_path(path.push(name))),
    ensures
        present(m1, path, name) == present(m2, path, name),
{
    if present(m1, path, name) {
        let k = choose|k: Seq<u8>| #[trigger]
            m1.dom().contains(k) && encode_path(path.push(name)).is_prefix_of(k);
        assert(lookup(m1, k) == lookup(m2, k));
        assert(m2.dom().contains(k));
    }
    if present(m2, path, name) {
        let k = choose|k: Seq<u8>| #[trigger]
            m2.dom().contains(k) && encode_path(path.push(name)).is_prefix_of(k);
        assert(lookup(m1, k) == lookup(m2, k));
        assert(m1.dom().contains(k));
    }
}

/// The names of a list with one more name are those of the list and that
/// name.
pub proof fn lemma_push_to_set(names: Seq<Seq<char>>, name: Seq<char>)
    ensures
        names.push(name).to_set() == names.to_set().insert(name),
{
    let more = names.push(name);
    assert forall|x: Seq<char>| more.to_set().contains(x) <==> names.to_set().insert(
        name,
    ).contains(x) by {
        if more.contains(x) {
            let i = choose|i: int| 0 <= i < more.len() && more[i] == x;
            if i < names.len() {
                assert(names[i] == x);
            }
        }
        if names.contains(x) {
            let i = choose|i: int| 0 <= i < names.len() && names[i] == x;
            assert(more[i] == x);
        }
        if x == name {
            assert(more[names.len() as int] == x);
        }
    }
    assert(more.to_set() =~= names.to_set().insert(name));
}

/// After an insert at a path has gone through, a collection above the
/// path that listed exactly the names below which something was stored
/// still does so. This holds under a schema whose root is a document,
/// where the collection is the parent of the path and the path is a
/// document or something is stored at or below it after the insert (an
/// empty record at a collection stores nothing), or where the collection
/// lies further up and lists the name that leads to the path already: an
/// insert adds a name to the parent's members only.
pub proof fn law_index_after_insert(m: Contents, root: SchemaItem, path: Path, val: Value, c: int)
    requires
        root is Document,
        path_fits(path),
        0 <= c < path.len(),
        resolve_spec(root, path.subrange(0, c)) matches Ok(SchemaItem::Collection(_)),
        index_sound(m, path.subrange(0, c)),
        index_has_room(m, path.subrange(0, c)),
        insert_outcome(m, root, path, val) is Ok,
        c < path.len() - 1 ==> listed(m, path.subrange(0, c)).contains(path[c]),
        c == path.len() - 1 ==> (resolve_spec(root, path) matches Ok(SchemaItem::Document(_)))
            || present(insert_outcome(m, root, path, val)->Ok_0, path.subrange(0, c), path[c]),
    ensures
        index_sound(insert_outcome(m, root, path, val)->Ok_0, path.subrange(0, c)),
{
    let above = path.subrange(0, c);
    let x = path[c];
    let way = above.push(x);
    let parent = path.drop_last();
    let item = resolve_spec(root, path)->Ok_0;
    let written = write_spec(m, root, item, path, val)->Ok_0;
    let after = insert_spec(m, root, item, path, val)->Ok_0;
    let key = encode_path(above);
    assert(c >= 1) by {
        if c == 0 {
            assert(above =~= Seq::<Seq<char>>::empty());
        }
    }
    assert(way =~= path.subrange(0, c + 1));
    assert(is_ancestor(way, path));
    assert(is_ancestor(above, parent)) by {
        assert(above =~= parent.subrange(0, c));
    }
    assert(path_fits(above) && name_fits(x));
    lemma_ancestor_key_is_prefix(way, path);
    lemma_strictly_above(above, path);
    assert(parent.push(path.last()) =~= path);
    lemma_child_key(parent, path.last());
    // Below every other child of the collection nothing changes.
    assert forall|y: Seq<char>| name_fits(y) && y != x implies same_below(
        m,
        after,
        encode_path(above.push(y)),
    ) by {
        assert forall|k: Seq<u8>| encode_path(above.push(y)).is_prefix_of(k) implies lookup(m, k)
            == lookup(after, k) by {
            lemma_siblings_apart(above, y, x, k);
            lemma_below_child(above, y, k);
            if encode_path(path).is_prefix_of(k) {
                assert(encode_path(way) =~= encode_path(path).subrange(
                    0,
                    encode_path(way).len() as int,
                ));
                assert(encode_path(path) =~= k.subrange(0, encode_path(path).len() as int));
                assert(encode_path(way) =~= k.subrange(0, encode_path(way).len() as int));
            }
            if c < path.len() - 1 {
                assert(is_ancestor(way, parent)) by {
                    assert(way =~= parent.subrange(0, c + 1));
                }
                lemma_ancestor_key_is_prefix(way, parent);
            } else {
                assert(parent =~= above);
            }
            lemma_insert_frame(m, root, item, path, val, k);
        }
    }
    if c < path.len() - 1 {
        lemma_strictly_above(above, parent);
        lemma_insert_frame(m, root, item, path, val, key);
        assert(lookup(after, key) == lookup(m, key));
        assert(listed(after, above) == listed(m, above));
        // The name that leads to the path is listed, and still present.
        assert(present(m, above, x));
        let k = choose|k: Seq<u8>| #[trigger]
            m.dom().contains(k) && encode_path(above.push(x)).is_prefix_of(k);
        lemma_insert_grows(m, root, item, path, val, k);
        assert(after.dom().contains(k));
        assert(present(after, above, x));
        assert forall|y: Seq<char>| name_fits(y) implies (#[trigger] listed(after, above).contains(
            y,
        ) <==> present(after, above, y)) by {
            if y != x {
                lemma_present_same(m, after, above, y);
            }
        }
    } else {
        assert(parent =~= above);
        assert(path.last() == x);
        assert(way =~= path);
        if item is Document {
            let fields = item->Document_0;
            let entries = val->Object_0;
            lemma_insert_entries_grow(
                m.insert(encode_path(path), crate::model::presence_mark()),
                root,
                fields@,
                path,
                entries@,
                entries@.len(),
                encode_path(path),
            );
            assert(after.dom().contains(encode_path(path)));
            assert(encode_path(path).is_prefix_of(encode_path(path)));
        }
        assert(present(after, above, x));
        lemma_write_frame(m, root, item, path, val, key);
        assert(lookup(written, key) == lookup(m, key));
        match lookup(m, key) {
            None => {
                assert(seq![x].no_duplicates());
                assert(index_fits(seq![x])) by {
                    assert forall|i: int| 0 <= i < seq![x].len() implies name_fits(
                        #[trigger] seq![x][i],
                    ) by {}
                }
                lemma_members_round_trip(seq![x]);
                lemma_push_to_set(Seq::<Seq<char>>::empty(), x);
                assert(Seq::<Seq<char>>::empty().push(x) =~= seq![x]);
                assert(Seq::<Seq<char>>::empty().to_set() =~= Set::<Seq<char>>::empty());
                assert(listed(after, above) == listed(m, above).insert(x));
            },
            Some(bytes) => {
                let names = member_names(bytes)->Some_0;
                lemma_members_fit(bytes);
                if names.contains(x) {
                    assert(listed(after, above) == listed(m, above));
                    assert(listed(m, above).insert(x) =~= listed(m, above));
                } else {
                    let more = names.push(x);
                    assert(more.no_duplicates()) by {
                        assert forall|i: int, j: int|
                            0 <= i < more.len() && 0 <= j < more.len() && i != j implies more[i]
                            != more[j] by {
                            if i < names.len() && j < names.len() {
                                assert(names[i] != names[j]);
                            } else if i < names.len() {
                                assert(names.contains(names[i]));
                            } else {
                                assert(names.contains(names[j]));
                            }
                        }
                    }
                    assert(index_fits(more)) by {
                        assert forall|i: int| 0 <= i < more.len() implies name_fits(
                            #[trigger] more[i],
                        ) by {
                            if i < names.len() {
                                assert(more[i] == names[i]);
                            }
                        }
                    }
                    lemma_members_round_trip(more);
                    lemma_push_to_set(names, x);
                    assert(listed(after, above) == listed(m, above).insert(x));
                }
            },
        }
        assert forall|y: Seq<char>| name_fits(y) implies (#[trigger] listed(after, above).contains(
            y,
        ) <==> present(after, above, y)) by {
            if y != x {
                lemma_present_same(m, after, above, y);
            }
        }
    }
}

/// An update at `path` touches only keys below the key of `path`, and
/// neither adds a key nor takes one away.
pub proof fn lemma_update_frame(m: Contents, item: SchemaItem, path: Path, val: Value, k: Seq<u8>)
    requires
        update_spec(m, item, path, val) is Ok,
    ensures
        update_spec(m, item, path, val)->Ok_0.dom().contains(k) == m.dom().contains(k),
        !encode_path(path).is_prefix_of(k) ==> lookup(update_spec(m, item, path, val)->Ok_0, k)
            == lookup(m, k),
    decreases item, 0nat, 0nat,
{
    if !encode_path(path).is_prefix_of(k) {
        lemma_outside_is_below_no_child(path, k);
    }
    match item {
        SchemaItem::Scalar => {},
        SchemaItem::Document(fields) => {
            match val {
                Value::Object(entries) => {
                    lemma_update_entries_frame(m, fields@, path, entries@, entries@.len(), k);
                },
                _ => {},
            }
        },
        SchemaItem::Collection(inner) => {
            match val {
                Value::Object(entries) => {
                    let names = member_names(lookup(m, encode_path(path))->Some_0)->Some_0;
                    lemma_update_members_frame(
                        m,
                        *inner,
                        path,
                        names,
                        entries@,
                        entries@.len(),
                        k,
                    );
                },
                _ => {},
            }
        },
    }
}

/// Updating fields of the document at `path` touches only keys below the
/// keys of those fields, and neither adds a key nor takes one away.
pub proof fn lemma_update_entries_frame(
    m: Contents,
    fields: Seq<(String, SchemaItem)>,
    path: Path,
    entries: Seq<(String, Value)>,
    n: nat,
    k: Seq<u8>,
)
    requires
        update_entries(m, fields, path, entries, n) is Ok,
    ensures
        update_entries(m, fields, path, entries, n)->Ok_0.dom().contains(k) == m.dom().contains(k),
        (forall|j: int|
            0 <= j < n && j < entries.len() ==> !encode_path(
                path.push((#[trigger] entries[j]).0@),
            ).is_prefix_of(k)) ==> lookup(update_entries(m, fields, path, entries, n)->Ok_0, k)
            == lookup(m, k),
    decreases fields, 1nat, n,
{
    if n == 0 || n > entries.len() {
    } else {
        lemma_update_entries_frame(m, fields, path, entries, (n - 1) as nat, k);
        let written = update_entries(m, fields, path, entries, (n - 1) as nat)->Ok_0;
        let name = entries[n - 1].0@;
        let i = field_index(fields, name, 0)->Some_0;
        lemma_update_frame(written, fields[i].1, path.push(name), entries[n - 1].1, k);
        if forall|j: int|
            0 <= j < n && j < entries.len() ==> !encode_path(
                path.push((#[trigger] entries[j]).0@),
            ).is_prefix_of(k) {
            assert(!encode_path(path.push(entries[n - 1].0@)).is_prefix_of(k));
        }
    }
}

/// Updating members of the collection at `path` touches only keys below
/// the keys of those members, and neither adds a key nor takes one away.
pub proof fn lemma_update_members_frame(
    m: Contents,
    inner: SchemaItem,
    path: Path,
    names: Seq<Seq<char>>,
    entries: Seq<(String, Value)>,
    n: nat,
    k: Seq<u8>,
)
    requires
        update_members(m, inner, path, names, entries, n) is Ok,
    ensures
        update_members(m, inner, path, names, entries, n)->Ok_0.dom().contains(k)
            == m.dom().contains(k),
        (forall|j: int|
            0 <= j < n && j < entries.len() ==> !encode_path(
                path.push((#[trigger] entries[j]).0@),
            ).is_prefix_of(k)) ==> lookup(
            update_members(m, inner, path, names, entries, n)->Ok_0,
            k,
        ) == lookup(m, k),
    decreases inner, 1nat, n,
{
    if n == 0 || n > entries.len() {
    } else {
        lemma_update_members_frame(m, inner, path, names, entries, (n - 1) as nat, k);
        let written = update_members(m, inner, path, names, entries, (n - 1) as nat)->Ok_0;
        lemma_update_frame(written, inner, path.push(entries[n - 1].0@), entries[n - 1].1, k);
        if forall|j: int|
            0 <= j < n && j < entries.len() ==> !encode_path(
                path.push((#[trigger] entries[j]).0@),
            ).is_prefix_of(k) {
            assert(!encode_path(path.push(entries[n - 1].0@)).is_prefix_of(k));
        }
    }
}

/// After an update at a path has gone through, a collection above the
/// path that listed exactly the names below which something was stored
/// still does so: an update adds no key and takes none away, and leaves the
/// collection's members as they were.
pub proof fn law_index_after_update(m: Contents, root: SchemaItem, path: Path, val: Value, c: int)
    requires
        0 <= c < path.len(),
        index_sound(m, path.subrange(0, c)),
        update_outcome(m, root, path, val) is Ok,
    ensures
        index_sound(update_outcome(m, root, path, val)->Ok_0, path.subrange(0, c)),
        listed(update_outcome(m, root, path, val)->Ok_0, path.subrange(0, c)) == listed(
            m,
            path.subrange(0, c),
        ),
{
    let above = path.subrange(0, c);
    let item = resolve_spec(root, path)->Ok_0;
    let after = update_spec(m, item, path, val)->Ok_0;
    lemma_strictly_above(above, path);
    lemma_update_frame(m, item, path, val, encode_path(above));
    assert(lookup(after, encode_path(above)) == lookup(m, encode_path(above)));
    assert(listed(after, above) == listed(m, above));
    assert forall|y: Seq<char>| name_fits(y) implies (#[trigger] listed(after, above).contains(y)
        <==> present(after, above, y)) by {
        assert(listed(m, above).contains(y) <==> present(m, above, y));
        if present(m, above, y) {
            let k = choose|k: Seq<u8>| #[trigger]
                m.dom().contains(k) && encode_path(above.push(y)).is_prefix_of(k);
            lemma_update_frame(m, item, path, val, k);
            assert(after.dom().contains(k));
        }
        if present(after, above, y) {
            let k = choose|k: Seq<u8>| #[trigger]
                after.dom().contains(k) && encode_path(above.push(y)).is_prefix_of(k);
            lemma_update_frame(m, item, path, val, k);
            assert(m.dom().contains(k));
        }
    }
}

/// The names of a list without one name: no name twice where the list had
/// none twice, of sizes that fit where the list's did, no more than the
/// list had, and exactly its names but that one.
pub proof fn lemma_without_props(names: Seq<Seq<char>>, name: Seq<char>)
    ensures
        names.no_duplicates() ==> without(names, name).no_duplicates(),
        path_fits(names) ==> path_fits(without(names, name)),
        without(names, name).len() <= names.len(),
        forall|x: Seq<char>|
            without(names, name).contains(x) <==> names.contains(x) && x != name,
    decreases names.len(),
{
    if names.len() > 0 {
        let init = names.drop_last();
        let last = names.last();
        lemma_without_props(init, name);
        let kept = without(init, name);
        let all = without(names, name);
        assert forall|x: Seq<char>| all.contains(x) <==> names.contains(x) && x != name by {
            if names.contains(x) && x != name {
                let i = choose|i: int| 0 <= i < names.len() && names[i] == x;
                if i < names.len() - 1 {
                    assert(init[i] == x);
                    assert(init.contains(x));
                    assert(kept.contains(x));
                    let j = choose|j: int| 0 <= j < kept.len() && kept[j] == x;
                    assert(all[j] == x);
                } else {
                    assert(all[all.len() - 1] == x);
                }
            }
            if all.contains(x) {
                let j = choose|j: int| 0 <= j < all.len() && all[j] == x;
                if j < kept.len() {
                    assert(kept[j] == x);
                    assert(kept.contains(x));
                    assert(init.contains(x));
                    let i = choose|i: int| 0 <= i < init.len() && init[i] == x;
                    assert(names[i] == x);
                } else {
                    assert(names[names.len() - 1] == x);
                }
            }
        }
        if names.no_duplicates() {
            assert(init.no_duplicates()) by {
                assert forall|i: int, j: int|
                    0 <= i < init.len() && 0 <= j < init.len() && i != j implies init[i]
                    != init[j] by {
                    assert(init[i] == names[i]);
                    assert(init[j] == names[j]);
                }
            }
            assert forall|i: int, j: int|
                0 <= i < all.len() && 0 <= j < all.len() && i != j implies all[i] != all[j] by {
                if i < kept.len() && j < kept.len() {
                    assert(kept[i] != kept[j]);
                } else {
                    let old = if i < kept.len() { i } else { j };
                    assert(kept.contains(kept[old]));
                    assert(init.contains(kept[old]));
                    let t = choose|t: int| 0 <= t < init.len() && init[t] == kept[old];
                    assert(names[t] == kept[old]);
                    assert(names[names.len() - 1] == last);
                }
            }
        }
        if path_fits(names) {
            assert(path_fits(init)) by {
                assert forall|i: int| 0 <= i < init.len() implies name_fits(#[trigger] init[i]) by {
                    assert(init[i] == names[i]);
                }
            }
            assert forall|i: int| 0 <= i < all.len() implies name_fits(#[trigger] all[i]) by {
                if i < kept.len() {
                    assert(all[i] == kept[i]);
                } else {
                    assert(all[i] == names[names.len() - 1]);
                }
            }
        }
    }
}

/// After a removal of a path has gone through, a collection above the
/// path that listed exactly the names below which something was stored
/// still does so. This holds under a schema whose root is a document,
/// where the collection is the parent of the path and the keys at or
/// below the path were tidy, so that nothing is left there after the
/// removal, or where the collection lies further up, lists the name that
/// leads to the path, and the member of that name holds a key of its own:
/// a removal takes a name out of the parent's members only.
pub proof fn law_index_after_remove(m: Contents, root: SchemaItem, path: Path, c: int)
    requires
        root is Document,
        path_fits(path),
        0 <= c < path.len(),
        resolve_spec(root, path.subrange(0, c)) matches Ok(SchemaItem::Collection(_)),
        index_sound(m, path.subrange(0, c)),
        remove_outcome(m, root, path) is Ok,
        c < path.len() - 1 ==> listed(m, path.subrange(0, c)).contains(path[c]) && m.dom().contains(
            encode_path(path.subrange(0, c + 1)),
        ),
        c == path.len() - 1 ==> (root.wf() && crate::tidy::tidy(
            m,
            resolve_spec(root, path)->Ok_0,
            path,
        )) || !present(remove_outcome(m, root, path)->Ok_0, path.subrange(0, c), path[c]),
    ensures
        index_sound(remove_outcome(m, root, path)->Ok_0, path.subrange(0, c)),
{
    let above = path.subrange(0, c);
    let x = path[c];
    let way = above.push(x);
    let parent = path.drop_last();
    let item = resolve_spec(root, path)->Ok_0;
    let cleared = clear_spec(m, root, item, path)->Ok_0;
    let after = remove_spec(m, root, item, path)->Ok_0;
    let key = encode_path(above);
    assert(c >= 1) by {
        if c == 0 {
            assert(above =~= Seq::<Seq<char>>::empty());
        }
    }
    assert(way =~= path.subrange(0, c + 1));
    assert(is_ancestor(way, path));
    assert(is_ancestor(above, parent)) by {
        assert(above =~= parent.subrange(0, c));
    }
    assert(path_fits(above) && name_fits(x));
    lemma_ancestor_key_is_prefix(way, path);
    lemma_strictly_above(above, path);
    assert(parent.push(path.last()) =~= path);
    lemma_child_key(parent, path.last());
    // Below every other child of the collection nothing changes.
    assert forall|y: Seq<char>| name_fits(y) && y != x implies same_below(
        m,
        after,
        encode_path(above.push(y)),
    ) by {
        assert forall|k: Seq<u8>| encode_path(above.push(y)).is_prefix_of(k) implies lookup(m, k)
            == lookup(after, k) by {
            lemma_siblings_apart(above, y, x, k);
            lemma_below_child(above, y, k);
            if encode_path(path).is_prefix_of(k) {
                assert(encode_path(way) =~= encode_path(path).subrange(
                    0,
                    encode_path(way).len() as int,
                ));
                assert(encode_path(path) =~= k.subrange(0, encode_path(path).len() as int));
                assert(encode_path(way) =~= k.subrange(0, encode_path(way).len() as int));
            }
            if c < path.len() - 1 {
                assert(is_ancestor(way, parent)) by {
                    assert(way =~= parent.subrange(0, c + 1));
                }
                lemma_ancestor_key_is_prefix(way, parent);
            } else {
                assert(parent =~= above);
            }
            lemma_remove_frame(m, root, item, path, k);
        }
    }
    if c < path.len() - 1 {
        lemma_strictly_above(above, parent);
        lemma_remove_frame(m, root, item, path, key);
        assert(lookup(after, key) == lookup(m, key));
        assert(listed(after, above) == listed(m, above));
        // The member that leads to the path keeps or regains its own key.
        let own = encode_path(way);
        assert(is_ancestor(way, parent)) by {
            assert(way =~= parent.subrange(0, c + 1));
        }
        lemma_strictly_above(way, path);
        assert(after.dom().contains(own)) by {
            if way.len() < parent.len() {
                lemma_strictly_above(way, parent);
                lemma_remove_frame(m, root, item, path, own);
            } else {
                assert(way =~= parent);
                if resolve_spec(root, parent) matches Ok(SchemaItem::Collection(_)) {
                } else {
                    lemma_remove_frame(m, root, item, path, own);
                }
            }
        }
        assert(own.is_prefix_of(own));
        assert(present(after, above, x));
        assert forall|y: Seq<char>| name_fits(y) implies (#[trigger] listed(after, above).contains(
            y,
        ) <==> present(after, above, y)) by {
            assert(listed(m, above).contains(y) <==> present(m, above, y));
            if y != x {
                lemma_present_same(m, after, above, y);
            }
        }
    } else {
        assert(parent =~= above);
        assert(path.last() == x);
        if root.wf() && crate::tidy::tidy(m, item, path) {
            crate::tidy::lemma_nothing_left_after_remove(m, root, path);
        }
        assert(!present(after, above, x));
        lemma_clear_frame(m, root, item, path, key);
        assert(lookup(cleared, key) == lookup(m, key));
        match lookup(m, key) {
            None => {
                let none = Seq::<Seq<char>>::empty();
                assert(index_fits(none));
                assert(none.no_duplicates());
                lemma_members_round_trip(none);
                assert(none.to_set() =~= Set::<Seq<char>>::empty());
                assert(listed(after, above) =~= Set::<Seq<char>>::empty());
                assert(listed(m, above) =~= Set::<Seq<char>>::empty());
            },
            Some(bytes) => {
                let names = member_names(bytes)->Some_0;
                lemma_members_fit(bytes);
                lemma_without_props(names, x);
                let fewer = without(names, x);
                assert(index_fits(fewer));
                lemma_members_round_trip(fewer);
                assert(listed(after, above) == fewer.to_set());
                assert(listed(after, above) =~= listed(m, above).remove(x));
            },
        }
        assert forall|y: Seq<char>| name_fits(y) implies (#[trigger] listed(after, above).contains(
            y,
        ) <==> present(after, above, y)) by {
            assert(listed(m, above).contains(y) <==> present(m, above, y));
            if y != x {
                lemma_present_same(m, after, above, y);
            }
        }
    }
}

} // verus!
