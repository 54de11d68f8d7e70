//! A read after an insert gives what was inserted.

use crate::codec::{
    encode_path, lemma_ancestor_key_is_prefix, name_fits, path_fits,
};
use crate::frames::{
    lemma_below_child, lemma_child_key, lemma_get_local, lemma_insert_entries_frame,
    lemma_insert_frame, lemma_insert_members_frame, lemma_link_frame, lemma_same_below_child,
    lemma_siblings_apart, same_below,
};
use crate::index::lemma_members_round_trip;
use crate::model::{
    get_fields, get_members, get_spec, index_bytes, index_fits, insert_entries, insert_members,
    insert_spec, link_spec, member_names, missing_field, presence_mark, undeclared_key,
    write_spec, Contents, Failure, Path,
};
use crate::schema::{
    declares, distinct_field_names, field_index, lemma_field_index, lemma_field_index_distinct,
    lemma_resolve_child, resolve_spec, SchemaItem,
};
use crate::store::lookup;
use crate::value::{
    distinct_keys, has_key, keys_of, lemma_record_dom, lemma_record_value, record_model, Json,
    Value,
};
use vstd::prelude::*;
use vstd::utf8::{encode_utf8_decode_utf8, encode_utf8_valid_utf8};

verus! {

/// The members that the collection at `path` lists, in their order; none
/// where it has no membership value.
pub open spec fn members_of(m: Contents, path: Path) -> Seq<Seq<char>> {
    match lookup(m, encode_path(path)) {
        None => Seq::empty(),
        Some(bytes) => match member_names(bytes) {
            Some(names) => names,
            None => Seq::empty(),
        },
    }
}

/// Every collection that a write of `val` at `path` reaches lists only
/// members that `val` names there, and has room for those that it does not
/// list yet.
pub open spec fn covered(m: Contents, item: SchemaItem, path: Path, val: Value) -> bool
    decreases item,
{
    match item {
        SchemaItem::Scalar => true,
        SchemaItem::Document(fields) => match val {
            Value::Object(entries) => forall|j: int|
                0 <= j < entries@.len() ==> (field_index(fields@, (#[trigger] entries@[j]).0@, 0)
                    matches Some(i) ==> 0 <= i < fields@.len() ==> covered(
                    m,
                    fields@[i].1,
                    path.push(entries@[j].0@),
                    entries@[j].1,
                )),
            _ => true,
        },
        SchemaItem::Collection(inner) => match val {
            Value::Object(entries) => {
                &&& lookup(m, encode_path(path)) matches Some(bytes) ==> member_names(bytes)
                    is Some
                &&& members_of(m, path).len() + entries@.len() <= u64::MAX
                &&& forall|i: int|
                    0 <= i < members_of(m, path).len() ==> has_key(
                        entries@,
                        #[trigger] members_of(m, path)[i],
                    )
                &&& forall|j: int|
                    0 <= j < entries@.len() ==> covered(
                        m,
                        *inner,
                        path.push((#[trigger] entries@[j]).0@),
                        entries@[j].1,
                    )
            },
            _ => true,
        },
    }
}

/// Whether a value is covered at a path depends only on the keys below
/// the key of the path.
pub proof fn lemma_covered_local(
    m1: Contents,
    m2: Contents,
    item: SchemaItem,
    path: Path,
    val: Value,
)
    requires
        same_below(m1, m2, encode_path(path)),
        covered(m1, item, path, val),
    ensures
        covered(m2, item, path, val),
    decreases item,
{
    let key = encode_path(path);
    assert(key.is_prefix_of(key));
    assert(lookup(m1, key) == lookup(m2, key));
    match item {
        SchemaItem::Scalar => {},
        SchemaItem::Document(fields) => {
            match val {
                Value::Object(entries) => {
                    assert forall|j: int| 0 <= j < entries@.len() implies (field_index(
                        fields@,
                        (#[trigger] entries@[j]).0@,
                        0,
                    ) matches Some(i) ==> 0 <= i < fields@.len() ==> covered(
                        m2,
                        fields@[i].1,
                        path.push(entries@[j].0@),
                        entries@[j].1,
                    )) by {
                        match field_index(fields@, entries@[j].0@, 0) {
                            Some(i) => {
                                if 0 <= i < fields@.len() {
                                    lemma_same_below_child(m1, m2, path, entries@[j].0@);
                                    lemma_covered_local(
                                        m1,
                                        m2,
                                        fields@[i].1,
                                        path.push(entries@[j].0@),
                                        entries@[j].1,
                                    );
                                }
                            },
                            None => {},
                        }
                    }
                },
                _ => {},
            }
        },
        SchemaItem::Collection(inner) => {
            match val {
                Value::Object(entries) => {
                    assert(members_of(m1, path) == members_of(m2, path));
                    assert forall|j: int| 0 <= j < entries@.len() implies covered(
                        m2,
                        *inner,
                        path.push((#[trigger] entries@[j]).0@),
                        entries@[j].1,
                    ) by {
                        lemma_same_below_child(m1, m2, path, entries@[j].0@);
                        lemma_covered_local(
                            m1,
                            m2,
                            *inner,
                            path.push(entries@[j].0@),
                            entries@[j].1,
                        );
                    }
                },
                _ => {},
            }
        },
    }
}

/// The members of a collection after the first `n` entries have joined
/// those that it listed: each entry's name behind them, unless it is
/// listed already.
pub open spec fn joined(listed: Seq<Seq<char>>, entries: Seq<(String, Value)>, n: nat) -> Seq<
    Seq<char>,
>
    decreases n,
{
    if n == 0 || n > entries.len() {
        listed
    } else {
        let earlier = joined(listed, entries, (n - 1) as nat);
        if earlier.contains(entries[n - 1].0@) {
            earlier
        } else {
            earlier.push(entries[n - 1].0@)
        }
    }
}

/// The joined members are the listed ones and the first `n` names, each
/// once and of a size that fits.
pub proof fn lemma_joined_props(listed: Seq<Seq<char>>, entries: Seq<(String, Value)>, n: nat)
    requires
        listed.no_duplicates(),
        path_fits(listed),
        entries_wf(entries),
        n <= entries.len(),
    ensures
        joined(listed, entries, n).no_duplicates(),
        path_fits(joined(listed, entries, n)),
        joined(listed, entries, n).len() <= listed.len() + n,
        forall|x: Seq<char>| #[trigger]
            joined(listed, entries, n).contains(x) <==> listed.contains(x) || exists|j: int|
                0 <= j < n && (#[trigger] entries[j]).0@ == x,
    decreases n,
{
    if n > 0 {
        let earlier = joined(listed, entries, (n - 1) as nat);
        let all = joined(listed, entries, n);
        let name = entries[n - 1].0@;
        lemma_joined_props(listed, entries, (n - 1) as nat);
        assert(name_fits(name));
        if !earlier.contains(name) {
            assert forall|i: int, j: int|
                0 <= i < all.len() && 0 <= j < all.len() && i != j implies all[i] != all[j] by {
                if i < earlier.len() && j < earlier.len() {
                    assert(earlier[i] != earlier[j]);
                } else if i < earlier.len() {
                    assert(earlier.contains(earlier[i]));
                } else {
                    assert(earlier.contains(earlier[j]));
                }
            }
            assert forall|i: int| 0 <= i < all.len() implies name_fits(#[trigger] all[i]) by {
                if i < earlier.len() {
                    assert(all[i] == earlier[i]);
                }
            }
        }
        assert forall|x: Seq<char>| #[trigger]
            all.contains(x) <==> listed.contains(x) || exists|j: int|
                0 <= j < n && (#[trigger] entries[j]).0@ == x by {
            if all.contains(x) {
                let i = choose|i: int| 0 <= i < all.len() && all[i] == x;
                if i < earlier.len() {
                    assert(earlier[i] == x);
                    assert(earlier.contains(x));
                    if !listed.contains(x) {
                        let j = choose|j: int| 0 <= j < n - 1 && (#[trigger] entries[j]).0@ == x;
                        assert(0 <= j < n && entries[j].0@ == x);
                    }
                } else {
                    assert(entries[n - 1].0@ == x);
                }
            }
            if listed.contains(x) {
                assert(earlier.contains(x));
                let i = choose|i: int| 0 <= i < earlier.len() && earlier[i] == x;
                assert(all[i] == x);
            }
            if exists|j: int| 0 <= j < n && (#[trigger] entries[j]).0@ == x {
                let j = choose|j: int| 0 <= j < n && (#[trigger] entries[j]).0@ == x;
                if j < n - 1 {
                    assert(earlier.contains(x));
                    let i = choose|i: int| 0 <= i < earlier.len() && earlier[i] == x;
                    assert(all[i] == x);
                } else {
                    if earlier.contains(x) {
                        let i = choose|i: int| 0 <= i < earlier.len() && earlier[i] == x;
                        assert(all[i] == x);
                    } else {
                        assert(all[all.len() - 1] == x);
                    }
                }
            }
        }
    }
}

/// Entries that can be written one by one: no name twice, every name of a
/// size that fits, every value well-formed.
pub open spec fn entries_wf(entries: Seq<(String, Value)>) -> bool {
    &&& distinct_keys(entries)
    &&& entries.len() <= u64::MAX
    &&& forall|i: int|
        0 <= i < entries.len() ==> name_fits((#[trigger] entries[i]).0@) && entries[i].1.wf()
}

/// An insert at one child of a path leaves what is below another child.
pub proof fn lemma_insert_keeps_sibling(
    m: Contents,
    root: SchemaItem,
    item: SchemaItem,
    path: Path,
    written: Seq<char>,
    val: Value,
    kept: Seq<char>,
)
    requires
        insert_spec(m, root, item, path.push(written), val) is Ok,
        path_fits(path),
        name_fits(written),
        name_fits(kept),
        written != kept,
    ensures
        same_below(
            m,
            insert_spec(m, root, item, path.push(written), val)->Ok_0,
            encode_path(path.push(kept)),
        ),
{
    let after = insert_spec(m, root, item, path.push(written), val)->Ok_0;
    assert forall|k: Seq<u8>| encode_path(path.push(kept)).is_prefix_of(k) implies lookup(m, k)
        == lookup(after, k) by {
        lemma_siblings_apart(path, kept, written, k);
        lemma_below_child(path, kept, k);
        lemma_child_key(path, written);
        lemma_insert_frame(m, root, item, path.push(written), val, k);
    }
}

/// Writing the first `n` members of a collection leaves what is below a
/// child that is not among them.
pub proof fn lemma_members_keep_child(
    m: Contents,
    root: SchemaItem,
    inner: SchemaItem,
    path: Path,
    entries: Seq<(String, Value)>,
    n: nat,
    kept: Seq<char>,
)
    requires
        insert_members(m, root, inner, path, entries, n) is Ok,
        n <= entries.len(),
        path_fits(path),
        name_fits(kept),
        forall|j: int| 0 <= j < n ==> name_fits((#[trigger] entries[j]).0@) && entries[j].0@ != kept,
    ensures
        same_below(
            m,
            insert_members(m, root, inner, path, entries, n)->Ok_0,
            encode_path(path.push(kept)),
        ),
{
    let after = insert_members(m, root, inner, path, entries, n)->Ok_0;
    assert forall|k: Seq<u8>| encode_path(path.push(kept)).is_prefix_of(k) implies lookup(m, k)
        == lookup(after, k) by {
        assert forall|j: int| 0 <= j < n && j < entries.len() implies !encode_path(
            path.push((#[trigger] entries[j]).0@),
        ).is_prefix_of(k) by {
            lemma_siblings_apart(path, kept, entries[j].0@, k);
        }
        lemma_below_child(path, kept, k);
        lemma_insert_members_frame(m, root, inner, path, entries, n, k);
    }
}

/// Writing the first `n` fields of a document leaves what is below a
/// child that is not among them.
pub proof fn lemma_entries_keep_child(
    m: Contents,
    root: SchemaItem,
    fields: Seq<(String, SchemaItem)>,
    path: Path,
    entries: Seq<(String, Value)>,
    n: nat,
    kept: Seq<char>,
)
    requires
        insert_entries(m, root, fields, path, entries, n) is Ok,
        n <= entries.len(),
        path_fits(path),
        name_fits(kept),
        forall|j: int| 0 <= j < n ==> name_fits((#[trigger] entries[j]).0@) && entries[j].0@ != kept,
    ensures
        same_below(
            m,
            insert_entries(m, root, fields, path, entries, n)->Ok_0,
            encode_path(path.push(kept)),
        ),
{
    let after = insert_entries(m, root, fields, path, entries, n)->Ok_0;
    assert forall|k: Seq<u8>| encode_path(path.push(kept)).is_prefix_of(k) implies lookup(m, k)
        == lookup(after, k) by {
        assert forall|j: int| 0 <= j < n && j < entries.len() implies !encode_path(
            path.push((#[trigger] entries[j]).0@),
        ).is_prefix_of(k) by {
            lemma_siblings_apart(path, kept, entries[j].0@, k);
        }
        lemma_below_child(path, kept, k);
        lemma_insert_entries_frame(m, root, fields, path, entries, n, k);
    }
}

/// A read after an insert at `path` gives the inserted value.
pub proof fn lemma_get_after_insert(
    m: Contents,
    root: SchemaItem,
    item: SchemaItem,
    path: Path,
    val: Value,
)
    requires
        item.wf(),
        val.wf(),
        path_fits(path),
        resolve_spec(root, path) == Ok::<SchemaItem, crate::schema::ResolveFailure>(item),
        item is Collection ==> path.len() >= 1,
        covered(m, item, path, val),
        insert_spec(m, root, item, path, val) is Ok,
    ensures
        get_spec(insert_spec(m, root, item, path, val)->Ok_0, item, path) == Ok::<Json, Failure>(
            val.model(),
        ),
    decreases item, 0nat, 1nat,
{
    let written = write_spec(m, root, item, path, val)->Ok_0;
    let after = insert_spec(m, root, item, path, val)->Ok_0;
    lemma_get_after_write(m, root, item, path, val);
    assert(same_below(written, after, encode_path(path))) by {
        assert forall|k: Seq<u8>| encode_path(path).is_prefix_of(k) implies lookup(written, k)
            == lookup(after, k) by {
            if path.len() > 1 {
                assert(path.drop_last().push(path.last()) =~= path);
                lemma_below_child(path.drop_last(), path.last(), k);
            }
            lemma_link_frame(written, root, path, k);
        }
    }
    lemma_get_local(written, after, item, path);
}

/// A read after a value has been written at `path` gives that value.
pub proof fn lemma_get_after_write(
    m: Contents,
    root: SchemaItem,
    item: SchemaItem,
    path: Path,
    val: Value,
)
    requires
        item.wf(),
        val.wf(),
        path_fits(path),
        resolve_spec(root, path) == Ok::<SchemaItem, crate::schema::ResolveFailure>(item),
        item is Collection ==> path.len() >= 1,
        covered(m, item, path, val),
        write_spec(m, root, item, path, val) is Ok,
    ensures
        get_spec(write_spec(m, root, item, path, val)->Ok_0, item, path) == Ok::<Json, Failure>(
            val.model(),
        ),
    decreases item, 0nat, 0nat,
{
    let written = write_spec(m, root, item, path, val)->Ok_0;
    let key = encode_path(path);
    match item {
        SchemaItem::Scalar => {
            let text = val->String_0;
            encode_utf8_valid_utf8(text@);
            encode_utf8_decode_utf8(text@);
        },
        SchemaItem::Document(fields) => {
            let entries = val->Object_0;
            let marked = m.insert(key, presence_mark());
            assert(covered(marked, item, path, val)) by {
                assert forall|j: int| 0 <= j < entries@.len() implies (field_index(
                    fields@,
                    (#[trigger] entries@[j]).0@,
                    0,
                ) matches Some(i) ==> 0 <= i < fields@.len() ==> covered(
                    marked,
                    fields@[i].1,
                    path.push(entries@[j].0@),
                    entries@[j].1,
                )) by {
                    match field_index(fields@, entries@[j].0@, 0) {
                        Some(i) => {
                            if 0 <= i < fields@.len() {
                                let name = entries@[j].0@;
                                assert(same_below(m, marked, encode_path(path.push(name)))) by {
                                    assert forall|q: Seq<u8>|
                                        encode_path(path.push(name)).is_prefix_of(
                                            q,
                                        ) implies lookup(m, q) == lookup(marked, q) by {
                                        lemma_below_child(path, name, q);
                                    }
                                }
                                lemma_covered_local(
                                    m,
                                    marked,
                                    fields@[i].1,
                                    path.push(name),
                                    entries@[j].1,
                                );
                            }
                        },
                        None => {},
                    }
                }
            }
            lemma_entries_written(marked, root, item, path, val, entries@.len());
            lemma_fields_read(written, fields@, path, entries@, fields@.len());
            let record = get_fields(written, fields@, path, fields@.len())->Ok_0;
            assert(record =~= record_model(entries@)) by {
                lemma_record_dom(entries@);
                assert forall|name: Seq<char>| record.dom().contains(name) implies has_key(
                    entries@,
                    name,
                ) by {
                    let i = choose|i: int| 0 <= i < fields@.len() && fields@[i].0@ == name;
                    assert(has_key(entries@, fields@[i].0@));
                }
                assert forall|name: Seq<char>| has_key(entries@, name) implies record.dom().contains(
                    name,
                ) by {
                    let j = choose|j: int| 0 <= j < entries@.len() && (#[trigger] entries@[j]).0@
                        == name;
                    assert(declares(fields@, entries@[j].0@));
                    lemma_field_index(fields@, name, 0);
                }
            }
        },
        SchemaItem::Collection(inner) => {
            let entries = val->Object_0;
            let listed = members_of(m, path);
            lemma_members_written(m, root, item, path, val, entries@.len());
            if entries@.len() == 0 {
                assert(listed.len() == 0) by {
                    if listed.len() > 0 {
                        assert(has_key(entries@, listed[0]));
                    }
                }
            } else {
                let names = joined(listed, entries@, entries@.len());
                lemma_listed_fit(m, path);
                lemma_joined_props(listed, entries@, entries@.len());
                assert forall|i: int| 0 <= i < names.len() implies has_key(
                    entries@,
                    #[trigger] names[i],
                ) by {
                    assert(names.contains(names[i]));
                    if listed.contains(names[i]) {
                        let t = choose|t: int| 0 <= t < listed.len() && listed[t] == names[i];
                        assert(has_key(entries@, listed[t]));
                    }
                }
                lemma_members_read(written, *inner, path, entries@, names, names.len());
                let record = get_members(written, *inner, path, names, names.len())->Ok_0;
                assert(record =~= record_model(entries@)) by {
                    lemma_record_dom(entries@);
                    assert forall|name: Seq<char>| has_key(
                        entries@,
                        name,
                    ) implies record.dom().contains(name) by {
                        let j = choose|j: int|
                            0 <= j < entries@.len() && (#[trigger] entries@[j]).0@ == name;
                        assert(0 <= j < entries@.len() && entries@[j].0@ == name);
                        assert(names.contains(name));
                        let i = choose|i: int| 0 <= i < names.len() && names[i] == name;
                        assert(names[i] == name);
                    }
                }
            }
        },
    }
}

/// The members that a collection lists are of a size that fits, each
/// listed once.
pub proof fn lemma_listed_fit(m: Contents, path: Path)
    ensures
        path_fits(members_of(m, path)),
        members_of(m, path).no_duplicates(),
        members_of(m, path).len() <= u64::MAX,
{
    match lookup(m, encode_path(path)) {
        None => {},
        Some(bytes) => {
            if member_names(bytes) is Some {
                crate::membership::lemma_members_fit(bytes);
            }
        },
    }
}

/// After the first `n` members of a collection have been written, the
/// collection lists those that it listed and the `n` names, and a read of
/// each written member gives its entry's value.
pub proof fn lemma_members_written(
    m: Contents,
    root: SchemaItem,
    item: SchemaItem,
    path: Path,
    val: Value,
    n: nat,
)
    requires
        item is Collection,
        val is Object,
        item.wf(),
        val.wf(),
        path_fits(path),
        path.len() >= 1,
        resolve_spec(root, path) == Ok::<SchemaItem, crate::schema::ResolveFailure>(item),
        covered(m, item, path, val),
        n <= val->Object_0@.len(),
        insert_members(m, root, *item->Collection_0, path, val->Object_0@, n) is Ok,
    ensures
        ({
            let entries = val->Object_0@;
            let after = insert_members(m, root, *item->Collection_0, path, entries, n)->Ok_0;
            &&& n == 0 ==> after == m
            &&& n > 0 ==> (lookup(after, encode_path(path)) matches Some(bytes) && member_names(bytes)
                == Some(joined(members_of(m, path), entries, n)))
            &&& forall|j: int|
                0 <= j < n ==> get_spec(
                    after,
                    *item->Collection_0,
                    path.push((#[trigger] entries[j]).0@),
                ) == Ok::<Json, Failure>(entries[j].1.model())
        }),
    decreases *item->Collection_0, 1nat, n,
{
    let inner = *item->Collection_0;
    let entries = val->Object_0@;
    let key = encode_path(path);
    let listed = members_of(m, path);
    if n > 0 {
        let before = insert_members(m, root, inner, path, entries, (n - 1) as nat)->Ok_0;
        let after = insert_members(m, root, inner, path, entries, n)->Ok_0;
        let name = entries[n - 1].0@;
        let value = entries[n - 1].1;
        let child = path.push(name);
        lemma_members_written(m, root, item, path, val, (n - 1) as nat);
        lemma_listed_fit(m, path);
        lemma_joined_props(listed, entries, (n - 1) as nat);
        lemma_resolve_child(root, path, name);
        lemma_child_key(path, name);
        assert(name_fits(name));
        assert(path_fits(child));
        // The child is untouched so far, so the value is still covered.
        lemma_members_keep_child(m, root, inner, path, entries, (n - 1) as nat, name);
        lemma_covered_local(m, before, inner, child, value);
        lemma_get_after_insert(before, root, inner, child, value);
        assert(child.drop_last() =~= path);
        assert(child.last() == name);
        assert forall|j: int| 0 <= j < n implies get_spec(
            after,
            inner,
            path.push((#[trigger] entries[j]).0@),
        ) == Ok::<Json, Failure>(entries[j].1.model()) by {
            if j < n - 1 {
                let other = entries[j].0@;
                lemma_insert_keeps_sibling(before, root, inner, path, name, value, other);
                lemma_get_local(before, after, inner, path.push(other));
            }
        }
        // The membership value.
        let written = write_spec(before, root, inner, child, value)->Ok_0;
        assert(lookup(written, key) == lookup(before, key)) by {
            crate::frames::lemma_write_frame(before, root, inner, child, value, key);
        }
        let earlier = joined(listed, entries, (n - 1) as nat);
        assert(members_of(before, path) == earlier);
        if !earlier.contains(name) {
            let more = earlier.push(name);
            lemma_joined_props(listed, entries, n);
            assert(index_fits(more));
            lemma_members_round_trip(more);
            if lookup(before, key) is None {
                assert(earlier =~= Seq::<Seq<char>>::empty());
                assert(more =~= seq![name]);
            }
        }
    }
}

/// After the first `n` fields of a document have been written, the key of
/// the document holds what it held, and a read of each written field
/// gives the entry's value.
pub proof fn lemma_entries_written(
    m: Contents,
    root: SchemaItem,
    item: SchemaItem,
    path: Path,
    val: Value,
    n: nat,
)
    requires
        item is Document,
        val is Object,
        item.wf(),
        val.wf(),
        path_fits(path),
        resolve_spec(root, path) == Ok::<SchemaItem, crate::schema::ResolveFailure>(item),
        !undeclared_key(item->Document_0@, val->Object_0@),
        covered(m, item, path, val),
        n <= val->Object_0@.len(),
        insert_entries(m, root, item->Document_0@, path, val->Object_0@, n) is Ok,
    ensures
        ({
            let fields = item->Document_0@;
            let entries = val->Object_0@;
            let after = insert_entries(m, root, fields, path, entries, n)->Ok_0;
            &&& lookup(after, encode_path(path)) == lookup(m, encode_path(path))
            &&& forall|j: int|
                0 <= j < n ==> get_spec(
                    after,
                    fields[field_index(fields, (#[trigger] entries[j]).0@, 0)->Some_0].1,
                    path.push(entries[j].0@),
                ) == Ok::<Json, Failure>(entries[j].1.model())
        }),
    decreases item->Document_0@, 1nat, n,
{
    let fields = item->Document_0@;
    let entries = val->Object_0@;
    let key = encode_path(path);
    if n == 0 {
    } else {
        let before = insert_entries(m, root, fields, path, entries, (n - 1) as nat)->Ok_0;
        let after = insert_entries(m, root, fields, path, entries, n)->Ok_0;
        let name = entries[n - 1].0@;
        let value = entries[n - 1].1;
        let child = path.push(name);
        assert(declares(fields, entries[n - 1].0@));
        let i = field_index(fields, name, 0)->Some_0;
        lemma_field_index(fields, name, 0);
        let field = fields[i].1;
        lemma_entries_written(m, root, item, path, val, (n - 1) as nat);
        lemma_resolve_child(root, path, name);
        lemma_child_key(path, name);
        assert(name_fits(name));
        assert(path_fits(child));
        lemma_entries_keep_child(m, root, fields, path, entries, (n - 1) as nat, name);
        assert(covered(m, field, child, value));
        lemma_covered_local(m, before, field, child, value);
        lemma_get_after_insert(before, root, field, child, value);
        assert(child.drop_last() =~= path);
        assert(lookup(after, key) == lookup(before, key)) by {
            lemma_insert_frame(before, root, field, child, value, key);
        }
        assert forall|j: int| 0 <= j < n implies get_spec(
            after,
            fields[field_index(fields, (#[trigger] entries[j]).0@, 0)->Some_0].1,
            path.push(entries[j].0@),
        ) == Ok::<Json, Failure>(entries[j].1.model()) by {
            if j < n - 1 {
                let other = entries[j].0@;
                lemma_insert_keeps_sibling(before, root, field, path, name, value, other);
                lemma_get_local(
                    before,
                    after,
                    fields[field_index(fields, other, 0)->Some_0].1,
                    path.push(other),
                );
            }
        }
    }
}

/// Where a read of each entry's member gives the entry's value, a read of
/// the first `t` listed members, each of them the name of an entry, gives
/// the record of their entries.
pub proof fn lemma_members_read(
    m: Contents,
    inner: SchemaItem,
    path: Path,
    entries: Seq<(String, Value)>,
    names: Seq<Seq<char>>,
    t: nat,
)
    requires
        distinct_keys(entries),
        t <= names.len(),
        forall|i: int| 0 <= i < names.len() ==> has_key(entries, #[trigger] names[i]),
        forall|j: int|
            0 <= j < entries.len() ==> get_spec(m, inner, path.push((#[trigger] entries[j]).0@))
                == Ok::<Json, Failure>(entries[j].1.model()),
    ensures
        get_members(m, inner, path, names, t) == Ok::<Map<Seq<char>, Json>, Failure>(
            Map::new(
                |name: Seq<char>| exists|i: int| 0 <= i < t && #[trigger] names[i] == name,
                |name: Seq<char>| record_model(entries)[name],
            ),
        ),
    decreases t,
{
    let expected = Map::new(
        |name: Seq<char>| exists|i: int| 0 <= i < t && #[trigger] names[i] == name,
        |name: Seq<char>| record_model(entries)[name],
    );
    if t == 0 {
        assert(expected =~= Map::<Seq<char>, Json>::empty());
    } else {
        lemma_members_read(m, inner, path, entries, names, (t - 1) as nat);
        let previous = Map::new(
            |name: Seq<char>| exists|i: int| 0 <= i < t - 1 && #[trigger] names[i] == name,
            |name: Seq<char>| record_model(entries)[name],
        );
        let name = names[t - 1];
        assert(has_key(entries, names[t - 1]));
        let j = choose|j: int| 0 <= j < entries.len() && (#[trigger] entries[j]).0@ == name;
        lemma_record_value(entries, j);
        assert(get_spec(m, inner, path.push(entries[j].0@)) == Ok::<Json, Failure>(
            entries[j].1.model(),
        ));
        assert(expected =~= previous.insert(name, entries[j].1.model())) by {
            assert forall|other: Seq<char>| expected.dom().contains(other)
                <==> previous.insert(name, entries[j].1.model()).dom().contains(other) by {
                if expected.dom().contains(other) {
                    let i = choose|i: int| 0 <= i < t && #[trigger] names[i] == other;
                    if i < t - 1 {
                        assert(previous.dom().contains(other));
                    }
                }
                if previous.dom().contains(other) {
                    let i = choose|i: int| 0 <= i < t - 1 && #[trigger] names[i] == other;
                    assert(0 <= i < t && names[i] == other);
                }
                if other == name {
                    assert(names[t - 1] == other);
                }
            }
        }
    }
}

/// Where a read of each entry's field gives the entry's value, a read of
/// the first `t` declared fields gives the record of their entries.
pub proof fn lemma_fields_read(
    m: Contents,
    fields: Seq<(String, SchemaItem)>,
    path: Path,
    entries: Seq<(String, Value)>,
    t: nat,
)
    requires
        distinct_field_names(fields),
        distinct_keys(entries),
        !missing_field(fields, entries),
        t <= fields.len(),
        forall|j: int|
            0 <= j < entries.len() ==> get_spec(
                m,
                fields[field_index(fields, (#[trigger] entries[j]).0@, 0)->Some_0].1,
                path.push(entries[j].0@),
            ) == Ok::<Json, Failure>(entries[j].1.model()),
    ensures
        get_fields(m, fields, path, t) == Ok::<Map<Seq<char>, Json>, Failure>(
            Map::new(
                |name: Seq<char>| exists|i: int| 0 <= i < t && (#[trigger] fields[i]).0@ == name,
                |name: Seq<char>| record_model(entries)[name],
            ),
        ),
    decreases t,
{
    let expected = Map::new(
        |name: Seq<char>| exists|i: int| 0 <= i < t && (#[trigger] fields[i]).0@ == name,
        |name: Seq<char>| record_model(entries)[name],
    );
    if t == 0 {
        assert(expected =~= Map::<Seq<char>, Json>::empty());
    } else {
        lemma_fields_read(m, fields, path, entries, (t - 1) as nat);
        let previous = Map::new(
            |name: Seq<char>| exists|i: int| 0 <= i < t - 1 && (#[trigger] fields[i]).0@ == name,
            |name: Seq<char>| record_model(entries)[name],
        );
        let name = fields[t - 1].0@;
        assert(has_key(entries, fields[t - 1].0@));
        let j = choose|j: int| 0 <= j < entries.len() && (#[trigger] entries[j]).0@ == name;
        lemma_field_index_distinct(fields, t - 1);
        lemma_record_value(entries, j);
        assert(get_spec(m, fields[t - 1].1, path.push(name)) == Ok::<Json, Failure>(
            entries[j].1.model(),
        ));
        assert(expected =~= previous.insert(name, entries[j].1.model())) by {
            assert forall|other: Seq<char>| expected.dom().contains(other)
                <==> previous.insert(name, entries[j].1.model()).dom().contains(other) by {
                if expected.dom().contains(other) {
                    let i = choose|i: int| 0 <= i < t && (#[trigger] fields[i]).0@ == other;
                    if i < t - 1 {
                        assert(previous.dom().contains(other));
                    }
                }
                if previous.dom().contains(other) {
                    let i = choose|i: int| 0 <= i < t - 1 && (#[trigger] fields[i]).0@ == other;
                    assert(0 <= i < t && fields[i].0@ == other);
                }
                if other == name {
                    assert(fields[t - 1].0@ == other);
                }
            }
        }
    }
}

} // verus!
