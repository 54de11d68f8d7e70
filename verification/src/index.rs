//! The membership value of a collection: the names of its members, stored
//! as a count and then each name as a length and its UTF-8 bytes.

use crate::codec::{
    encode_path, lemma_first_component, lemma_rest_fits, names_of, path_fits,
};
use crate::model::{
    distinct, index_bytes, index_fits, index_names, member_names, take_names, without,
};
use vstd::bytes::{
    lemma_auto_spec_u64_to_from_le_bytes, spec_u64_from_le_bytes, spec_u64_to_le_bytes,
};
use vstd::prelude::*;

verus! {

/// `bincode::serialize` on a list of strings. With the fixed-width
/// little-endian integers that it uses, a list is written as its length in
/// eight bytes and then each string as its length in eight bytes and its
/// UTF-8 bytes. No size limit is set, so the call does not fail.
#[verifier::external_body]
fn serialize_names(names: &Vec<String>) -> (r: Option<Vec<u8>>)
    ensures
        r is Some,
        r matches Some(bytes) ==> bytes@ == index_bytes(names_of(names@)),
{
    bincode::serialize(names).ok()
}

/// `bincode::deserialize` to a list of strings. It reads a count in eight
/// bytes and then that many strings, each as a length in eight bytes and
/// that many bytes of UTF-8, and does not look at what follows. It fails
/// where the bytes end too early or a string is not UTF-8.
#[verifier::external_body]
fn deserialize_names(bytes: &[u8]) -> (r: Option<Vec<String>>)
    ensures
        r is Some <==> index_names(bytes@) is Some,
        r matches Some(names) ==> index_names(bytes@) == Some(names_of(names@)),
{
    bincode::deserialize::<Vec<String>>(bytes).ok()
}

/// Whether `name` is among `names`.
pub fn contains_name(names: &Vec<String>, name: &String) -> (found: bool)
    ensures
        found == names_of(names@).contains(name@),
{
    let mut i: usize = 0;
    while i < names.len()
        invariant
            i <= names.len(),
            forall|j: int| 0 <= j < i ==> names_of(names@)[j] != name@,
        decreases names.len() - i,
    {
        if names[i] == *name {
            assert(names_of(names@)[i as int] == name@);
            return true;
        }
        i = i + 1;
    }
    false
}

/// The names of a list, each once, in the order of first occurrence.
pub fn dedup_names(names: &Vec<String>) -> (kept: Vec<String>)
    ensures
        names_of(kept@) == distinct(names_of(names@)),
{
    let mut kept: Vec<String> = Vec::new();
    let mut i: usize = 0;
    proof {
        assert(names_of(names@).subrange(0, 0) =~= Seq::<Seq<char>>::empty());
        assert(names_of(kept@) =~= Seq::<Seq<char>>::empty());
    }
    while i < names.len()
        invariant
            i <= names.len(),
            names_of(kept@) == distinct(names_of(names@).subrange(0, i as int)),
        decreases names.len() - i,
    {
        let ghost before = names_of(kept@);
        proof {
            let upto = names_of(names@).subrange(0, i + 1);
            assert(upto.drop_last() =~= names_of(names@).subrange(0, i as int));
            assert(upto.last() == names@[i as int]@);
        }
        if !contains_name(&kept, &names[i]) {
            kept.push(names[i].clone());
            proof {
                assert(names_of(kept@) =~= before.push(names@[i as int]@));
            }
        }
        i = i + 1;
    }
    proof {
        assert(names_of(names@).subrange(0, names@.len() as int) =~= names_of(names@));
    }
    kept
}

/// The names of a list without `name`, in order.
pub fn remove_name(names: &Vec<String>, name: &String) -> (kept: Vec<String>)
    ensures
        names_of(kept@) == without(names_of(names@), name@),
{
    let mut kept: Vec<String> = Vec::new();
    let mut i: usize = 0;
    proof {
        assert(names_of(names@).subrange(0, 0) =~= Seq::<Seq<char>>::empty());
        assert(names_of(kept@) =~= Seq::<Seq<char>>::empty());
    }
    while i < names.len()
        invariant
            i <= names.len(),
            names_of(kept@) == without(names_of(names@).subrange(0, i as int), name@),
        decreases names.len() - i,
    {
        let ghost before = names_of(kept@);
        proof {
            let upto = names_of(names@).subrange(0, i + 1);
            assert(upto.drop_last() =~= names_of(names@).subrange(0, i as int));
            assert(upto.last() == names@[i as int]@);
        }
        if names[i] != *name {
            kept.push(names[i].clone());
            proof {
                assert(names_of(kept@) =~= before.push(names@[i as int]@));
            }
        }
        i = i + 1;
    }
    proof {
        assert(names_of(names@).subrange(0, names@.len() as int) =~= names_of(names@));
    }
    kept
}

/// The members that a stored membership value lists, each once, or nothing
/// where the value cannot be read.
pub fn read_members(bytes: &[u8]) -> (r: Option<Vec<String>>)
    ensures
        match r {
            Some(names) => member_names(bytes@) == Some(names_of(names@)),
            None => member_names(bytes@) is None,
        },
{
    match deserialize_names(bytes) {
        Some(names) => Some(dedup_names(&names)),
        None => None,
    }
}

/// The stored form of a list of members.
pub fn write_members(names: &Vec<String>) -> (bytes: Vec<u8>)
    ensures
        bytes@ == index_bytes(names_of(names@)),
{
    match serialize_names(names) {
        Some(bytes) => bytes,
        // Not reached: a list of strings is always written.
        None => Vec::new(),
    }
}

/// Reading as many names as were written gives the names back.
pub proof fn lemma_take_encoded(names: Seq<Seq<char>>)
    requires
        path_fits(names),
    ensures
        take_names(encode_path(names), names.len()) == Some(names),
    decreases names.len(),
{
    if names.len() > 0 {
        lemma_rest_fits(names);
        lemma_first_component(names[0], encode_path(names.drop_first()));
        lemma_take_encoded(names.drop_first());
    }
}

/// A stored list of names reads back as the same list.
pub proof fn lemma_index_round_trip(names: Seq<Seq<char>>)
    requires
        index_fits(names),
    ensures
        index_names(index_bytes(names)) == Some(names),
{
    let bytes = index_bytes(names);
    lemma_auto_spec_u64_to_from_le_bytes();
    let head = spec_u64_to_le_bytes(names.len() as u64);
    assert(head.len() == 8);
    assert(bytes.subrange(0, 8) =~= head);
    assert(bytes.subrange(8, bytes.len() as int) =~= encode_path(names));
    lemma_take_encoded(names);
}

/// A list without repeats is its own list of distinct names.
pub proof fn lemma_distinct_of_distinct(names: Seq<Seq<char>>)
    requires
        names.no_duplicates(),
    ensures
        distinct(names) == names,
    decreases names.len(),
{
    if names.len() == 0 {
        assert(distinct(names) =~= names);
    } else {
        let init = names.drop_last();
        assert(init.no_duplicates()) by {
            assert forall|i: int, j: int| 0 <= i < init.len() && 0 <= j < init.len() && i
                != j implies init[i] != init[j] by {
                assert(init[i] == names[i]);
                assert(init[j] == names[j]);
            }
        }
        lemma_distinct_of_distinct(init);
        if init.contains(names.last()) {
            let i = choose|i: int| 0 <= i < init.len() && init[i] == names.last();
            assert(names[i] == names[names.len() - 1]);
        }
        assert(init.push(names.last()) =~= names);
    }
}

/// A stored list of members without repeats reads back as the same list.
pub proof fn lemma_members_round_trip(names: Seq<Seq<char>>)
    requires
        index_fits(names),
        names.no_duplicates(),
    ensures
        member_names(index_bytes(names)) == Some(names),
{
    lemma_index_round_trip(names);
    lemma_distinct_of_distinct(names);
}

} // verus!
