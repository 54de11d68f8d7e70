//! The path codec: a path is a sequence of names, and its key is the
//! concatenation of `{u64 length, little-endian}{UTF-8 bytes}` per name.

use vstd::bytes::{
    lemma_auto_spec_u64_to_from_le_bytes, spec_u64_from_le_bytes, spec_u64_to_le_bytes,
    u64_from_le_bytes, u64_to_le_bytes,
};
use vstd::prelude::*;
use vstd::slice::{slice_subrange, slice_to_vec};
use vstd::utf8::{decode_utf8, encode_utf8, encode_utf8_decode_utf8, encode_utf8_valid_utf8, decode_utf8_encode_utf8, valid_utf8};

verus! {

/// A key that is not the encoding of any path.
#[derive(Debug, Clone, Copy, PartialEq, Eq)]
pub struct CorruptKey;

/// The names of a sequence of strings.
pub open spec fn names_of(components: Seq<String>) -> Seq<Seq<char>> {
    Seq::new(components.len(), |i: int| components[i]@)
}

/// A name whose UTF-8 length can be written as a `u64`.
pub open spec fn name_fits(name: Seq<char>) -> bool {
    encode_utf8(name).len() <= u64::MAX
}

/// A path all of whose names fit.
pub open spec fn path_fits(path: Seq<Seq<char>>) -> bool {
    forall|i: int| 0 <= i < path.len() ==> name_fits(#[trigger] path[i])
}

/// The bytes of one name: its length, then its UTF-8 bytes.
pub open spec fn component_bytes(name: Seq<char>) -> Seq<u8> {
    spec_u64_to_le_bytes(encode_utf8(name).len() as u64) + encode_utf8(name)
}

/// The key of a path.
pub open spec fn encode_path(path: Seq<Seq<char>>) -> Seq<u8>
    decreases path.len(),
{
    if path.len() == 0 {
        Seq::empty()
    } else {
        component_bytes(path[0]) + encode_path(path.drop_first())
    }
}

/// The path that a key spells, if it spells one.
pub open spec fn decode_path(bytes: Seq<u8>) -> Option<Seq<Seq<char>>>
    decreases bytes.len(),
{
    if bytes.len() == 0 {
        Some(Seq::empty())
    } else if bytes.len() < 8 {
        None
    } else {
        let n = spec_u64_from_le_bytes(bytes.subrange(0, 8)) as int;
        if 8 + n > bytes.len() {
            None
        } else if !valid_utf8(bytes.subrange(8, 8 + n)) {
            None
        } else {
            match decode_path(bytes.subrange(8 + n, bytes.len() as int)) {
                Some(rest) => Some(seq![decode_utf8(bytes.subrange(8, 8 + n))] + rest),
                None => None,
            }
        }
    }
}

/// `a` is `b` or lies above it.
pub open spec fn is_ancestor(a: Seq<Seq<char>>, b: Seq<Seq<char>>) -> bool {
    a.is_prefix_of(b)
}

pub proof fn lemma_component_len(name: Seq<char>)
    ensures
        component_bytes(name).len() == 8 + encode_utf8(name).len(),
        component_bytes(name).subrange(0, 8) == spec_u64_to_le_bytes(
            encode_utf8(name).len() as u64,
        ),
        component_bytes(name).subrange(8, 8 + encode_utf8(name).len() as int) == encode_utf8(name),
{
    lemma_auto_spec_u64_to_from_le_bytes();
    let head = spec_u64_to_le_bytes(encode_utf8(name).len() as u64);
    assert(head.len() == 8);
    assert(component_bytes(name).subrange(0, 8) =~= head);
    assert(component_bytes(name).subrange(8, 8 + encode_utf8(name).len() as int) =~= encode_utf8(
        name,
    ));
}

/// The key of a concatenation is the concatenation of the keys.
pub proof fn lemma_encode_concat(a: Seq<Seq<char>>, b: Seq<Seq<char>>)
    ensures
        encode_path(a + b) == encode_path(a) + encode_path(b),
    decreases a.len(),
{
    if a.len() == 0 {
        assert(a + b =~= b);
        assert(encode_path(a) + encode_path(b) =~= encode_path(b));
    } else {
        lemma_encode_concat(a.drop_first(), b);
        assert((a + b).drop_first() =~= a.drop_first() + b);
        assert((a + b)[0] == a[0]);
        assert(encode_path(a + b) =~= encode_path(a) + encode_path(b));
    }
}

/// Appending a name appends its bytes.
pub proof fn lemma_encode_push(path: Seq<Seq<char>>, name: Seq<char>)
    ensures
        encode_path(path.push(name)) == encode_path(path) + component_bytes(name),
{
    lemma_encode_concat(path, seq![name]);
    assert(path.push(name) =~= path + seq![name]);
    assert(seq![name].drop_first() =~= Seq::<Seq<char>>::empty());
    assert(encode_path(Seq::<Seq<char>>::empty()) =~= Seq::<u8>::empty());
    assert(seq![name][0] == name);
    assert(encode_path(seq![name]) =~= component_bytes(name));
}

/// Bytes that begin with the bytes of a name spell that name first: the
/// length, then UTF-8 bytes that read back as the name, then the rest.
pub proof fn lemma_first_component(name: Seq<char>, rest: Seq<u8>)
    requires
        name_fits(name),
    ensures
        ({
            let bytes = component_bytes(name) + rest;
            let n = encode_utf8(name).len() as int;
            &&& bytes.len() == 8 + n + rest.len()
            &&& spec_u64_from_le_bytes(bytes.subrange(0, 8)) == n
            &&& bytes.subrange(8, 8 + n) == encode_utf8(name)
            &&& valid_utf8(bytes.subrange(8, 8 + n))
            &&& decode_utf8(bytes.subrange(8, 8 + n)) == name
            &&& bytes.subrange(8 + n, bytes.len() as int) == rest
        }),
{
    let bytes = component_bytes(name) + rest;
    let n = encode_utf8(name).len() as int;
    lemma_component_len(name);
    lemma_auto_spec_u64_to_from_le_bytes();
    assert(bytes.subrange(0, 8) =~= component_bytes(name).subrange(0, 8));
    assert(bytes.subrange(8, 8 + n) =~= encode_utf8(name));
    assert(bytes.subrange(8 + n, bytes.len() as int) =~= rest);
    encode_utf8_valid_utf8(name);
    encode_utf8_decode_utf8(name);
}

/// The rest of a fitting path fits.
pub proof fn lemma_rest_fits(path: Seq<Seq<char>>)
    requires
        path_fits(path),
        path.len() > 0,
    ensures
        name_fits(path[0]),
        path_fits(path.drop_first()),
        seq![path[0]] + path.drop_first() == path,
{
    let rest = path.drop_first();
    assert forall|i: int| 0 <= i < rest.len() implies name_fits(#[trigger] rest[i]) by {
        assert(rest[i] == path[i + 1]);
    }
    assert(seq![path[0]] + rest =~= path);
}

/// Decoding the key of a path gives the path back.
pub proof fn lemma_decode_encode(path: Seq<Seq<char>>)
    requires
        path_fits(path),
    ensures
        decode_path(encode_path(path)) == Some(path),
    decreases path.len(),
{
    if path.len() > 0 {
        lemma_rest_fits(path);
        lemma_first_component(path[0], encode_path(path.drop_first()));
        lemma_decode_encode(path.drop_first());
    }
}

/// A key that decodes is the key of the path it decodes to.
pub proof fn lemma_encode_decode(bytes: Seq<u8>)
    requires
        decode_path(bytes) is Some,
    ensures
        encode_path(decode_path(bytes)->Some_0) == bytes,
        path_fits(decode_path(bytes)->Some_0),
    decreases bytes.len(),
{
    if bytes.len() == 0 {
        assert(encode_path(Seq::<Seq<char>>::empty()) =~= bytes);
    } else {
        let n = spec_u64_from_le_bytes(bytes.subrange(0, 8)) as int;
        let body = bytes.subrange(8, 8 + n);
        let tail = bytes.subrange(8 + n, bytes.len() as int);
        let name = decode_utf8(body);
        let rest = decode_path(tail)->Some_0;
        let path = seq![name] + rest;
        lemma_encode_decode(tail);
        decode_utf8_encode_utf8(body);
        lemma_auto_spec_u64_to_from_le_bytes();
        assert(encode_utf8(name) == body);
        assert(spec_u64_to_le_bytes(n as u64) == bytes.subrange(0, 8));
        assert(component_bytes(name) =~= bytes.subrange(0, 8 + n));
        assert(path[0] == name);
        assert(path.drop_first() =~= rest);
        assert(encode_path(path) =~= bytes);
        assert forall|i: int| 0 <= i < path.len() implies name_fits(#[trigger] path[i]) by {
            if i > 0 {
                assert(path[i] == rest[i - 1]);
            }
        }
    }
}

/// One path lies at or above another exactly when its key is a prefix of
/// the other's key.
pub proof fn lemma_ancestor_iff_key_prefix(a: Seq<Seq<char>>, b: Seq<Seq<char>>)
    requires
        path_fits(a),
        path_fits(b),
    ensures
        is_ancestor(a, b) <==> encode_path(a).is_prefix_of(encode_path(b)),
    decreases a.len(),
{
    if is_ancestor(a, b) {
        let tail = b.subrange(a.len() as int, b.len() as int);
        assert(b =~= a + tail);
        lemma_encode_concat(a, tail);
        assert(encode_path(b).subrange(0, encode_path(a).len() as int) =~= encode_path(a));
    }
    if encode_path(a).is_prefix_of(encode_path(b)) {
        if a.len() == 0 {
            assert(b.subrange(0, 0) =~= a);
        } else {
            let ka = encode_path(a);
            let kb = encode_path(b);
            let na = encode_utf8(a[0]).len() as int;
            lemma_component_len(a[0]);
            lemma_auto_spec_u64_to_from_le_bytes();
            assert(ka.len() >= 8 + na);
            assert(b.len() > 0);
            let nb = encode_utf8(b[0]).len() as int;
            lemma_component_len(b[0]);
            assert(name_fits(a[0]) && name_fits(b[0]));
            assert(ka.subrange(0, 8) =~= component_bytes(a[0]).subrange(0, 8));
            assert(kb.subrange(0, 8) =~= component_bytes(b[0]).subrange(0, 8));
            assert(ka.subrange(0, 8) =~= kb.subrange(0, 8)) by {
                assert(ka =~= kb.subrange(0, ka.len() as int));
            }
            assert(na == nb) by {
                assert(spec_u64_from_le_bytes(spec_u64_to_le_bytes(na as u64)) == na as u64);
                assert(spec_u64_from_le_bytes(spec_u64_to_le_bytes(nb as u64)) == nb as u64);
            }
            assert(ka.subrange(8, 8 + na) =~= encode_utf8(a[0]));
            assert(kb.subrange(8, 8 + na) =~= encode_utf8(b[0]));
            assert(ka.subrange(8, 8 + na) =~= kb.subrange(8, 8 + na)) by {
                assert(ka =~= kb.subrange(0, ka.len() as int));
            }
            encode_utf8_decode_utf8(a[0]);
            encode_utf8_decode_utf8(b[0]);
            assert(a[0] == b[0]);
            let ra = a.drop_first();
            let rb = b.drop_first();
            assert(encode_path(ra) =~= ka.subrange(8 + na, ka.len() as int));
            assert(encode_path(rb) =~= kb.subrange(8 + na, kb.len() as int));
            assert(encode_path(ra).is_prefix_of(encode_path(rb))) by {
                assert(ka =~= kb.subrange(0, ka.len() as int));
                assert(encode_path(ra) =~= encode_path(rb).subrange(
                    0,
                    encode_path(ra).len() as int,
                ));
            }
            assert(path_fits(ra)) by {
                assert forall|i: int| 0 <= i < ra.len() implies name_fits(#[trigger] ra[i]) by {
                    assert(ra[i] == a[i + 1]);
                }
            }
            assert(path_fits(rb)) by {
                assert forall|i: int| 0 <= i < rb.len() implies name_fits(#[trigger] rb[i]) by {
                    assert(rb[i] == b[i + 1]);
                }
            }
            lemma_ancestor_iff_key_prefix(ra, rb);
            assert(a =~= b.subrange(0, a.len() as int)) by {
                assert(ra =~= rb.subrange(0, ra.len() as int));
                assert forall|i: int| 0 <= i < a.len() implies a[i] == b[i] by {
                    if i > 0 {
                        assert(a[i] == ra[i - 1]);
                        assert(rb.subrange(0, ra.len() as int)[i - 1] == rb[i - 1]);
                        assert(b[i] == rb[i - 1]);
                    }
                }
            }
        }
    }
}

/// Two fitting paths with one key are one path.
pub proof fn lemma_encode_injective(a: Seq<Seq<char>>, b: Seq<Seq<char>>)
    requires
        path_fits(a),
        path_fits(b),
        encode_path(a) == encode_path(b),
    ensures
        a == b,
{
    lemma_decode_encode(a);
    lemma_decode_encode(b);
}

/// What a decoder has read so far, followed by what the rest spells.
pub closed spec fn after_prefix(done: Seq<Seq<char>>, rest: Option<Seq<Seq<char>>>) -> Option<
    Seq<Seq<char>>,
> {
    match rest {
        Some(r) => Some(done + r),
        None => None,
    }
}

/// `String::from_utf8` of std: it accepts exactly the byte sequences that
/// are valid UTF-8, and the string it gives has the characters that the
/// bytes spell.
#[verifier::external_body]
fn string_from_utf8(bytes: Vec<u8>) -> (r: Option<String>)
    ensures
        r is Some <==> valid_utf8(bytes@),
        r matches Some(s) ==> s@ == decode_utf8(bytes@),
{
    String::from_utf8(bytes).ok()
}

/// The number of UTF-8 bytes of a string. It can be written as a `u64`.
pub fn name_len(name: &String) -> (len: usize)
    ensures
        len == encode_utf8(name@).len(),
        name_fits(name@),
{
    name.as_str().as_bytes().len()
}

/// The UTF-8 bytes of a string, as an owned vector.
pub fn string_bytes(s: &String) -> (bytes: Vec<u8>)
    ensures
        bytes@ == encode_utf8(s@),
{
    slice_to_vec(s.as_str().as_bytes())
}

/// The string that a byte sequence spells, if it is valid UTF-8.
pub fn bytes_to_string(bytes: Vec<u8>) -> (r: Option<String>)
    ensures
        r is Some <==> valid_utf8(bytes@),
        r matches Some(s) ==> s@ == decode_utf8(bytes@),
{
    string_from_utf8(bytes)
}

/// Writes the key of a path.
pub fn encode_components(refs: &[String]) -> (encoded: Vec<u8>)
    ensures
        encoded@ == encode_path(names_of(refs@)),
        path_fits(names_of(refs@)),
{
    let mut encoded: Vec<u8> = Vec::new();
    let mut i: usize = 0;
    proof {
        assert(names_of(refs@).subrange(0, 0) =~= Seq::<Seq<char>>::empty());
    }
    while i < refs.len()
        invariant
            i <= refs.len(),
            encoded@ == encode_path(names_of(refs@).subrange(0, i as int)),
            forall|j: int| 0 <= j < i ==> name_fits(#[trigger] names_of(refs@)[j]),
        decreases refs.len() - i,
    {
        let mut body = string_bytes(&refs[i]);
        let mut head = u64_to_le_bytes(body.len() as u64);
        proof {
            let done = names_of(refs@).subrange(0, i as int);
            let name = refs@[i as int]@;
            assert(names_of(refs@)[i as int] == name);
            lemma_encode_push(done, name);
            assert(names_of(refs@).subrange(0, i + 1) =~= done.push(name));
        }
        encoded.append(&mut head);
        encoded.append(&mut body);
        i = i + 1;
    }
    proof {
        assert(names_of(refs@).subrange(0, refs@.len() as int) =~= names_of(refs@));
    }
    encoded
}

/// Reads a key back into the path it spells. A key that ends inside a
/// length or inside a name, or holds a name that is not UTF-8, is corrupt.
pub fn decode_components(encoded: &[u8]) -> (r: Result<Vec<String>, CorruptKey>)
    ensures
        match r {
            Ok(path) => decode_path(encoded@) == Some(names_of(path@)) && encode_path(
                names_of(path@),
            ) == encoded@ && path_fits(names_of(path@)),
            Err(_) => decode_path(encoded@) is None,
        },
{
    let mut decoded: Vec<String> = Vec::new();
    let mut idx: usize = 0;
    let len = encoded.len();
    proof {
        assert(encoded@.subrange(0, len as int) =~= encoded@);
        assert(names_of(decoded@) + decode_path(encoded@)->Some_0 =~= decode_path(
            encoded@,
        )->Some_0);
    }
    while idx < len
        invariant
            idx <= len,
            len == encoded@.len(),
            decode_path(encoded@) == after_prefix(
                names_of(decoded@),
                decode_path(encoded@.subrange(idx as int, len as int)),
            ),
        decreases len - idx,
    {
        let ghost tail = encoded@.subrange(idx as int, len as int);
        let ghost done = names_of(decoded@);
        if len - idx < 8 {
            return Err(CorruptKey);
        }
        let n = u64_from_le_bytes(slice_subrange(encoded, idx, idx + 8));
        proof {
            assert(tail.subrange(0, 8) =~= encoded@.subrange(idx as int, idx + 8));
        }
        if n > (len - idx - 8) as u64 {
            return Err(CorruptKey);
        }
        let size = n as usize;
        let body = slice_to_vec(slice_subrange(encoded, idx + 8, idx + 8 + size));
        proof {
            assert(tail.subrange(8, 8 + n as int) =~= body@);
            assert(tail.subrange(8 + n as int, tail.len() as int) =~= encoded@.subrange(
                idx + 8 + size,
                len as int,
            ));
        }
        match string_from_utf8(body) {
            None => {
                return Err(CorruptKey);
            },
            Some(name) => {
                decoded.push(name);
                proof {
                    let next = decode_path(encoded@.subrange(idx + 8 + size, len as int));
                    if next is Some {
                        assert(names_of(decoded@) =~= done.push(name@));
                        assert(done + (seq![name@] + next->Some_0) =~= names_of(decoded@)
                            + next->Some_0);
                    }
                }
            },
        }
        idx = idx + 8 + size;
    }
    proof {
        assert(encoded@.subrange(len as int, len as int) =~= Seq::<u8>::empty());
        assert(names_of(decoded@) + Seq::<Seq<char>>::empty() =~= names_of(decoded@));
        lemma_encode_decode(encoded@);
    }
    Ok(decoded)
}

/// The key of a path is a prefix of the key of every path below it.
pub proof fn lemma_ancestor_key_is_prefix(a: Seq<Seq<char>>, b: Seq<Seq<char>>)
    requires
        is_ancestor(a, b),
    ensures
        encode_path(a).is_prefix_of(encode_path(b)),
{
    let tail = b.subrange(a.len() as int, b.len() as int);
    assert(b =~= a + tail);
    lemma_encode_concat(a, tail);
    assert(encode_path(b).subrange(0, encode_path(a).len() as int) =~= encode_path(a));
}

/// A path and a path below it that have one key are one path.
pub proof fn lemma_same_key_below(a: Seq<Seq<char>>, b: Seq<Seq<char>>)
    requires
        is_ancestor(a, b),
        encode_path(a) == encode_path(b),
    ensures
        a == b,
{
    let tail = b.subrange(a.len() as int, b.len() as int);
    assert(b =~= a + tail);
    lemma_encode_concat(a, tail);
    if tail.len() > 0 {
        lemma_component_len(tail[0]);
        assert(encode_path(tail).len() >= 8);
    }
    assert(a + tail =~= a);
}

} // verus!
