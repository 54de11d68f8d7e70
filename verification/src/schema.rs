//! The schema tree: documents with named fields, collections of one inner
//! kind keyed by any name, and scalars. A path is resolved by walking the
//! tree one name at a time.

use crate::codec::{decode_components, decode_path, encode_components, encode_path, names_of, path_fits, CorruptKey};
use crate::message::RefComponent;
use vstd::prelude::*;

verus! {

/// Why a path has no schema node.
#[derive(Debug, Clone, PartialEq, Eq)]
pub enum SchemaResolutionError {
    /// The document at this point declares no field of this name.
    UnknownField(String),
    /// The path goes on below a scalar.
    IllegalRefOnScalar,
}

/// The plain form of a [`SchemaResolutionError`].
pub ghost enum ResolveFailure {
    UnknownField(Seq<char>),
    IllegalRefOnScalar,
}

impl View for SchemaResolutionError {
    type V = ResolveFailure;

    open spec fn view(&self) -> ResolveFailure {
        match self {
            SchemaResolutionError::UnknownField(name) => ResolveFailure::UnknownField(name@),
            SchemaResolutionError::IllegalRefOnScalar => ResolveFailure::IllegalRefOnScalar,
        }
    }
}

/// A node of the schema.
#[derive(Debug)]
pub enum SchemaItem {
    /// Any number of members, each of the inner kind, keyed by name.
    Collection(Box<SchemaItem>),
    /// A fixed list of named fields.
    Document(Vec<(String, SchemaItem)>),
    /// A string.
    Scalar,
}

/// The position of the first field called `name` at or after `from`.
pub open spec fn field_index(fields: Seq<(String, SchemaItem)>, name: Seq<char>, from: int) -> Option<
    int,
>
    decreases fields.len() - from,
{
    if from < 0 || from >= fields.len() {
        None
    } else if fields[from].0@ == name {
        Some(from)
    } else {
        field_index(fields, name, from + 1)
    }
}

/// Whether a field called `name` is declared.
pub open spec fn declares(fields: Seq<(String, SchemaItem)>, name: Seq<char>) -> bool {
    field_index(fields, name, 0) is Some
}

/// No two fields share a name.
pub open spec fn distinct_field_names(fields: Seq<(String, SchemaItem)>) -> bool {
    forall|i: int, j: int|
        0 <= i < j < fields.len() ==> (#[trigger] fields[i]).0@ != (#[trigger] fields[j]).0@
}

/// The node that governs `path` below `item`.
pub open spec fn resolve_spec(item: SchemaItem, path: Seq<Seq<char>>) -> Result<
    SchemaItem,
    ResolveFailure,
>
    decreases path.len(),
{
    if path.len() == 0 {
        Ok(item)
    } else {
        match item {
            SchemaItem::Collection(inner) => resolve_spec(*inner, path.drop_first()),
            SchemaItem::Document(fields) => match field_index(fields@, path[0], 0) {
                Some(i) => resolve_spec(fields@[i].1, path.drop_first()),
                None => Err(ResolveFailure::UnknownField(path[0])),
            },
            SchemaItem::Scalar => Err(ResolveFailure::IllegalRefOnScalar),
        }
    }
}

pub proof fn lemma_field_index(fields: Seq<(String, SchemaItem)>, name: Seq<char>, from: int)
    requires
        0 <= from,
    ensures
        match field_index(fields, name, from) {
            Some(i) => from <= i < fields.len() && fields[i].0@ == name && forall|j: int|
                from <= j < i ==> (#[trigger] fields[j]).0@ != name,
            None => forall|j: int| from <= j < fields.len() ==> (#[trigger] fields[j]).0@ != name,
        },
    decreases fields.len() - from,
{
    if from < fields.len() && fields[from].0@ != name {
        lemma_field_index(fields, name, from + 1);
    }
}

/// Resolving a path is resolving its front, then the rest from there.
pub proof fn lemma_resolve_concat(item: SchemaItem, a: Seq<Seq<char>>, b: Seq<Seq<char>>)
    ensures
        resolve_spec(item, a + b) == match resolve_spec(item, a) {
            Ok(mid) => resolve_spec(mid, b),
            Err(e) => Err(e),
        },
    decreases a.len(),
{
    if a.len() == 0 {
        assert(a + b =~= b);
    } else {
        assert((a + b).drop_first() =~= a.drop_first() + b);
        assert((a + b)[0] == a[0]);
        match item {
            SchemaItem::Collection(inner) => {
                lemma_resolve_concat(*inner, a.drop_first(), b);
            },
            SchemaItem::Document(fields) => {
                match field_index(fields@, a[0], 0) {
                    Some(i) => {
                        lemma_resolve_concat(fields@[i].1, a.drop_first(), b);
                    },
                    None => {},
                }
            },
            SchemaItem::Scalar => {},
        }
    }
}

impl SchemaItem {
    /// Every document below and including this node names each field
    /// once, by a name whose UTF-8 length can be written as a `u64`.
    pub open spec fn wf(self) -> bool
        decreases self,
    {
        match self {
            SchemaItem::Collection(inner) => inner.wf(),
            SchemaItem::Document(fields) => distinct_field_names(fields@) && forall|i: int|
                0 <= i < fields@.len() ==> crate::codec::name_fits((#[trigger] fields@[i]).0@)
                    && fields@[i].1.wf(),
            SchemaItem::Scalar => true,
        }
    }

    /// Whether every document below and including this node names each
    /// field once.
    #[verifier::loop_isolation(false)]
    pub fn is_wf(&self) -> (ok: bool)
        ensures
            ok == self.wf(),
        decreases *self,
    {
        match self {
            SchemaItem::Collection(inner) => inner.is_wf(),
            SchemaItem::Document(fields) => {
                let mut i: usize = 0;
                while i < fields.len()
                    invariant
                        i <= fields.len(),
                        forall|a: int, b: int|
                            0 <= a < b < i ==> (#[trigger] fields@[a]).0@ != (
                            #[trigger] fields@[b]).0@,
                        forall|t: int|
                            0 <= t < i ==> crate::codec::name_fits((#[trigger] fields@[t]).0@)
                                && fields@[t].1.wf(),
                    decreases fields.len() - i,
                {
                    let _ = crate::codec::name_len(&fields[i].0);
                    let mut j: usize = 0;
                    while j < i
                        invariant
                            j <= i,
                            i < fields.len(),
                            forall|a: int| 0 <= a < j ==> (#[trigger] fields@[a]).0@ != fields@[i as int].0@,
                        decreases i - j,
                    {
                        if fields[j].0 == fields[i].0 {
                            assert(fields@[j as int].0@ == fields@[i as int].0@);
                            return false;
                        }
                        j = j + 1;
                    }
                    if !fields[i].1.is_wf() {
                        assert(!fields@[i as int].1.wf());
                        return false;
                    }
                    i = i + 1;
                }
                true
            },
            SchemaItem::Scalar => true,
        }
    }

    /// The declared field called `name`, where this node is a document that
    /// declares one.
    pub fn field<'a>(fields: &'a Vec<(String, SchemaItem)>, name: &String) -> (r: Option<
        &'a SchemaItem,
    >)
        ensures
            match r {
                Some(item) => field_index(fields@, name@, 0) is Some && *item == fields@[field_index(
                    fields@,
                    name@,
                    0,
                )->Some_0].1,
                None => field_index(fields@, name@, 0) is None,
            },
    {
        let mut i: usize = 0;
        while i < fields.len()
            invariant
                i <= fields.len(),
                field_index(fields@, name@, 0) == field_index(fields@, name@, i as int),
            decreases fields.len() - i,
        {
            if fields[i].0 == *name {
                return Some(&fields[i].1);
            }
            i = i + 1;
        }
        None
    }

    /// Walks `refs` down from this node.
    pub fn resolve(&self, refs: &[RefComponent]) -> (r: Result<&SchemaItem, SchemaResolutionError>)
        ensures
            match r {
                Ok(item) => resolve_spec(*self, names_of(refs@)) == Ok::<SchemaItem, ResolveFailure>(
                    *item,
                ),
                Err(e) => resolve_spec(*self, names_of(refs@)) == Err::<SchemaItem, ResolveFailure>(
                    e@,
                ),
            },
    {
        let mut cur: &SchemaItem = self;
        let mut i: usize = 0;
        let ghost path = names_of(refs@);
        proof {
            assert(path.subrange(0, path.len() as int) =~= path);
        }
        while i < refs.len()
            invariant
                i <= refs.len(),
                path == names_of(refs@),
                resolve_spec(*self, path) == resolve_spec(
                    *cur,
                    path.subrange(i as int, path.len() as int),
                ),
            decreases refs.len() - i,
        {
            let ghost rest = path.subrange(i as int, path.len() as int);
            proof {
                assert(rest[0] == refs@[i as int]@);
                assert(rest.drop_first() =~= path.subrange(i + 1, path.len() as int));
            }
            match cur {
                SchemaItem::Collection(inner) => {
                    cur = &**inner;
                },
                SchemaItem::Document(fields) => {
                    match SchemaItem::field(fields, &refs[i]) {
                        Some(child) => {
                            cur = child;
                        },
                        None => {
                            return Err(SchemaResolutionError::UnknownField(refs[i].clone()));
                        },
                    }
                },
                SchemaItem::Scalar => {
                    return Err(SchemaResolutionError::IllegalRefOnScalar);
                },
            }
            i = i + 1;
        }
        Ok(cur)
    }
}

/// A schema: the tree below its root.
pub struct Schema(SchemaItem);

impl Schema {
    /// The root node.
    pub closed spec fn root(&self) -> SchemaItem {
        self.0
    }

    /// The schema whose root is a document without fields.
    pub fn empty() -> (schema: Schema)
        ensures
            schema.root() matches SchemaItem::Document(fields) && fields@.len() == 0,
    {
        Schema(SchemaItem::Document(Vec::new()))
    }

    /// The schema with the given root.
    pub fn create(root: SchemaItem) -> (schema: Schema)
        ensures
            schema.root() == root,
    {
        Schema(root)
    }

    /// Whether the root is a document and every document names each field
    /// once.
    pub open spec fn wf(&self) -> bool {
        self.root() is Document && self.root().wf()
    }

    /// The schema with the given root, where the root is a document and
    /// every document names each field once; nothing else.
    pub fn checked(root: SchemaItem) -> (r: Option<Schema>)
        ensures
            match r {
                Some(schema) => schema.root() == root && schema.wf(),
                None => !(root is Document && root.wf()),
            },
    {
        let schema = Schema(root);
        if schema.is_wf() {
            Some(schema)
        } else {
            None
        }
    }

    /// Whether the root is a document and every document names each field
    /// once.
    pub fn is_wf(&self) -> (ok: bool)
        ensures
            ok == self.wf(),
    {
        match &self.0 {
            SchemaItem::Document(_) => self.0.is_wf(),
            _ => false,
        }
    }

    /// The key of a path. The key of a path is a prefix of the key of every
    /// path below it, and of no other path's key.
    pub fn encode_ref(&self, refs: &[RefComponent]) -> (encoded: Vec<u8>)
        ensures
            encoded@ == encode_path(names_of(refs@)),
            path_fits(names_of(refs@)),
    {
        encode_components(refs)
    }

    /// The path that a key spells, or `CorruptKey` where it spells none: a
    /// key that ends inside a length or inside a name, or holds a name that
    /// is not UTF-8. The path that comes back has the given key.
    pub fn decode_ref(&self, encoded_ref: &[u8]) -> (r: Result<Vec<RefComponent>, CorruptKey>)
        ensures
            match r {
                Ok(path) => decode_path(encoded_ref@) == Some(names_of(path@)) && encode_path(
                    names_of(path@),
                ) == encoded_ref@,
                Err(_) => decode_path(encoded_ref@) is None,
            },
    {
        decode_components(encoded_ref)
    }

    /// The node that governs a path, walking down from the root.
    pub fn resolve(&self, refs: &[RefComponent]) -> (r: Result<&SchemaItem, SchemaResolutionError>)
        ensures
            match r {
                Ok(item) => resolve_spec(self.root(), names_of(refs@)) == Ok::<
                    SchemaItem,
                    ResolveFailure,
                >(*item),
                Err(e) => resolve_spec(self.root(), names_of(refs@)) == Err::<
                    SchemaItem,
                    ResolveFailure,
                >(e@),
            },
    {
        self.0.resolve(refs)
    }
}

/// The node one name below a resolved path: the inner kind below a
/// collection, the field of that name below a document.
pub proof fn lemma_resolve_child(root: SchemaItem, path: Seq<Seq<char>>, name: Seq<char>)
    requires
        resolve_spec(root, path) is Ok,
    ensures
        resolve_spec(root, path.push(name)) == resolve_spec(
            resolve_spec(root, path)->Ok_0,
            seq![name],
        ),
        resolve_spec(root, path)->Ok_0 matches SchemaItem::Collection(inner) ==> resolve_spec(
            root,
            path.push(name),
        ) == Ok::<SchemaItem, ResolveFailure>(*inner),
        resolve_spec(root, path)->Ok_0 matches SchemaItem::Document(fields) ==> (field_index(
            fields@,
            name,
            0,
        ) matches Some(i) ==> resolve_spec(root, path.push(name)) == Ok::<
            SchemaItem,
            ResolveFailure,
        >(fields@[i].1)),
{
    lemma_resolve_concat(root, path, seq![name]);
    assert(path.push(name) =~= path + seq![name]);
    assert(seq![name].drop_first() =~= Seq::<Seq<char>>::empty());
    assert(seq![name][0] == name);
    let item = resolve_spec(root, path)->Ok_0;
    match item {
        SchemaItem::Collection(inner) => {
            assert(resolve_spec(*inner, Seq::<Seq<char>>::empty()) == Ok::<
                SchemaItem,
                ResolveFailure,
            >(*inner));
        },
        SchemaItem::Document(fields) => {
            match field_index(fields@, name, 0) {
                Some(i) => {
                    assert(resolve_spec(fields@[i].1, Seq::<Seq<char>>::empty()) == Ok::<
                        SchemaItem,
                        ResolveFailure,
                    >(fields@[i].1));
                },
                None => {},
            }
        },
        SchemaItem::Scalar => {},
    }
}

/// Below a schema whose documents name each field once, every resolved
/// node's documents do so too.
pub proof fn lemma_resolve_wf(item: SchemaItem, path: Seq<Seq<char>>)
    requires
        item.wf(),
        resolve_spec(item, path) is Ok,
    ensures
        resolve_spec(item, path)->Ok_0.wf(),
    decreases path.len(),
{
    if path.len() > 0 {
        match item {
            SchemaItem::Collection(inner) => {
                lemma_resolve_wf(*inner, path.drop_first());
            },
            SchemaItem::Document(fields) => {
                let i = field_index(fields@, path[0], 0)->Some_0;
                lemma_field_index(fields@, path[0], 0);
                lemma_resolve_wf(fields@[i].1, path.drop_first());
            },
            SchemaItem::Scalar => {},
        }
    }
}

/// Where no two fields share a name, the field called by the name of the
/// field at `i` is the field at `i`.
pub proof fn lemma_field_index_distinct(fields: Seq<(String, SchemaItem)>, i: int)
    requires
        distinct_field_names(fields),
        0 <= i < fields.len(),
    ensures
        field_index(fields, fields[i].0@, 0) == Some(i),
{
    lemma_field_index(fields, fields[i].0@, 0);
}

} // verus!
