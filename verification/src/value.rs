//! Values as clients write and read them: strings, records of named values,
//! and the kinds that no schema node holds.

use vstd::prelude::*;

verus! {

/// A value sent to or read from the store.
#[derive(Debug, PartialEq, Eq)]
pub enum Value {
    /// Nothing: what an absent document reads as.
    Null,
    /// A truth value. No schema node holds one.
    Bool(bool),
    /// A number, by its decimal text. No schema node holds one.
    Number(String),
    /// A string: what a scalar holds.
    String(String),
    /// A list. No schema node holds one.
    Array(Vec<Value>),
    /// A record: what a document or a collection holds. Where a name occurs
    /// twice, the later entry counts.
    Object(Vec<(String, Value)>),
}

/// The plain form of a [`Value`]: a record is a map from names to values.
pub ghost enum Json {
    Null,
    Bool(bool),
    Number(Seq<char>),
    Text(Seq<char>),
    List(Seq<Json>),
    Record(Map<Seq<char>, Json>),
}

/// The plain forms of a list of values, in order.
pub open spec fn list_model(items: Seq<Value>) -> Seq<Json>
    decreases items, 0nat,
{
    if items.len() == 0 {
        Seq::empty()
    } else {
        list_model(items.drop_last()).push(items.last().model())
    }
}

/// The map that a list of entries stands for.
pub open spec fn record_model(entries: Seq<(String, Value)>) -> Map<Seq<char>, Json>
    decreases entries, 0nat,
{
    if entries.len() == 0 {
        Map::empty()
    } else {
        record_model(entries.drop_last()).insert(entries.last().0@, entries.last().1.model())
    }
}

/// The names of a list of entries, in order.
pub open spec fn keys_of(entries: Seq<(String, Value)>) -> Seq<Seq<char>> {
    Seq::new(entries.len(), |i: int| entries[i].0@)
}

/// Whether some entry has the name `key`.
pub open spec fn has_key(entries: Seq<(String, Value)>, key: Seq<char>) -> bool {
    exists|i: int| 0 <= i < entries.len() && (#[trigger] entries[i]).0@ == key
}

/// No two entries share a name.
pub open spec fn distinct_keys(entries: Seq<(String, Value)>) -> bool {
    forall|i: int, j: int|
        0 <= i < j < entries.len() ==> (#[trigger] entries[i]).0@ != (#[trigger] entries[j]).0@
}

impl Value {
    /// The plain form of this value.
    pub open spec fn model(self) -> Json
        decreases self, 1nat,
    {
        match self {
            Value::Null => Json::Null,
            Value::Bool(b) => Json::Bool(b),
            Value::Number(text) => Json::Number(text@),
            Value::String(text) => Json::Text(text@),
            Value::Array(items) => Json::List(list_model(items@)),
            Value::Object(entries) => Json::Record(record_model(entries@)),
        }
    }

    /// Every record in this value names each of its entries once, by a
    /// name whose UTF-8 length can be written as a `u64`, and has a number
    /// of entries that can.
    pub open spec fn wf(self) -> bool
        decreases self,
    {
        match self {
            Value::Array(items) => forall|i: int|
                0 <= i < items@.len() ==> (#[trigger] items@[i]).wf(),
            Value::Object(entries) => distinct_keys(entries@) && entries@.len() <= u64::MAX
                && forall|i: int|
                0 <= i < entries@.len() ==> crate::codec::name_fits((#[trigger] entries@[i]).0@)
                    && entries@[i].1.wf(),
            _ => true,
        }
    }
}

impl View for Value {
    type V = Json;

    open spec fn view(&self) -> Json {
        self.model()
    }
}

/// Adding an entry at the end sets its name in the map.
pub proof fn lemma_record_push(entries: Seq<(String, Value)>, entry: (String, Value))
    ensures
        record_model(entries.push(entry)) == record_model(entries).insert(
            entry.0@,
            entry.1.model(),
        ),
{
    assert(entries.push(entry).drop_last() =~= entries);
}

/// The names of a record's map are the names of its entries.
pub proof fn lemma_record_dom(entries: Seq<(String, Value)>)
    ensures
        forall|key: Seq<char>|
            record_model(entries).dom().contains(key) <==> has_key(entries, key),
    decreases entries.len(),
{
    if entries.len() == 0 {
    } else {
        let init = entries.drop_last();
        lemma_record_dom(init);
        assert forall|key: Seq<char>|
            record_model(entries).dom().contains(key) <==> has_key(entries, key) by {
            if has_key(entries, key) {
                let i = choose|i: int| 0 <= i < entries.len() && (#[trigger] entries[i]).0@ == key;
                if i < entries.len() - 1 {
                    assert(init[i] == entries[i]);
                }
            }
            if has_key(init, key) {
                let i = choose|i: int| 0 <= i < init.len() && (#[trigger] init[i]).0@ == key;
                assert(init[i] == entries[i]);
            }
            if key == entries.last().0@ {
                assert(entries[entries.len() - 1].0@ == key);
            }
        }
    }
}

/// Where no name occurs twice, a record's map holds under each entry's
/// name that entry's value.
pub proof fn lemma_record_value(entries: Seq<(String, Value)>, j: int)
    requires
        distinct_keys(entries),
        0 <= j < entries.len(),
    ensures
        record_model(entries).dom().contains(entries[j].0@),
        record_model(entries)[entries[j].0@] == entries[j].1.model(),
    decreases entries.len(),
{
    let init = entries.drop_last();
    if j < entries.len() - 1 {
        assert(init[j] == entries[j]);
        assert(distinct_keys(init)) by {
            assert forall|a: int, b: int| 0 <= a < b < init.len() implies (#[trigger] init[a]).0@
                != (#[trigger] init[b]).0@ by {
                assert(init[a] == entries[a]);
                assert(init[b] == entries[b]);
            }
        }
        lemma_record_value(init, j);
        assert(entries[j].0@ != entries[entries.len() - 1].0@);
    }
}

/// The position of the last entry called `key`.
pub open spec fn last_index(entries: Seq<(String, Value)>, key: Seq<char>) -> Option<int>
    decreases entries.len(),
{
    if entries.len() == 0 {
        None
    } else if entries.last().0@ == key {
        Some(entries.len() - 1)
    } else {
        last_index(entries.drop_last(), key)
    }
}

/// A record's map holds under each name the value of the last entry of
/// that name, and nothing under any other name.
pub proof fn lemma_record_last(entries: Seq<(String, Value)>, key: Seq<char>)
    ensures
        record_model(entries).dom().contains(key) <==> last_index(entries, key) is Some,
        last_index(entries, key) matches Some(j) ==> {
            &&& 0 <= j < entries.len()
            &&& entries[j].0@ == key
            &&& record_model(entries)[key] == entries[j].1.model()
            &&& forall|k: int| j < k < entries.len() ==> (#[trigger] entries[k]).0@ != key
        },
        last_index(entries, key) is None ==> forall|k: int|
            0 <= k < entries.len() ==> (#[trigger] entries[k]).0@ != key,
    decreases entries.len(),
{
    if entries.len() > 0 {
        let init = entries.drop_last();
        lemma_record_last(init, key);
        if entries.last().0@ != key {
            match last_index(init, key) {
                Some(j) => {
                    assert(init[j] == entries[j]);
                    assert forall|k: int| j < k < entries.len() implies (#[trigger] entries[k]).0@
                        != key by {
                        if k < init.len() {
                            assert(init[k] == entries[k]);
                        }
                    }
                },
                None => {
                    assert forall|k: int| 0 <= k < entries.len() implies (#[trigger] entries[k]).0@
                        != key by {
                        if k < init.len() {
                            assert(init[k] == entries[k]);
                        }
                    }
                },
            }
        }
    }
}

/// The plain forms of a list of values are those of its items, in order.
pub proof fn lemma_list_model(items: Seq<Value>)
    ensures
        list_model(items).len() == items.len(),
        forall|i: int| 0 <= i < items.len() ==> list_model(items)[i] == (#[trigger] items[i]).model(),
    decreases items.len(),
{
    if items.len() > 0 {
        let init = items.drop_last();
        lemma_list_model(init);
        assert forall|i: int| 0 <= i < items.len() implies list_model(items)[i]
            == (#[trigger] items[i]).model() by {
            if i < init.len() {
                assert(init[i] == items[i]);
            }
        }
    }
}

/// The position of the last entry called `name`.
pub fn last_entry(entries: &Vec<(String, Value)>, name: &String) -> (found: Option<usize>)
    ensures
        match found {
            Some(j) => last_index(entries@, name@) == Some(j as int),
            None => last_index(entries@, name@) is None,
        },
{
    let mut found: Option<usize> = None;
    let mut i: usize = 0;
    proof {
        assert(entries@.subrange(0, 0) =~= Seq::<(String, Value)>::empty());
    }
    while i < entries.len()
        invariant
            i <= entries.len(),
            match found {
                Some(j) => last_index(entries@.subrange(0, i as int), name@) == Some(j as int),
                None => last_index(entries@.subrange(0, i as int), name@) is None,
            },
        decreases entries.len() - i,
    {
        proof {
            let upto = entries@.subrange(0, i + 1);
            assert(upto.drop_last() =~= entries@.subrange(0, i as int));
            assert(upto.last() == entries@[i as int]);
        }
        if entries[i].0 == *name {
            found = Some(i);
        }
        i = i + 1;
    }
    proof {
        assert(entries@.subrange(0, entries@.len() as int) =~= entries@);
    }
    found
}

impl Value {
    /// Whether two values are the same: strings by their text, lists item
    /// for item, records name for name, whatever the order of the entries.
    #[verifier::loop_isolation(false)]
    pub fn same_as(&self, other: &Value) -> (same: bool)
        ensures
            same == (self@ == other@),
        decreases *self,
    {
        match (self, other) {
            (Value::Null, Value::Null) => true,
            (Value::Bool(a), Value::Bool(b)) => *a == *b,
            (Value::Number(a), Value::Number(b)) => *a == *b,
            (Value::String(a), Value::String(b)) => *a == *b,
            (Value::Array(a), Value::Array(b)) => {
                proof {
                    lemma_list_model(a@);
                    lemma_list_model(b@);
                }
                if a.len() != b.len() {
                    return false;
                }
                let mut i: usize = 0;
                while i < a.len()
                    invariant
                        i <= a.len(),
                        a.len() == b.len(),
                        forall|j: int| 0 <= j < i ==> a@[j].model() == b@[j].model(),
                    decreases a.len() - i,
                {
                    if !a[i].same_as(&b[i]) {
                        assert(list_model(a@)[i as int] != list_model(b@)[i as int]);
                        return false;
                    }
                    i = i + 1;
                }
                proof {
                    assert forall|j: int| 0 <= j < a@.len() implies list_model(a@)[j]
                        == list_model(b@)[j] by {
                        assert(a@[j].model() == b@[j].model());
                    }
                    assert(list_model(a@) =~= list_model(b@));
                }
                true
            },
            (Value::Object(a), Value::Object(b)) => {
                let ghost left = record_model(a@);
                let ghost right = record_model(b@);
                let mut i: usize = 0;
                while i < a.len()
                    invariant
                        i <= a.len(),
                        forall|t: int|
                            0 <= t < i && last_index(a@, (#[trigger] a@[t]).0@) == Some(t)
                                ==> right.dom().contains(a@[t].0@) && left[a@[t].0@]
                                == right[a@[t].0@],
                    decreases a.len() - i,
                {
                    proof {
                        lemma_record_last(a@, a@[i as int].0@);
                        lemma_record_last(b@, a@[i as int].0@);
                    }
                    match last_entry(a, &a[i].0) {
                        Some(last) => {
                            if last == i {
                                match last_entry(b, &a[i].0) {
                                    None => {
                                        assert(left.dom().contains(a@[i as int].0@));
                                        assert(!right.dom().contains(a@[i as int].0@));
                                        return false;
                                    },
                                    Some(j) => {
                                        if !a[i].1.same_as(&b[j].1) {
                                            assert(left[a@[i as int].0@] != right[a@[i as int].0@]);
                                            return false;
                                        }
                                    },
                                }
                            }
                        },
                        None => {},
                    }
                    i = i + 1;
                }
                let mut j: usize = 0;
                while j < b.len()
                    invariant
                        j <= b.len(),
                        forall|t: int| 0 <= t < j ==> left.dom().contains((#[trigger] b@[t]).0@),
                    decreases b.len() - j,
                {
                    proof {
                        lemma_record_last(a@, b@[j as int].0@);
                        lemma_record_last(b@, b@[j as int].0@);
                    }
                    if last_entry(a, &b[j].0).is_none() {
                        assert(!left.dom().contains(b@[j as int].0@));
                        assert(right.dom().contains(b@[j as int].0@));
                        return false;
                    }
                    j = j + 1;
                }
                proof {
                    assert forall|key: Seq<char>| #[trigger]
                        left.dom().contains(key) implies right.dom().contains(key) && left[key]
                        == right[key] by {
                        lemma_record_last(a@, key);
                        let t = last_index(a@, key)->Some_0;
                        assert(last_index(a@, a@[t].0@) == Some(t));
                    }
                    assert forall|key: Seq<char>| #[trigger]
                        right.dom().contains(key) implies left.dom().contains(key) by {
                        lemma_record_last(b@, key);
                        let t = last_index(b@, key)->Some_0;
                        assert(left.dom().contains(b@[t].0@));
                    }
                    assert(left.dom() =~= right.dom());
                    assert(left =~= right);
                }
                true
            },
            _ => false,
        }
    }

    /// Whether every record in this value names each of its entries once.
    #[verifier::loop_isolation(false)]
    pub fn is_wf(&self) -> (ok: bool)
        ensures
            ok == self.wf(),
        decreases *self,
    {
        match self {
            Value::Array(items) => {
                let mut i: usize = 0;
                while i < items.len()
                    invariant
                        i <= items.len(),
                        forall|t: int| 0 <= t < i ==> (#[trigger] items@[t]).wf(),
                    decreases items.len() - i,
                {
                    if !items[i].is_wf() {
                        assert(!items@[i as int].wf());
                        return false;
                    }
                    i = i + 1;
                }
                true
            },
            Value::Object(entries) => {
                let count = entries.len();
                let mut i: usize = 0;
                while i < entries.len()
                    invariant
                        i <= entries.len(),
                        forall|a: int, b: int|
                            0 <= a < b < i ==> (#[trigger] entries@[a]).0@ != (
                            #[trigger] entries@[b]).0@,
                        forall|t: int|
                            0 <= t < i ==> crate::codec::name_fits((#[trigger] entries@[t]).0@)
                                && entries@[t].1.wf(),
                    decreases entries.len() - i,
                {
                    let _ = crate::codec::name_len(&entries[i].0);
                    let mut j: usize = 0;
                    while j < i
                        invariant
                            j <= i,
                            i < entries.len(),
                            forall|a: int|
                                0 <= a < j ==> (#[trigger] entries@[a]).0@ != entries@[i as int].0@,
                        decreases i - j,
                    {
                        if entries[j].0 == entries[i].0 {
                            assert(entries@[j as int].0@ == entries@[i as int].0@);
                            return false;
                        }
                        j = j + 1;
                    }
                    if !entries[i].1.is_wf() {
                        assert(!entries@[i as int].1.wf());
                        return false;
                    }
                    i = i + 1;
                }
                true
            },
            _ => true,
        }
    }

    /// A copy of this value.
    #[verifier::loop_isolation(false)]
    pub fn duplicate(&self) -> (copy: Value)
        ensures
            copy@ == self@,
        decreases *self,
    {
        match self {
            Value::Null => Value::Null,
            Value::Bool(b) => Value::Bool(*b),
            Value::Number(text) => Value::Number(text.clone()),
            Value::String(text) => Value::String(text.clone()),
            Value::Array(items) => {
                let mut copies: Vec<Value> = Vec::new();
                let mut i: usize = 0;
                proof {
                    assert(items@.subrange(0, 0) =~= Seq::<Value>::empty());
                }
                while i < items.len()
                    invariant
                        i <= items.len(),
                        list_model(copies@) == list_model(items@.subrange(0, i as int)),
                    decreases items.len() - i,
                {
                    let item = items[i].duplicate();
                    proof {
                        let upto = items@.subrange(0, i + 1);
                        assert(upto.drop_last() =~= items@.subrange(0, i as int));
                        assert(upto.last() == items@[i as int]);
                        assert(copies@.push(item).drop_last() =~= copies@);
                    }
                    copies.push(item);
                    i = i + 1;
                }
                proof {
                    assert(items@.subrange(0, items@.len() as int) =~= items@);
                }
                Value::Array(copies)
            },
            Value::Object(entries) => {
                let mut copies: Vec<(String, Value)> = Vec::new();
                let mut i: usize = 0;
                proof {
                    assert(entries@.subrange(0, 0) =~= Seq::<(String, Value)>::empty());
                }
                while i < entries.len()
                    invariant
                        i <= entries.len(),
                        record_model(copies@) == record_model(entries@.subrange(0, i as int)),
                    decreases entries.len() - i,
                {
                    let entry = (entries[i].0.clone(), entries[i].1.duplicate());
                    proof {
                        let upto = entries@.subrange(0, i + 1);
                        assert(upto.drop_last() =~= entries@.subrange(0, i as int));
                        assert(upto.last() == entries@[i as int]);
                        lemma_record_push(copies@, entry);
                    }
                    copies.push(entry);
                    i = i + 1;
                }
                proof {
                    assert(entries@.subrange(0, entries@.len() as int) =~= entries@);
                }
                Value::Object(copies)
            },
        }
    }
}

} // verus!
