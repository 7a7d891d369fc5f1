//! The value tree of a parsed text.

use crate::decimal::{Decimal, DecimalView};
use vstd::prelude::*;

verus! {

/// A parsed value.
#[derive(Debug, PartialEq, Eq)]
pub enum Value {
    Null,
    Bool(bool),
    Number(Decimal),
    String(String),
    Array(Vec<Value>),
    /// The members of an object, each key once, in the order in which the
    /// keys first came.
    Object(Vec<(String, Value)>),
}

/// The mathematical content of a `Value`.
pub enum ValueView {
    Null,
    Bool(bool),
    Number(DecimalView),
    String(Seq<char>),
    Array(Seq<ValueView>),
    Object(Map<Seq<char>, ValueView>),
}

/// An index at which `entries` holds `key`: the only one, where the keys are
/// distinct.
pub open spec fn key_index(entries: Seq<(String, Value)>, key: Seq<char>) -> int {
    choose|i: int| 0 <= i < entries.len() && entries[i].0@ == key
}

/// Some member of `entries` has the key `key`.
pub open spec fn has_key(entries: Seq<(String, Value)>, key: Seq<char>) -> bool {
    exists|i: int| 0 <= i < entries.len() && entries[i].0@ == key
}

impl View for Value {
    type V = ValueView;

    open spec fn view(&self) -> ValueView
        decreases self,
    {
        match self {
            Value::Null => ValueView::Null,
            Value::Bool(b) => ValueView::Bool(*b),
            Value::Number(d) => ValueView::Number(d@),
            Value::String(s) => ValueView::String(s@),
            Value::Array(items) => ValueView::Array(
                Seq::new(
                    items.len() as nat,
                    |i: int|
                        if 0 <= i < items.len() {
                            items[i].view()
                        } else {
                            ValueView::Null
                        },
                ),
            ),
            Value::Object(entries) => ValueView::Object(
                Map::new(
                    |key: Seq<char>| has_key(entries@, key),
                    |key: Seq<char>|
                        {
                            let i = key_index(entries@, key);
                            if 0 <= i < entries.len() {
                                entries[i].1.view()
                            } else {
                                ValueView::Null
                            }
                        },
                ),
            ),
        }
    }
}

/// No two members of `entries` have the same key.
pub open spec fn distinct_keys(entries: Seq<(String, Value)>) -> bool {
    forall|i: int, j: int|
        0 <= i < j < entries.len() ==> (#[trigger] entries[i]).0@ != (#[trigger] entries[j]).0@
}

impl Value {
    /// No object of the tree holds a key twice.
    pub open spec fn wf(&self) -> bool
        decreases self,
    {
        match self {
            Value::Array(items) => forall|i: int|
                0 <= i < items.len() ==> (#[trigger] items[i]).wf(),
            Value::Object(entries) => distinct_keys(entries@) && forall|i: int|
                0 <= i < entries.len() ==> (#[trigger] entries[i]).1.wf(),
            _ => true,
        }
    }
}

impl Value {
    /// The number of values in the tree.
    pub open spec fn weight(&self) -> nat
        decreases self,
    {
        match self {
            Value::Array(items) => 1 + values_weight(items@),
            Value::Object(entries) => 1 + entries_weight(entries@),
            _ => 1,
        }
    }
}

/// The number of values in the trees of `items`.
pub open spec fn values_weight(items: Seq<Value>) -> nat
    decreases items,
{
    if items.len() == 0 {
        0
    } else {
        values_weight(items.drop_last()) + items.last().weight()
    }
}

/// The number of values in the trees of `entries`.
pub open spec fn entries_weight(entries: Seq<(String, Value)>) -> nat
    decreases entries,
{
    if entries.len() == 0 {
        0
    } else {
        entries_weight(entries.drop_last()) + entries.last().1.weight()
    }
}

/// The values of two sequences count together.
proof fn lemma_values_weight_concat(a: Seq<Value>, b: Seq<Value>)
    ensures
        values_weight(a + b) == values_weight(a) + values_weight(b),
    decreases b.len(),
{
    if b.len() == 0 {
        assert(a + b =~= a);
    } else {
        lemma_values_weight_concat(a, b.drop_last());
        assert((a + b).drop_last() =~= a + b.drop_last());
    }
}

impl Value {
    /// Takes the tree apart, value by value, with a list of its own in
    /// place of the call stack: releasing a deep tree this way needs no
    /// deep stack.
    pub fn dispose(self) {
        let mut pending: Vec<Value> = Vec::new();
        pending.push(self);
        while pending.len() > 0
            decreases values_weight(pending@),
        {
            let ghost before = pending@;
            let top = pending.pop();
            assert(pending@ =~= before.drop_last());
            assert(values_weight(before) == values_weight(before.drop_last())
                + before.last().weight());
            match top {
                Some(Value::Array(mut items)) => {
                    proof {
                        assert(before.last().weight() == 1 + values_weight(items@));
                        lemma_values_weight_concat(pending@, items@);
                    }
                    pending.append(&mut items);
                },
                Some(Value::Object(mut entries)) => {
                    assert(before.last().weight() == 1 + entries_weight(entries@));
                    while entries.len() > 0
                        invariant
                            values_weight(pending@) + entries_weight(entries@) < values_weight(
                                before,
                            ),
                        decreases entries.len(),
                    {
                        let ghost pending_before = pending@;
                        let ghost entries_before = entries@;
                        match entries.pop() {
                            Some((_, item)) => {
                                assert(entries@ =~= entries_before.drop_last());
                                pending.push(item);
                                assert(pending@.drop_last() =~= pending_before);
                            },
                            None => {},
                        }
                    }
                },
                _ => {},
            }
        }
    }
}

/// The contents of the values `items`.
pub open spec fn values_view(items: Seq<Value>) -> Seq<ValueView> {
    Seq::new(items.len(), |i: int| items[i]@)
}

/// Every value of `items` is well formed.
pub open spec fn values_wf(items: Seq<Value>) -> bool {
    forall|i: int| 0 <= i < items.len() ==> (#[trigger] items[i]).wf()
}

/// The members `entries` as a map from key to content.
pub open spec fn entries_view(entries: Seq<(String, Value)>) -> Map<Seq<char>, ValueView> {
    Map::new(
        |key: Seq<char>| has_key(entries, key),
        |key: Seq<char>| entries[key_index(entries, key)].1@,
    )
}

/// The keys of `entries` are distinct and its values well formed.
pub open spec fn entries_wf(entries: Seq<(String, Value)>) -> bool {
    distinct_keys(entries) && forall|i: int|
        0 <= i < entries.len() ==> (#[trigger] entries[i]).1.wf()
}

/// The content of an array is the contents of its elements.
pub proof fn lemma_array_view(items: Vec<Value>)
    ensures
        Value::Array(items)@ == ValueView::Array(values_view(items@)),
        Value::Array(items).wf() == values_wf(items@),
{
    let whole = Value::Array(items)@;
    assert(whole->Array_0 =~= values_view(items@));
}

/// The content of an object maps each key to the content of its value.
pub proof fn lemma_object_view(entries: Vec<(String, Value)>)
    ensures
        Value::Object(entries)@ == ValueView::Object(entries_view(entries@)),
        Value::Object(entries).wf() == entries_wf(entries@),
{
    let whole = Value::Object(entries)@;
    assert forall|key: Seq<char>| has_key(entries@, key) implies #[trigger] whole->Object_0[key]
        == entries_view(entries@)[key] by {
        let i = key_index(entries@, key);
        assert(0 <= i < entries.len());
    }
    assert(whole->Object_0 =~= entries_view(entries@));
}

/// One more value adds its content at the end.
pub proof fn lemma_values_view_push(items: Seq<Value>, item: Value)
    ensures
        values_view(items.push(item)) == values_view(items).push(item@),
        values_wf(items) && item.wf() ==> values_wf(items.push(item)),
{
    assert(values_view(items.push(item)) =~= values_view(items).push(item@));
    if values_wf(items) && item.wf() {
        assert forall|i: int| 0 <= i < items.push(item).len() implies (#[trigger] items.push(
            item,
        )[i]).wf() by {
            if i < items.len() {
                assert(items.push(item)[i] == items[i]);
            }
        }
    }
}

/// Among distinct keys the index of a key is the only place that holds it.
pub proof fn lemma_key_index(entries: Seq<(String, Value)>, i: int)
    requires
        distinct_keys(entries),
        0 <= i < entries.len(),
    ensures
        has_key(entries, entries[i].0@),
        key_index(entries, entries[i].0@) == i,
{
    let key = entries[i].0@;
    let j = key_index(entries, key);
    assert(0 <= j < entries.len() && entries[j].0@ == key);
    if j < i {
        assert(entries[j].0@ != entries[i].0@);
    } else if i < j {
        assert(entries[i].0@ != entries[j].0@);
    }
}

/// A member with a new key adds its key to the map.
pub proof fn lemma_entries_view_push(entries: Seq<(String, Value)>, key: String, item: Value)
    requires
        entries_wf(entries),
        !has_key(entries, key@),
    ensures
        entries_view(entries.push((key, item))) == entries_view(entries).insert(key@, item@),
        item.wf() ==> entries_wf(entries.push((key, item))),
{
    let after = entries.push((key, item));
    assert(distinct_keys(after)) by {
        assert forall|i: int, j: int| 0 <= i < j < after.len() implies (#[trigger] after[i]).0@ != (
        #[trigger] after[j]).0@ by {
            if j < entries.len() {
                assert(entries[i].0@ != entries[j].0@);
            } else {
                assert(after[i] == entries[i]);
                if after[i].0@ == key@ {
                    assert(has_key(entries, key@));
                }
            }
        }
    }
    assert forall|name: Seq<char>| has_key(after, name) <==> (has_key(entries, name) || name
        == key@) by {
        if has_key(after, name) {
            let i = key_index(after, name);
            if i < entries.len() {
                assert(entries[i].0@ == name);
            }
        }
        if has_key(entries, name) {
            let i = key_index(entries, name);
            assert(after[i].0@ == name);
        }
        if name == key@ {
            assert(after[entries.len() as int].0@ == name);
        }
    }
    assert forall|name: Seq<char>| has_key(after, name) implies #[trigger] entries_view(
        after,
    )[name] == entries_view(entries).insert(key@, item@)[name] by {
        let i = key_index(after, name);
        lemma_key_index(after, i);
        if i < entries.len() {
            assert(after[i] == entries[i]);
            lemma_key_index(entries, i);
        }
    }
    assert(entries_view(after) =~= entries_view(entries).insert(key@, item@));
    if item.wf() {
        assert forall|i: int| 0 <= i < after.len() implies (#[trigger] after[i]).1.wf() by {
            if i < entries.len() {
                assert(after[i] == entries[i]);
            }
        }
    }
}

/// A member put in the place of the one with its key changes the value of
/// that key.
pub proof fn lemma_entries_view_replace(
    entries: Seq<(String, Value)>,
    at: int,
    key: String,
    item: Value,
)
    requires
        entries_wf(entries),
        0 <= at < entries.len(),
        entries[at].0@ == key@,
    ensures
        entries_view(entries.update(at, (key, item))) == entries_view(entries).insert(
            key@,
            item@,
        ),
        item.wf() ==> entries_wf(entries.update(at, (key, item))),
{
    let after = entries.update(at, (key, item));
    assert forall|i: int| 0 <= i < after.len() implies (#[trigger] after[i]).0@
        == entries[i].0@ by {}
    assert(distinct_keys(after)) by {
        assert forall|i: int, j: int| 0 <= i < j < after.len() implies (#[trigger] after[i]).0@ != (
        #[trigger] after[j]).0@ by {
            assert(entries[i].0@ != entries[j].0@);
        }
    }
    assert forall|name: Seq<char>| has_key(after, name) <==> (has_key(entries, name) || name
        == key@) by {
        if has_key(after, name) {
            let i = key_index(after, name);
            assert(entries[i].0@ == name);
        }
        if has_key(entries, name) {
            let i = key_index(entries, name);
            assert(after[i].0@ == name);
        }
        if name == key@ {
            assert(after[at].0@ == name);
        }
    }
    assert forall|name: Seq<char>| has_key(after, name) implies #[trigger] entries_view(
        after,
    )[name] == entries_view(entries).insert(key@, item@)[name] by {
        let i = key_index(after, name);
        lemma_key_index(after, i);
        lemma_key_index(entries, i);
        if i != at {
            assert(after[i] == entries[i]);
            assert(entries[i].0@ != entries[at].0@);
        }
    }
    assert(entries_view(after) =~= entries_view(entries).insert(key@, item@));
    if item.wf() {
        assert forall|i: int| 0 <= i < after.len() implies (#[trigger] after[i]).1.wf() by {
            if i != at {
                assert(after[i] == entries[i]);
            }
        }
    }
}

} // verus!
