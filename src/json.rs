pub mod document;
pub mod laws;
pub mod render;
pub mod round_trip;
pub mod parse;
pub mod text;

pub use document::{document_of, get_path, set_path, Json};
pub use render::render;

use vstd::prelude::*;

verus! {

/// The mathematical value of a JSON tree: objects are key/value sequences,
/// strings are character sequences, numbers are integers.
pub enum Val {
    Object(Seq<(Seq<char>, Val)>),
    Array(Seq<Val>),
    Str(Seq<char>),
    Number(int),
    Bool(bool),
    Null,
}

/// A JSON value held in memory. An object keeps its entries in the order in
/// which they were added; its keys are meant to be unique.
#[derive(Debug, PartialEq, Eq)]
pub enum JsonValue {
    Object(Vec<(String, JsonValue)>),
    Array(Vec<JsonValue>),
    String(String),
    Number(i64),
    Bool(bool),
    Null,
}

/// The kinds of failure of parsing and of path navigation.
#[derive(Debug, Clone, Copy, PartialEq, Eq, Structural)]
pub enum JsonError {
    MalformedInput,
    DuplicateKey,
    PathNotFound,
    PathTypeMismatch,
    EmptyPath,
}

/// The model of a value.
pub open spec fn model_of(v: JsonValue) -> Val
    decreases v, 0int,
{
    match v {
        JsonValue::Object(items) => Val::Object(model_items(items@, items@.len() as int)),
        JsonValue::Array(elems) => Val::Array(model_seq(elems@, elems@.len() as int)),
        JsonValue::String(s) => Val::Str(s@),
        JsonValue::Number(n) => Val::Number(n as int),
        JsonValue::Bool(b) => Val::Bool(b),
        JsonValue::Null => Val::Null,
    }
}

/// The models of the first `n` elements of `a`.
pub open spec fn model_seq(a: Seq<JsonValue>, n: int) -> Seq<Val>
    decreases a, n,
{
    if n <= 0 || n > a.len() {
        Seq::empty()
    } else {
        model_seq(a, n - 1).push(model_of(a[n - 1]))
    }
}

/// The models of the first `n` entries of `a`.
pub open spec fn model_items(a: Seq<(String, JsonValue)>, n: int) -> Seq<(Seq<char>, Val)>
    decreases a, n,
{
    if n <= 0 || n > a.len() {
        Seq::empty()
    } else {
        model_items(a, n - 1).push((a[n - 1].0@, model_of(a[n - 1].1)))
    }
}

impl View for JsonValue {
    type V = Val;

    open spec fn view(&self) -> Val {
        model_of(*self)
    }
}

/// A result with its value taken to the model.
pub open spec fn result_view(r: Result<JsonValue, JsonError>) -> Result<Val, JsonError> {
    match r {
        Ok(v) => Ok(v@),
        Err(e) => Err(e),
    }
}

/// The model of a sequence of values, element by element.
pub proof fn lemma_model_seq(a: Seq<JsonValue>, n: int)
    requires
        0 <= n <= a.len(),
    ensures
        model_seq(a, n).len() == n,
        forall|i: int| 0 <= i < n ==> #[trigger] model_seq(a, n)[i] == model_of(a[i]),
    decreases n,
{
    if n > 0 {
        lemma_model_seq(a, n - 1);
    }
}

/// The model of a sequence of entries, entry by entry.
pub proof fn lemma_model_items(a: Seq<(String, JsonValue)>, n: int)
    requires
        0 <= n <= a.len(),
    ensures
        model_items(a, n).len() == n,
        forall|i: int|
            0 <= i < n ==> #[trigger] model_items(a, n)[i] == (a[i].0@, model_of(a[i].1)),
    decreases n,
{
    if n > 0 {
        lemma_model_items(a, n - 1);
    }
}

/// The model of all entries of `a`.
pub open spec fn entries_view(a: Seq<(String, JsonValue)>) -> Seq<(Seq<char>, Val)> {
    model_items(a, a.len() as int)
}

/// The model of all elements of `a`.
pub open spec fn elems_view(a: Seq<JsonValue>) -> Seq<Val> {
    model_seq(a, a.len() as int)
}

/// Appending an entry appends its model.
pub proof fn lemma_entries_push(a: Seq<(String, JsonValue)>, x: (String, JsonValue))
    ensures
        entries_view(a.push(x)) == entries_view(a).push((x.0@, x.1@)),
{
    lemma_model_items(a, a.len() as int);
    lemma_model_items(a.push(x), a.len() as int + 1);
    assert(entries_view(a.push(x)) =~= entries_view(a).push((x.0@, x.1@)));
}

/// Appending an element appends its model.
pub proof fn lemma_elems_push(a: Seq<JsonValue>, x: JsonValue)
    ensures
        elems_view(a.push(x)) == elems_view(a).push(x@),
{
    lemma_model_seq(a, a.len() as int);
    lemma_model_seq(a.push(x), a.len() as int + 1);
    assert(elems_view(a.push(x)) =~= elems_view(a).push(x@));
}

/// The first position at or after `i` whose key is `k`, or -1.
pub open spec fn find_from(items: Seq<(Seq<char>, Val)>, k: Seq<char>, i: int) -> int
    decreases items.len() - i,
{
    if i < 0 || i >= items.len() {
        -1
    } else if items[i].0 == k {
        i
    } else {
        find_from(items, k, i + 1)
    }
}

/// The position of key `k` among `items`, or -1.
pub open spec fn index_of(items: Seq<(Seq<char>, Val)>, k: Seq<char>) -> int {
    find_from(items, k, 0)
}

pub proof fn lemma_find_from(items: Seq<(Seq<char>, Val)>, k: Seq<char>, i: int)
    requires
        0 <= i,
    ensures
        find_from(items, k, i) == -1 || (i <= find_from(items, k, i) < items.len() && items[find_from(items, k, i)].0 == k),
    decreases items.len() - i,
{
    if i < items.len() && items[i].0 != k {
        lemma_find_from(items, k, i + 1);
    }
}

/// Finds the entry of `entries` whose key is `k`.
pub fn find_key(entries: &Vec<(String, JsonValue)>, k: &String) -> (r: Option<usize>)
    ensures
        match r {
            Some(j) => j as int == index_of(entries_view(entries@), k@) && j < entries@.len(),
            None => index_of(entries_view(entries@), k@) == -1,
        },
{
    let ghost items = entries_view(entries@);
    proof {
        lemma_model_items(entries@, entries@.len() as int);
    }
    let mut i: usize = 0;
    while i < entries.len()
        invariant
            i <= entries@.len(),
            items == entries_view(entries@),
            items.len() == entries@.len(),
            forall|j: int| 0 <= j < entries@.len() ==> #[trigger] items[j].0 == entries@[j].0@,
            index_of(items, k@) == find_from(items, k@, i as int),
        decreases entries@.len() - i,
    {
        if entries[i].0 == *k {
            return Some(i);
        }
        i = i + 1;
    }
    None
}

/// Replacing an entry replaces its model.
pub proof fn lemma_entries_update(a: Seq<(String, JsonValue)>, j: int, x: (String, JsonValue))
    requires
        0 <= j < a.len(),
    ensures
        entries_view(a.update(j, x)) == entries_view(a).update(j, (x.0@, x.1@)),
{
    lemma_model_items(a, a.len() as int);
    lemma_model_items(a.update(j, x), a.len() as int);
    assert(entries_view(a.update(j, x)) =~= entries_view(a).update(j, (x.0@, x.1@)));
}

/// A copy of `v`, with the same model.
pub fn copy_value(v: &JsonValue) -> (r: JsonValue)
    ensures
        r@ == v@,
    decreases v, 1int,
{
    match v {
        JsonValue::Object(items) => {
            proof {
                assert(decreases_to!(*v => v->Object_0));
            }
            JsonValue::Object(copy_entries(items))
        },
        JsonValue::Array(elems) => {
            proof {
                assert(decreases_to!(*v => v->Array_0));
            }
            JsonValue::Array(copy_elems(elems))
        },
        JsonValue::String(s) => JsonValue::String(s.clone()),
        JsonValue::Number(n) => JsonValue::Number(*n),
        JsonValue::Bool(b) => JsonValue::Bool(*b),
        JsonValue::Null => JsonValue::Null,
    }
}

impl Clone for JsonValue {
    fn clone(&self) -> (r: JsonValue)
        ensures
            r@ == self@,
    {
        copy_value(self)
    }
}

/// A copy of the entries `items`, with the same model.
pub fn copy_entries(items: &Vec<(String, JsonValue)>) -> (r: Vec<(String, JsonValue)>)
    ensures
        entries_view(r@) == entries_view(items@),
    decreases items, 0int,
{
    let mut out: Vec<(String, JsonValue)> = Vec::new();
    let mut k: usize = 0;
    while k < items.len()
        invariant
            k <= items@.len(),
            out@.len() == k,
            forall|j: int|
                0 <= j < k ==> (#[trigger] out@[j]).0@ == items@[j].0@ && out@[j].1@
                    == items@[j].1@,
        decreases items@.len() - k,
    {
        proof {
            vstd::std_specs::vec::axiom_vec_index_decreases(*items, k as int);
            assert(decreases_to!(items[k as int] => items[k as int].1));
        }
        let c = copy_value(&items[k].1);
        out.push((items[k].0.clone(), c));
        k = k + 1;
    }
    proof {
        lemma_model_items(out@, out@.len() as int);
        lemma_model_items(items@, items@.len() as int);
        assert(entries_view(out@) =~= entries_view(items@));
    }
    out
}

/// A copy of the elements `elems`, with the same model.
pub fn copy_elems(elems: &Vec<JsonValue>) -> (r: Vec<JsonValue>)
    ensures
        elems_view(r@) == elems_view(elems@),
    decreases elems, 0int,
{
    let mut out: Vec<JsonValue> = Vec::new();
    let mut k: usize = 0;
    while k < elems.len()
        invariant
            k <= elems@.len(),
            out@.len() == k,
            forall|j: int| 0 <= j < k ==> (#[trigger] out@[j])@ == elems@[j]@,
        decreases elems@.len() - k,
    {
        proof {
            vstd::std_specs::vec::axiom_vec_index_decreases(*elems, k as int);
        }
        let c = copy_value(&elems[k]);
        out.push(c);
        k = k + 1;
    }
    proof {
        lemma_model_seq(out@, out@.len() as int);
        lemma_model_seq(elems@, elems@.len() as int);
        assert(elems_view(out@) =~= elems_view(elems@));
    }
    out
}

} // verus!
