use vstd::prelude::*;

use super::parse::parse_value;
use super::text::{chars_of, string_of, trim, trim_range};
use super::laws::{lemma_parsed_keys_unique, lemma_set_keeps_keys_unique, well_formed};
use super::render::render;
use super::{
    copy_elems, copy_entries, copy_value, elems_view, entries_view, find_key, index_of, lemma_entries_push,
    lemma_entries_update, lemma_find_from, lemma_model_items, result_view, JsonError,
    JsonValue, Val,
};

verus! {

/// The segments of a dotted path, in order; `a..b` has an empty middle segment.
pub open spec fn split_dots(p: Seq<char>) -> Seq<Seq<char>>
    decreases p.len(),
{
    if p.len() == 0 {
        seq![Seq::empty()]
    } else {
        let r = split_dots(p.drop_last());
        if p.last() == '.' {
            r.push(Seq::empty())
        } else {
            r.update(r.len() - 1, r.last().push(p.last()))
        }
    }
}

pub proof fn lemma_split_nonempty(p: Seq<char>)
    ensures
        split_dots(p).len() >= 1,
    decreases p.len(),
{
    if p.len() > 0 {
        lemma_split_nonempty(p.drop_last());
    }
}

/// The characters of each string.
pub open spec fn strings_view(v: Seq<String>) -> Seq<Seq<char>> {
    v.map_values(|s: String| s@)
}

/// What the segments `segs` lead to from the object with entries `items`:
/// objects are entered; any other value ends the walk and must come last.
pub open spec fn get_in(items: Seq<(Seq<char>, Val)>, segs: Seq<Seq<char>>) -> Result<
    Val,
    JsonError,
>
    decreases segs.len(),
{
    if segs.len() == 0 {
        Ok(Val::Object(items))
    } else {
        let j = index_of(items, segs[0]);
        if j < 0 {
            Err(JsonError::PathNotFound)
        } else {
            match items[j].1 {
                Val::Object(o) => get_in(o, segs.drop_first()),
                v => if segs.len() == 1 {
                    Ok(v)
                } else {
                    Err(JsonError::PathTypeMismatch)
                },
            }
        }
    }
}

/// What dotted path `path` leads to in a document with root `root`.
pub open spec fn get_path(root: Val, path: Seq<char>) -> Result<Val, JsonError> {
    match root {
        Val::Object(items) => get_in(items, split_dots(path)),
        _ => Err(JsonError::PathTypeMismatch),
    }
}

/// `items` with key `k` bound to `v`: in place if present, else at the end.
pub open spec fn put(items: Seq<(Seq<char>, Val)>, k: Seq<char>, v: Val) -> Seq<(Seq<char>, Val)> {
    let j = index_of(items, k);
    if j < 0 {
        items.push((k, v))
    } else {
        items.update(j, (k, v))
    }
}

/// The entries after binding the place that `segs` names to `v`; missing
/// objects on the way are created, other values on the way are refused.
pub open spec fn set_in(items: Seq<(Seq<char>, Val)>, segs: Seq<Seq<char>>, v: Val) -> Result<
    Seq<(Seq<char>, Val)>,
    JsonError,
>
    decreases segs.len(),
{
    if segs.len() == 0 {
        Ok(items)
    } else if segs.len() == 1 {
        Ok(put(items, segs[0], v))
    } else {
        let j = index_of(items, segs[0]);
        if j < 0 {
            match set_in(Seq::empty(), segs.drop_first(), v) {
                Ok(o) => Ok(items.push((segs[0], Val::Object(o)))),
                Err(e) => Err(e),
            }
        } else {
            match items[j].1 {
                Val::Object(o) => match set_in(o, segs.drop_first(), v) {
                    Ok(o2) => Ok(items.update(j, (segs[0], Val::Object(o2)))),
                    Err(e) => Err(e),
                },
                _ => Err(JsonError::PathTypeMismatch),
            }
        }
    }
}

/// The root after setting dotted path `path` (trimmed) to `v`.
pub open spec fn set_path(root: Val, path: Seq<char>, v: Val) -> Result<Val, JsonError> {
    let p = trim(path);
    if p.len() == 0 {
        Err(JsonError::EmptyPath)
    } else {
        match root {
            Val::Object(items) => match set_in(items, split_dots(p), v) {
                Ok(o) => Ok(Val::Object(o)),
                Err(e) => Err(e),
            },
            _ => Err(JsonError::PathTypeMismatch),
        }
    }
}

/// The document that a text stands for: its value, which must be an object or an array.
pub open spec fn document_of(s: Seq<char>) -> Result<Val, JsonError> {
    match parse_value(s) {
        Ok(Val::Object(o)) => Ok(Val::Object(o)),
        Ok(Val::Array(a)) => Ok(Val::Array(a)),
        Ok(_) => Err(JsonError::MalformedInput),
        Err(e) => Err(e),
    }
}

/// Splits `cs[lo..hi]` at each dot.
pub fn split_path(cs: &Vec<char>, lo: usize, hi: usize) -> (r: Vec<String>)
    requires
        lo <= hi <= cs@.len(),
    ensures
        strings_view(r@) == split_dots(cs@.subrange(lo as int, hi as int)),
{
    let mut segs: Vec<String> = Vec::new();
    let mut cur: Vec<char> = Vec::new();
    let mut i: usize = lo;
    assert(cs@.subrange(lo as int, lo as int) =~= Seq::<char>::empty());
    assert(strings_view(segs@).push(cur@) =~= seq![Seq::<char>::empty()]);
    while i < hi
        invariant
            lo <= i <= hi <= cs@.len(),
            strings_view(segs@).push(cur@) == split_dots(cs@.subrange(lo as int, i as int)),
        decreases hi - i,
    {
        let ghost p = cs@.subrange(lo as int, i + 1);
        assert(p.drop_last() =~= cs@.subrange(lo as int, i as int));
        assert(p.last() == cs@[i as int]);
        let ghost before = strings_view(segs@);
        if cs[i] == '.' {
            let s = string_of(&cur);
            segs.push(s);
            cur.clear();
            assert(strings_view(segs@) =~= before.push(s@));
            assert(strings_view(segs@).push(cur@) =~= split_dots(p));
        } else {
            cur.push(cs[i]);
            assert(strings_view(segs@).push(cur@) =~= split_dots(p));
        }
        i = i + 1;
    }
    let s = string_of(&cur);
    let ghost before = strings_view(segs@);
    segs.push(s);
    assert(strings_view(segs@) =~= before.push(s@));
    segs
}

#[derive(Debug, PartialEq, Eq)]
enum JsonRoot {
    Object(Vec<(String, JsonValue)>),
    Array(Vec<JsonValue>),
}

/// A document: a JSON object or array that dotted paths reach into.
#[derive(Debug, PartialEq, Eq)]
pub struct Json {
    data: JsonRoot,
}

impl View for Json {
    type V = Val;

    closed spec fn view(&self) -> Val {
        match self.data {
            JsonRoot::Object(items) => Val::Object(entries_view(items@)),
            JsonRoot::Array(elems) => Val::Array(elems_view(elems@)),
        }
    }
}

/// Walks `segs[i..]` from the object with entries `entries`.
fn get_from(entries: &Vec<(String, JsonValue)>, segs: &Vec<String>, i: usize) -> (r: Result<
    JsonValue,
    JsonError,
>)
    requires
        i <= segs@.len(),
    ensures
        result_view(r) == get_in(
            entries_view(entries@),
            strings_view(segs@).subrange(i as int, segs@.len() as int),
        ),
    decreases segs@.len() - i,
{
    let ghost rest = strings_view(segs@).subrange(i as int, segs@.len() as int);
    if i == segs.len() {
        assert(rest.len() == 0);
        return Ok(JsonValue::Object(copy_entries(entries)));
    }
    assert(rest[0] == segs@[i as int]@);
    assert(rest.drop_first() =~= strings_view(segs@).subrange(i + 1, segs@.len() as int));
    match find_key(entries, &segs[i]) {
        None => Err(JsonError::PathNotFound),
        Some(j) => {
            proof {
                lemma_model_items(entries@, entries@.len() as int);
            }
            match &entries[j].1 {
                JsonValue::Object(o) => get_from(o, segs, i + 1),
                other => {
                    if i + 1 == segs.len() {
                        Ok(copy_value(other))
                    } else {
                        Err(JsonError::PathTypeMismatch)
                    }
                },
            }
        },
    }
}

/// Binds `k` to `v` among `entries`.
fn put_entry(entries: &mut Vec<(String, JsonValue)>, k: String, v: JsonValue)
    ensures
        entries_view(final(entries)@) == put(entries_view(old(entries)@), k@, v@),
{
    let ghost before = entries@;
    match find_key(entries, &k) {
        None => {
            proof {
                lemma_entries_push(entries@, (k, v));
            }
            entries.push((k, v));
        },
        Some(j) => {
            proof {
                lemma_entries_update(entries@, j as int, (k, v));
            }
            entries.remove(j);
            entries.insert(j, (k, v));
            assert(entries@ =~= before.update(j as int, (k, v)));
        },
    }
}

/// Sets the place that `segs[i..]` names, from the object with entries
/// `entries`, to `value`; on failure `entries` keeps its model.
fn set_from(entries: &mut Vec<(String, JsonValue)>, segs: &Vec<String>, i: usize, value: JsonValue) -> (r:
    Result<(), JsonError>)
    requires
        i < segs@.len(),
    ensures
        match set_in(
            entries_view(old(entries)@),
            strings_view(segs@).subrange(i as int, segs@.len() as int),
            value@,
        ) {
            Ok(e) => r is Ok && entries_view(final(entries)@) == e,
            Err(e) => r == Err::<(), JsonError>(e) && entries_view(final(entries)@)
                == entries_view(old(entries)@),
        },
    decreases segs@.len() - i,
{
    let ghost rest = strings_view(segs@).subrange(i as int, segs@.len() as int);
    let ghost items = entries_view(entries@);
    assert(rest[0] == segs@[i as int]@);
    assert(rest.drop_first() =~= strings_view(segs@).subrange(i + 1, segs@.len() as int));
    if i == segs.len() - 1 {
        put_entry(entries, segs[i].clone(), value);
        return Ok(());
    }
    match find_key(entries, &segs[i]) {
        None => {
            let mut fresh: Vec<(String, JsonValue)> = Vec::new();
            assert(entries_view(fresh@) =~= Seq::<(Seq<char>, Val)>::empty());
            match set_from(&mut fresh, segs, i + 1, value) {
                Ok(()) => {
                    let k = segs[i].clone();
                    let child = JsonValue::Object(fresh);
                    proof {
                        lemma_entries_push(entries@, (k, child));
                    }
                    entries.push((k, child));
                    Ok(())
                },
                Err(e) => Err(e),
            }
        },
        Some(j) => {
            let ghost before = entries@;
            proof {
                lemma_model_items(entries@, entries@.len() as int);
                lemma_find_from(items, segs@[i as int]@, 0);
            }
            let (k, child) = entries.remove(j);
            match child {
                JsonValue::Object(mut o) => {
                    let r = set_from(&mut o, segs, i + 1, value);
                    let ghost pair = (k, JsonValue::Object(o));
                    proof {
                        lemma_entries_update(before, j as int, pair);
                    }
                    entries.insert(j, (k, JsonValue::Object(o)));
                    assert(entries@ =~= before.update(j as int, pair));
                    proof {
                        if r is Err {
                            assert(entries_view(entries@) =~= items);
                        }
                    }
                    r
                },
                other => {
                    entries.insert(j, (k, other));
                    assert(entries@ =~= before);
                    Err(JsonError::PathTypeMismatch)
                },
            }
        },
    }
}

impl Json {
    /// The document that `text` holds; a text whose value is neither an
    /// object nor an array is refused.
    pub fn from_text(text: &str) -> (r: Result<Json, JsonError>)
        ensures
            match document_of(text@) {
                Ok(v) => r is Ok && r->Ok_0@ == v,
                Err(e) => r matches Err(e2) && e2 == e,
            },
            r is Ok ==> well_formed(r->Ok_0@),
    {
        proof {
            if parse_value(text@) is Ok {
                lemma_parsed_keys_unique(text@);
            }
        }
        match JsonValue::parse(text) {
            Ok(JsonValue::Object(items)) => Ok(Json { data: JsonRoot::Object(items) }),
            Ok(JsonValue::Array(elems)) => Ok(Json { data: JsonRoot::Array(elems) }),
            Ok(_) => Err(JsonError::MalformedInput),
            Err(e) => Err(e),
        }
    }

    /// A copy of the document's root value.
    pub fn root(&self) -> (r: JsonValue)
        ensures
            r@ == self@,
    {
        match &self.data {
            JsonRoot::Object(items) => JsonValue::Object(copy_entries(items)),
            JsonRoot::Array(elems) => JsonValue::Array(copy_elems(elems)),
        }
    }

    /// The JSON text of the document.
    pub fn to_string(&self) -> (r: String)
        ensures
            r@ == render(self@),
    {
        match &self.data {
            JsonRoot::Object(items) => {
                let v = JsonValue::Object(copy_entries(items));
                v.to_string()
            },
            JsonRoot::Array(elems) => {
                let v = JsonValue::Array(copy_elems(elems));
                v.to_string()
            },
        }
    }

    /// The value that dotted path `key` leads to.
    pub fn get(&self, key: &str) -> (r: Result<JsonValue, JsonError>)
        ensures
            result_view(r) == get_path(self@, key@),
    {
        match &self.data {
            JsonRoot::Object(items) => {
                let cs = chars_of(key);
                let segs = split_path(&cs, 0, cs.len());
                assert(cs@.subrange(0, cs@.len() as int) =~= key@);
                assert(strings_view(segs@).subrange(0, segs@.len() as int) =~= strings_view(
                    segs@,
                ));
                get_from(items, &segs, 0)
            },
            JsonRoot::Array(_) => Err(JsonError::PathTypeMismatch),
        }
    }

    /// Sets the place that dotted path `key` (trimmed) names to `value`,
    /// creating missing objects on the way. On failure the document stays as it was.
    pub fn set(&mut self, key: &str, value: JsonValue) -> (r: Result<(), JsonError>)
        ensures
            match set_path(old(self)@, key@, value@) {
                Ok(v) => r is Ok && final(self)@ == v,
                Err(e) => r == Err::<(), JsonError>(e) && final(self)@ == old(self)@,
            },
            well_formed(old(self)@) && well_formed(value@) ==> well_formed(final(self)@),
    {
        proof {
            if set_path(self@, key@, value@) is Ok && well_formed(self@) && well_formed(value@) {
                lemma_set_keeps_keys_unique(self@, key@, value@);
            }
        }
        let cs = chars_of(key);
        let (lo, hi) = trim_range(&cs, 0, cs.len());
        assert(cs@.subrange(0, cs@.len() as int) =~= key@);
        if lo == hi {
            return Err(JsonError::EmptyPath);
        }
        match &mut self.data {
            JsonRoot::Object(items) => {
                let segs = split_path(&cs, lo, hi);
                proof {
                    lemma_split_nonempty(cs@.subrange(lo as int, hi as int));
                }
                assert(strings_view(segs@).subrange(0, segs@.len() as int) =~= strings_view(
                    segs@,
                ));
                set_from(items, &segs, 0, value)
            },
            JsonRoot::Array(_) => Err(JsonError::PathTypeMismatch),
        }
    }
}

} // verus!
