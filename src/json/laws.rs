use vstd::prelude::*;

use super::document::{get_in, get_path, put, set_in, set_path, split_dots};
use super::parse::{add_elem, add_entry, arr_scan, arr_step, obj_scan, obj_step, parse_value};
use super::render::{digit_char, nat_text, render};
use super::text::{
    all_digits, ascii_lower, digits_value, eq_ignore_ascii_case, int_literal, is_ws, trim,
    trim_start,
};
use super::{find_from, index_of, JsonError, JsonValue, Val};

verus! {

/// `find_from` gives the first position at or after `i` holding key `k`.
pub proof fn lemma_find_first(items: Seq<(Seq<char>, Val)>, k: Seq<char>, i: int)
    requires
        0 <= i,
    ensures
        find_from(items, k, i) == -1 ==> forall|m: int|
            i <= m < items.len() ==> (#[trigger] items[m]).0 != k,
        find_from(items, k, i) != -1 ==> {
            &&& i <= find_from(items, k, i) < items.len()
            &&& items[find_from(items, k, i)].0 == k
            &&& forall|m: int| i <= m < find_from(items, k, i) ==> (#[trigger] items[m]).0 != k
        },
    decreases items.len() - i,
{
    if i < items.len() && items[i].0 != k {
        lemma_find_first(items, k, i + 1);
    }
}

/// Position `j` is the first that holds key `k`.
proof fn lemma_index_is(items: Seq<(Seq<char>, Val)>, k: Seq<char>, j: int)
    requires
        0 <= j < items.len(),
        items[j].0 == k,
        forall|m: int| 0 <= m < j ==> (#[trigger] items[m]).0 != k,
    ensures
        index_of(items, k) == j,
{
    lemma_find_first(items, k, 0);
}

/// After binding `k`, the first position of `k` holds the new binding.
proof fn lemma_put_found(items: Seq<(Seq<char>, Val)>, k: Seq<char>, x: Val)
    ensures
        0 <= index_of(put(items, k, x), k),
        put(items, k, x)[index_of(put(items, k, x), k)] == (k, x),
{
    lemma_find_first(items, k, 0);
    let j = index_of(items, k);
    let n = put(items, k, x);
    if j < 0 {
        assert forall|m: int| 0 <= m < items.len() implies (#[trigger] n[m]).0 != k by {
            assert(n[m] == items[m]);
        }
        lemma_index_is(n, k, items.len() as int);
    } else {
        assert forall|m: int| 0 <= m < j implies (#[trigger] n[m]).0 != k by {
            assert(n[m] == items[m]);
        }
        lemma_index_is(n, k, j);
    }
}

/// What lies at and below a value reached by a path: the value itself, or
/// what the further segments lead to inside it.
pub open spec fn below(v: Val, more: Seq<Seq<char>>) -> Result<Val, JsonError> {
    if more.len() == 0 {
        Ok(v)
    } else {
        match v {
            Val::Object(o) => get_in(o, more),
            _ => Err(JsonError::PathTypeMismatch),
        }
    }
}

/// After a successful set of `segs`, walking `segs` and then `more` finds the
/// new value and what lies inside it: nothing of what was there before.
pub proof fn lemma_get_in_after_set(
    items: Seq<(Seq<char>, Val)>,
    segs: Seq<Seq<char>>,
    v: Val,
    more: Seq<Seq<char>>,
)
    requires
        segs.len() >= 1,
        set_in(items, segs, v) is Ok,
    ensures
        get_in(set_in(items, segs, v)->Ok_0, segs + more) == below(v, more),
    decreases segs.len(),
{
    let n = set_in(items, segs, v)->Ok_0;
    let all = segs + more;
    let k = segs[0];
    assert(all[0] == k);
    assert(all.drop_first() =~= segs.drop_first() + more);
    if segs.len() == 1 {
        lemma_put_found(items, k, v);
        assert(all.drop_first() =~= more);
    } else {
        let j = index_of(items, k);
        let rest = segs.drop_first();
        lemma_find_first(items, k, 0);
        if j < 0 {
            let o = set_in(Seq::empty(), rest, v)->Ok_0;
            lemma_get_in_after_set(Seq::empty(), rest, v, more);
            assert forall|m: int| 0 <= m < items.len() implies (#[trigger] n[m]).0 != k by {
                assert(n[m] == items[m]);
            }
            lemma_index_is(n, k, items.len() as int);
            assert(n[items.len() as int] == (k, Val::Object(o)));
        } else {
            let o = items[j].1->Object_0;
            lemma_get_in_after_set(o, rest, v, more);
            let o2 = set_in(o, rest, v)->Ok_0;
            assert forall|m: int| 0 <= m < j implies (#[trigger] n[m]).0 != k by {
                assert(n[m] == items[m]);
            }
            lemma_index_is(n, k, j);
            assert(n[j] == (k, Val::Object(o2)));
        }
    }
}

/// Setting a path and then getting the same (trimmed) path gives back the
/// value that was set; objects missing on the way were created.
pub proof fn lemma_set_then_get(root: Val, path: Seq<char>, v: Val)
    requires
        set_path(root, path, v) is Ok,
    ensures
        get_path(set_path(root, path, v)->Ok_0, trim(path)) == Ok::<Val, JsonError>(v),
{
    let segs = split_dots(trim(path));
    super::document::lemma_split_nonempty(trim(path));
    let items = root->Object_0;
    lemma_get_in_after_set(items, segs, v, Seq::empty());
    assert(segs + Seq::<Seq<char>>::empty() =~= segs);
}

/// A set through a path that is empty or blank is refused, whatever the value.
pub proof fn lemma_empty_path_refused(root: Val, path: Seq<char>, v: Val)
    requires
        trim(path).len() == 0,
    ensures
        set_path(root, path, v) == Err::<Val, JsonError>(JsonError::EmptyPath),
{
}

/// Splitting at a dot splits the two sides separately.
pub proof fn lemma_split_concat(a: Seq<char>, b: Seq<char>)
    ensures
        split_dots(a + seq!['.'] + b) == split_dots(a) + split_dots(b),
    decreases b.len(),
{
    let s = a + seq!['.'] + b;
    if b.len() == 0 {
        assert(s.drop_last() =~= a);
        assert(split_dots(s) =~= split_dots(a) + split_dots(b));
    } else {
        let b1 = b.drop_last();
        lemma_split_concat(a, b1);
        super::document::lemma_split_nonempty(b1);
        super::document::lemma_split_nonempty(a);
        assert(s.drop_last() =~= a + seq!['.'] + b1);
        assert(s.last() == b.last());
        assert(split_dots(s) =~= split_dots(a) + split_dots(b));
    }
}

/// After setting a path, whatever lies below it is read from the new value:
/// the subtree that was there before can no longer be reached.
pub proof fn lemma_set_replaces_subtree(root: Val, path: Seq<char>, v: Val, rest: Seq<char>)
    requires
        set_path(root, path, v) is Ok,
    ensures
        get_path(set_path(root, path, v)->Ok_0, trim(path) + seq!['.'] + rest) == below(
            v,
            split_dots(rest),
        ),
{
    let segs = split_dots(trim(path));
    super::document::lemma_split_nonempty(trim(path));
    lemma_split_concat(trim(path), rest);
    lemma_get_in_after_set(root->Object_0, segs, v, split_dots(rest));
}

/// After a successful set of `segs`, every proper prefix of `segs` leads to an
/// object: the objects on the way exist, created where they were missing.
pub proof fn lemma_set_leaves_objects_on_the_way(
    items: Seq<(Seq<char>, Val)>,
    segs: Seq<Seq<char>>,
    v: Val,
    m: int,
)
    requires
        1 <= m < segs.len(),
        set_in(items, segs, v) is Ok,
    ensures
        get_in(set_in(items, segs, v)->Ok_0, segs.subrange(0, m)) is Ok,
        get_in(set_in(items, segs, v)->Ok_0, segs.subrange(0, m))->Ok_0 is Object,
    decreases segs.len(),
{
    let n = set_in(items, segs, v)->Ok_0;
    let pre = segs.subrange(0, m);
    let k = segs[0];
    let j = index_of(items, k);
    let rest = segs.drop_first();
    assert(pre[0] == k);
    assert(pre.drop_first() =~= rest.subrange(0, m - 1));
    assert(pre.len() == m);
    lemma_find_first(items, k, 0);
    if m > 1 {
        if j < 0 {
            lemma_set_leaves_objects_on_the_way(Seq::empty(), rest, v, m - 1);
        } else {
            lemma_set_leaves_objects_on_the_way(items[j].1->Object_0, rest, v, m - 1);
        }
    }
    if j < 0 {
        let o = set_in(Seq::empty(), rest, v)->Ok_0;
        assert forall|i: int| 0 <= i < items.len() implies (#[trigger] n[i]).0 != k by {
            assert(n[i] == items[i]);
        }
        lemma_index_is(n, k, items.len() as int);
        assert(n[items.len() as int] == (k, Val::Object(o)));
        assert(get_in(n, pre) == get_in(o, pre.drop_first()));
    } else {
        let o2 = set_in(items[j].1->Object_0, rest, v)->Ok_0;
        assert forall|i: int| 0 <= i < j implies (#[trigger] n[i]).0 != k by {
            assert(n[i] == items[i]);
        }
        lemma_index_is(n, k, j);
        assert(n[j] == (k, Val::Object(o2)));
        assert(get_in(n, pre) == get_in(o2, pre.drop_first()));
    }
}

/// A text that starts and ends with other characters than white space is its own trim.
proof fn lemma_trim_plain(t: Seq<char>)
    requires
        t.len() > 0,
        !is_ws(t[0]),
        !is_ws(t.last()),
    ensures
        trim(t) == t,
{
    assert(trim_start(t) == t);
}

/// The decimal digits of `m` are digits, and read back as `m`.
pub proof fn lemma_nat_text(m: nat)
    ensures
        all_digits(nat_text(m)),
        digits_value(nat_text(m)) == m,
    decreases m,
{
    let d = digit_char((m % 10) as int);
    assert('0' <= d && d <= '9');
    assert(d as int == (m % 10) + '0' as int);
    assert(nat_text(m).last() == d);
    if m >= 10 {
        lemma_nat_text(m / 10);
        let t = nat_text(m);
        assert(t.drop_last() =~= nat_text(m / 10));
        assert(m == (m / 10) * 10 + m % 10) by (nonlinear_arith);
        assert(digits_value(t) == digits_value(t.drop_last()) * 10 + (t.last() as int - '0' as int));
        assert(digits_value(t) == m);
        assert forall|i: int| 0 <= i < t.len() implies '0' <= #[trigger] t[i] && t[i] <= '9' by {
            if i < t.len() - 1 {
                assert(t[i] == nat_text(m / 10)[i]);
            }
        }
    } else {
        let t = nat_text(m);
        assert(t.drop_last() =~= Seq::<char>::empty());
        assert(m % 10 == m);
        assert(digits_value(t) == digits_value(t.drop_last()) * 10 + (t.last() as int - '0' as int));
        assert(digits_value(t) == m);
    }
}

/// A value other than an object or an array is read back from its own text,
/// so rendering, parsing and rendering again gives the first text.
pub proof fn lemma_scalar_round_trip(v: JsonValue)
    requires
        !(v is Object),
        !(v is Array),
    ensures
        parse_value(render(v@)) == Ok::<Val, JsonError>(v@),
        render(parse_value(render(v@))->Ok_0) == render(v@),
{
    let t = render(v@);
    let tw = seq!['t', 'r', 'u', 'e'];
    let fw = seq!['f', 'a', 'l', 's', 'e'];
    let nw = seq!['n', 'u', 'l', 'l'];
    match v {
        JsonValue::String(s) => {
            lemma_trim_plain(t);
            assert(t.subrange(1, t.len() - 1) =~= s@);
        },
        JsonValue::Number(n) => {
            let m: nat = if n < 0 {
                (-n) as nat
            } else {
                n as nat
            };
            lemma_nat_text(m);
            let d = nat_text(m);
            assert(d[0] == d[0]);
            assert(d.last() == d[d.len() - 1]);
            if n < 0 {
                assert(t.drop_first() =~= d);
                assert(t.last() == d.last());
            } else {
                assert(t == d);
            }
            lemma_trim_plain(t);
            assert(ascii_lower(t[0]) != ascii_lower(tw[0]));
            assert(ascii_lower(t[0]) != ascii_lower(fw[0]));
            assert(t[0] != nw[0]);
            assert(int_literal(t) == Some(n as int));
        },
        JsonValue::Bool(b) => {
            lemma_trim_plain(t);
            if b {
                assert(t == tw);
            } else {
                assert(t == fw);
                assert(!eq_ignore_ascii_case(t, tw));
            }
        },
        JsonValue::Null => {
            lemma_trim_plain(t);
            assert(t == nw);
            assert(ascii_lower(t[0]) != ascii_lower(tw[0]));
            assert(!eq_ignore_ascii_case(t, fw));
        },
        _ => {},
    }
}

/// No two entries share a key.
pub open spec fn keys_unique(items: Seq<(Seq<char>, Val)>) -> bool {
    forall|i: int, j: int| 0 <= i < j < items.len() ==> items[i].0 != items[j].0
}

/// Every object in the tree has unique keys.
pub open spec fn well_formed(v: Val) -> bool
    decreases v,
{
    match v {
        Val::Object(items) => keys_unique(items) && forall|i: int|
            0 <= i < items.len() ==> well_formed(#[trigger] items[i].1),
        Val::Array(elems) => forall|i: int| 0 <= i < elems.len() ==> well_formed(#[trigger] elems[i]),
        _ => true,
    }
}

pub open spec fn entries_wf(items: Seq<(Seq<char>, Val)>) -> bool {
    keys_unique(items) && forall|i: int| 0 <= i < items.len() ==> well_formed(#[trigger] items[i].1)
}

pub open spec fn elems_wf(elems: Seq<Val>) -> bool {
    forall|i: int| 0 <= i < elems.len() ==> well_formed(#[trigger] elems[i])
}

proof fn lemma_add_entry_wf(
    elems: Seq<(Seq<char>, Val)>,
    key: Seq<char>,
    value: Seq<char>,
    bound: int,
)
    requires
        entries_wf(elems),
    ensures
        add_entry(elems, key, value, bound) is Ok ==> entries_wf(
            add_entry(elems, key, value, bound)->Ok_0,
        ),
    decreases bound, 0int, 0int,
{
    if value.len() < bound {
        lemma_parse_wf(value);
        if add_entry(elems, key, value, bound) is Ok {
            lemma_find_first(elems, key, 0);
            let n = add_entry(elems, key, value, bound)->Ok_0;
            assert(n == elems.push((key, parse_value(value)->Ok_0)));
            assert forall|i: int| 0 <= i < n.len() implies well_formed(#[trigger] n[i].1) by {
                if i < elems.len() {
                    assert(n[i] == elems[i]);
                }
            }
            assert forall|i: int, j: int| 0 <= i < j < n.len() implies n[i].0 != n[j].0 by {
                assert(n[i] == elems[i]);
                if j < elems.len() {
                    assert(n[j] == elems[j]);
                }
            }
        }
    }
}

proof fn lemma_add_elem_wf(elems: Seq<Val>, cur: Seq<char>, bound: int)
    requires
        elems_wf(elems),
    ensures
        add_elem(elems, cur, bound) is Ok ==> elems_wf(add_elem(elems, cur, bound)->Ok_0),
    decreases bound, 0int, 0int,
{
    if cur.len() < bound {
        lemma_parse_wf(cur);
        if add_elem(elems, cur, bound) is Ok {
            let n = add_elem(elems, cur, bound)->Ok_0;
            assert forall|i: int| 0 <= i < n.len() implies well_formed(#[trigger] n[i]) by {
                if i < elems.len() {
                    assert(n[i] == elems[i]);
                }
            }
        }
    }
}

proof fn lemma_obj_scan_wf(inner: Seq<char>, k: int, bound: int)
    ensures
        obj_scan(inner, k, bound) is Ok ==> entries_wf(obj_scan(inner, k, bound)->Ok_0.elems),
    decreases bound, 0int, k + 2,
{
    if k > 0 {
        lemma_obj_scan_wf(inner, k - 1, bound);
        if obj_scan(inner, k - 1, bound) is Ok {
            let st = obj_scan(inner, k - 1, bound)->Ok_0;
            lemma_add_entry_wf(st.elems, st.key, st.value, bound);
            assert(obj_scan(inner, k, bound) == obj_step(st, inner[k - 1], bound));
        }
    }
}

proof fn lemma_arr_scan_wf(inner: Seq<char>, k: int, bound: int)
    ensures
        arr_scan(inner, k, bound) is Ok ==> elems_wf(arr_scan(inner, k, bound)->Ok_0.elems),
    decreases bound, 0int, k + 2,
{
    if k > 0 {
        lemma_arr_scan_wf(inner, k - 1, bound);
        if arr_scan(inner, k - 1, bound) is Ok {
            let st = arr_scan(inner, k - 1, bound)->Ok_0;
            lemma_add_elem_wf(st.elems, st.cur, bound);
            assert(arr_scan(inner, k, bound) == arr_step(st, inner[k - 1], bound));
        }
    }
}

proof fn lemma_parse_wf(s: Seq<char>)
    ensures
        parse_value(s) is Ok ==> well_formed(parse_value(s)->Ok_0),
    decreases s.len(), 1int, 0int,
{
    let t = trim(s);
    let inner = t.subrange(1, t.len() - 1);
    if t.len() >= 2 && t[0] == '{' && t.last() == '}' {
        lemma_obj_scan_wf(inner, inner.len() as int, s.len() as int);
        if obj_scan(inner, inner.len() as int, s.len() as int) is Ok {
            let st = obj_scan(inner, inner.len() as int, s.len() as int)->Ok_0;
            lemma_add_entry_wf(st.elems, st.key, st.value, s.len() as int);
        }
    } else if t.len() >= 2 && t[0] == '[' && t.last() == ']' {
        lemma_arr_scan_wf(inner, inner.len() as int, s.len() as int);
        if arr_scan(inner, inner.len() as int, s.len() as int) is Ok {
            let st = arr_scan(inner, inner.len() as int, s.len() as int)->Ok_0;
            lemma_add_elem_wf(st.elems, st.cur, s.len() as int);
        }
    }
}

/// Whatever parsing accepts has unique keys in every object: a repeated key is
/// never silently dropped or overwritten.
pub proof fn lemma_parsed_keys_unique(s: Seq<char>)
    requires
        parse_value(s) is Ok,
    ensures
        well_formed(parse_value(s)->Ok_0),
{
    lemma_parse_wf(s);
}

proof fn lemma_put_wf(items: Seq<(Seq<char>, Val)>, k: Seq<char>, v: Val)
    requires
        entries_wf(items),
        well_formed(v),
    ensures
        entries_wf(put(items, k, v)),
{
    lemma_find_first(items, k, 0);
    let n = put(items, k, v);
    let j = index_of(items, k);
    assert forall|i: int| 0 <= i < n.len() implies well_formed(#[trigger] n[i].1) by {
        if i != j && i < items.len() {
            assert(n[i] == items[i]);
        }
    }
    assert forall|a: int, b: int| 0 <= a < b < n.len() implies n[a].0 != n[b].0 by {
        if a < items.len() && a != j {
            assert(n[a] == items[a]);
        }
        if b < items.len() && b != j {
            assert(n[b] == items[b]);
        }
    }
}

proof fn lemma_set_in_wf(items: Seq<(Seq<char>, Val)>, segs: Seq<Seq<char>>, v: Val)
    requires
        entries_wf(items),
        well_formed(v),
        set_in(items, segs, v) is Ok,
    ensures
        entries_wf(set_in(items, segs, v)->Ok_0),
    decreases segs.len(),
{
    if segs.len() == 1 {
        lemma_put_wf(items, segs[0], v);
    } else if segs.len() > 1 {
        let k = segs[0];
        let j = index_of(items, k);
        let rest = segs.drop_first();
        lemma_find_first(items, k, 0);
        let o = if j < 0 {
            Seq::empty()
        } else {
            items[j].1->Object_0
        };
        if j >= 0 {
            assert(well_formed(items[j].1));
        }
        lemma_set_in_wf(o, rest, v);
        let o2 = set_in(o, rest, v)->Ok_0;
        assert(well_formed(Val::Object(o2)));
        lemma_put_wf(items, k, Val::Object(o2));
        assert(set_in(items, segs, v)->Ok_0 == put(items, k, Val::Object(o2)));
    }
}

/// Setting a well-formed value into a well-formed document keeps every
/// object's keys unique.
pub proof fn lemma_set_keeps_keys_unique(root: Val, path: Seq<char>, v: Val)
    requires
        well_formed(root),
        well_formed(v),
        set_path(root, path, v) is Ok,
    ensures
        well_formed(set_path(root, path, v)->Ok_0),
{
    lemma_set_in_wf(root->Object_0, split_dots(trim(path)), v);
}

} // verus!
