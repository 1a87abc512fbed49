use vstd::prelude::*;

use super::laws::{keys_unique, lemma_find_first, lemma_nat_text};
use super::parse::{add_elem, add_entry, arr_finish, obj_finish, parse_value};
use super::text::{ascii_lower, eq_ignore_ascii_case, int_literal, is_ws, trim, trim_end, trim_start};
use super::index_of;
use super::render::{int_text, nat_text};
use super::parse::{arr_scan, arr_start, arr_step, obj_scan, obj_start, obj_step, ArrScan, ObjScan};
use super::render::{comma, render, render_elems, render_entries, render_entry};
use super::{JsonError, Val};

verus! {

/// The characters that the scanners give a meaning to.
pub open spec fn special(c: char) -> bool {
    c == '"' || c == ':' || c == ',' || c == '[' || c == ']' || c == '{' || c == '}'
}

pub open spec fn bracket(c: char) -> bool {
    c == '[' || c == ']' || c == '{' || c == '}'
}

/// Text with no quote and no bracket.
pub open spec fn plain_text(s: Seq<char>) -> bool {
    forall|i: int| 0 <= i < s.len() ==> #[trigger] s[i] != '"' && !bracket(s[i])
}

/// A tree whose strings and keys hold no quote and no bracket, whose keys are
/// unique, and whose numbers fit in 64 signed bits.
pub open spec fn plain(v: Val) -> bool
    decreases v,
{
    match v {
        Val::Object(items) => keys_unique(items) && forall|i: int|
            0 <= i < items.len() ==> {
                &&& plain_text((#[trigger] items[i]).0)
                &&& plain(items[i].1)
            },
        Val::Array(elems) => forall|i: int| 0 <= i < elems.len() ==> plain(#[trigger] elems[i]),
        Val::Str(s) => plain_text(s),
        Val::Number(n) => i64::MIN <= n <= i64::MAX,
        _ => true,
    }
}

/// The object scan that continues from `st` over the characters `cs`.
pub open spec fn obj_run(st: ObjScan, cs: Seq<char>, bound: int) -> Result<ObjScan, JsonError>
    decreases cs.len(),
{
    if cs.len() == 0 {
        Ok(st)
    } else {
        match obj_run(st, cs.drop_last(), bound) {
            Err(e) => Err(e),
            Ok(s) => obj_step(s, cs.last(), bound),
        }
    }
}

proof fn lemma_obj_scan_run(inner: Seq<char>, k: int, bound: int)
    requires
        0 <= k <= inner.len(),
    ensures
        obj_scan(inner, k, bound) == obj_run(obj_start(), inner.subrange(0, k), bound),
    decreases k,
{
    if k > 0 {
        lemma_obj_scan_run(inner, k - 1, bound);
        assert(inner.subrange(0, k).drop_last() =~= inner.subrange(0, k - 1));
    }
}

proof fn lemma_obj_run_concat(st: ObjScan, a: Seq<char>, b: Seq<char>, bound: int)
    ensures
        obj_run(st, a + b, bound) == match obj_run(st, a, bound) {
            Err(e) => Err(e),
            Ok(s) => obj_run(s, b, bound),
        },
    decreases b.len(),
{
    if b.len() == 0 {
        assert(a + b =~= a);
    } else {
        lemma_obj_run_concat(st, a, b.drop_last(), bound);
        assert((a + b).drop_last() =~= a + b.drop_last());
        assert((a + b).last() == b.last());
    }
}

proof fn lemma_obj_run_one(st: ObjScan, c: char, bound: int)
    ensures
        obj_run(st, seq![c], bound) == obj_step(st, c, bound),
{
    assert(seq![c].drop_last() =~= Seq::<char>::empty());
    assert(obj_run(st, Seq::<char>::empty(), bound) == Ok::<ObjScan, JsonError>(st));
    assert(seq![c].last() == c);
}

/// Characters that the object scan only appends to the value.
pub open spec fn obj_quiet(st: ObjScan, c: char) -> bool {
    (st.stack.len() > 0 && !bracket(c)) || (st.inside && c != '"') || !special(c)
}

proof fn lemma_obj_chars(st: ObjScan, cs: Seq<char>, bound: int)
    requires
        !st.is_key,
        forall|i: int| 0 <= i < cs.len() ==> obj_quiet(st, #[trigger] cs[i]),
    ensures
        obj_run(st, cs, bound) == Ok::<ObjScan, JsonError>(ObjScan { value: st.value + cs, ..st }),
    decreases cs.len(),
{
    if cs.len() > 0 {
        let p = cs.drop_last();
        assert forall|i: int| 0 <= i < p.len() implies obj_quiet(st, #[trigger] p[i]) by {
            assert(p[i] == cs[i]);
        }
        lemma_obj_chars(st, p, bound);
        assert(obj_quiet(st, cs[cs.len() - 1]));
        assert(st.value + p + seq![cs.last()] =~= st.value + cs);
        assert(st.value + p.push(cs.last()) =~= st.value + cs);
    } else {
        assert(st.value + cs =~= st.value);
    }
}

/// The text of an integer holds digits and a sign only.
proof fn lemma_int_text_plain(n: int)
    ensures
        forall|i: int| 0 <= i < int_text(n).len() ==> !special(#[trigger] int_text(n)[i]),
        int_text(n).len() > 0,
{
    let m: nat = if n < 0 {
        (-n) as nat
    } else {
        n as nat
    };
    lemma_nat_text(m);
    let t = int_text(n);
    let d = nat_text(m);
    assert forall|i: int| 0 <= i < t.len() implies !special(#[trigger] t[i]) by {
        if n < 0 {
            if i > 0 {
                assert(t[i] == d[i - 1]);
            }
        } else {
            assert(t[i] == d[i]);
        }
    }
}

/// Scanning the text of a plain value where a value is read appends that
/// text to the value, and leaves the brackets and the string flag as they were.
proof fn lemma_obj_render(x: Val, st: ObjScan, bound: int)
    requires
        plain(x),
        !st.is_key,
        !st.inside,
    ensures
        obj_run(st, render(x), bound) == Ok::<ObjScan, JsonError>(
            ObjScan { value: st.value + render(x), ..st },
        ),
    decreases x, 1int,
{
    let r = render(x);
    match x {
        Val::Str(s) => {
            if st.stack.len() > 0 {
                assert forall|i: int| 0 <= i < r.len() implies obj_quiet(st, #[trigger] r[i]) by {
                    if 0 < i < r.len() - 1 {
                        assert(r[i] == s[i - 1]);
                    }
                }
                lemma_obj_chars(st, r, bound);
            } else {
                let st1 = ObjScan { inside: true, value: st.value.push('"'), ..st };
                lemma_obj_run_one(st, '"', bound);
                lemma_obj_chars(st1, s, bound);
                let st2 = ObjScan { value: st1.value + s, ..st1 };
                lemma_obj_run_one(st2, '"', bound);
                lemma_obj_run_concat(st, seq!['"'], s, bound);
                lemma_obj_run_concat(st, seq!['"'] + s, seq!['"'], bound);
                assert(st2.value.push('"') =~= st.value + r);
            }
        },
        Val::Number(n) => {
            lemma_int_text_plain(n);
            lemma_obj_chars(st, r, bound);
        },
        Val::Bool(b) => {
            assert forall|i: int| 0 <= i < r.len() implies obj_quiet(st, #[trigger] r[i]) by {
                if b {
                    assert(r[0] == 't' && r[1] == 'r' && r[2] == 'u' && r[3] == 'e');
                } else {
                    assert(r[0] == 'f' && r[1] == 'a' && r[2] == 'l' && r[3] == 's' && r[4] == 'e');
                }
            }
            lemma_obj_chars(st, r, bound);
        },
        Val::Null => {
            assert forall|i: int| 0 <= i < r.len() implies obj_quiet(st, #[trigger] r[i]) by {
                assert(r[0] == 'n' && r[1] == 'u' && r[2] == 'l' && r[3] == 'l');
            }
            lemma_obj_chars(st, r, bound);
        },
        Val::Array(elems) => {
            let inner = render_elems(elems, elems.len() as int);
            let st1 = ObjScan { stack: st.stack.push('['), value: st.value.push('['), ..st };
            lemma_obj_run_one(st, '[', bound);
            lemma_obj_render_elems(elems, elems.len() as int, st1, bound);
            let st2 = ObjScan { value: st1.value + inner, ..st1 };
            lemma_obj_run_one(st2, ']', bound);
            assert(st2.stack.drop_last() =~= st.stack);
            lemma_obj_run_concat(st, seq!['['], inner, bound);
            lemma_obj_run_concat(st, seq!['['] + inner, seq![']'], bound);
            assert(st2.value.push(']') =~= st.value + r);
        },
        Val::Object(items) => {
            let inner = render_entries(items, items.len() as int);
            let st1 = ObjScan { stack: st.stack.push('{'), value: st.value.push('{'), ..st };
            lemma_obj_run_one(st, '{', bound);
            lemma_obj_render_entries(items, items.len() as int, st1, bound);
            let st2 = ObjScan { value: st1.value + inner, ..st1 };
            lemma_obj_run_one(st2, '}', bound);
            assert(st2.stack.drop_last() =~= st.stack);
            lemma_obj_run_concat(st, seq!['{'], inner, bound);
            lemma_obj_run_concat(st, seq!['{'] + inner, seq!['}'], bound);
            assert(st2.value.push('}') =~= st.value + r);
        },
    }
}

proof fn lemma_obj_render_elems(elems: Seq<Val>, n: int, st: ObjScan, bound: int)
    requires
        0 <= n <= elems.len(),
        forall|i: int| 0 <= i < elems.len() ==> plain(#[trigger] elems[i]),
        st.stack.len() > 0,
        !st.is_key,
        !st.inside,
    ensures
        obj_run(st, render_elems(elems, n), bound) == Ok::<ObjScan, JsonError>(
            ObjScan { value: st.value + render_elems(elems, n), ..st },
        ),
    decreases elems, n,
{
    if n == 1 {
        lemma_obj_render(elems[0], st, bound);
    } else if n > 1 {
        let a = render_elems(elems, n - 1);
        lemma_obj_render_elems(elems, n - 1, st, bound);
        let st1 = ObjScan { value: st.value + a, ..st };
        assert(comma()[0] == ',' && comma()[1] == ' ');
        lemma_obj_chars(st1, comma(), bound);
        let st2 = ObjScan { value: st1.value + comma(), ..st1 };
        lemma_obj_render(elems[n - 1], st2, bound);
        lemma_obj_run_concat(st, a, comma(), bound);
        lemma_obj_run_concat(st, a + comma(), render(elems[n - 1]), bound);
        assert(st2.value + render(elems[n - 1]) =~= st.value + render_elems(elems, n));
    } else {
        assert(st.value + render_elems(elems, n) =~= st.value);
    }
}

proof fn lemma_obj_render_entries(items: Seq<(Seq<char>, Val)>, n: int, st: ObjScan, bound: int)
    requires
        0 <= n <= items.len(),
        forall|i: int|
            0 <= i < items.len() ==> plain_text((#[trigger] items[i]).0) && plain(items[i].1),
        st.stack.len() > 0,
        !st.is_key,
        !st.inside,
    ensures
        obj_run(st, render_entries(items, n), bound) == Ok::<ObjScan, JsonError>(
            ObjScan { value: st.value + render_entries(items, n), ..st },
        ),
    decreases items, n,
{
    if n >= 1 {
        let (k, v) = items[n - 1];
        let head = seq!['"'] + k + seq!['"', ':', ' '];
        assert forall|i: int| 0 <= i < head.len() implies !bracket(#[trigger] head[i]) by {
            if 0 < i < head.len() - 3 {
                assert(head[i] == k[i - 1]);
            }
        }
        let (pre, st0) = if n == 1 {
            (Seq::<char>::empty(), st)
        } else {
            (render_entries(items, n - 1) + comma(), ObjScan {
                value: st.value + render_entries(items, n - 1) + comma(),
                ..st
            })
        };
        if n > 1 {
            lemma_obj_render_entries(items, n - 1, st, bound);
            let st1 = ObjScan { value: st.value + render_entries(items, n - 1), ..st };
            assert(comma()[0] == ',' && comma()[1] == ' ');
            lemma_obj_chars(st1, comma(), bound);
            lemma_obj_run_concat(st, render_entries(items, n - 1), comma(), bound);
        } else {
            assert(st.value + pre =~= st.value);
        }
        lemma_obj_chars(st0, head, bound);
        let st2 = ObjScan { value: st0.value + head, ..st0 };
        assert(decreases_to!(items => items[n - 1]));
        lemma_obj_render(v, st2, bound);
        assert(render_entry(k, v) == head + render(v));
        lemma_obj_run_concat(st0, head, render(v), bound);
        lemma_obj_run_concat(st, pre, render_entry(k, v), bound);
        assert(pre + render_entry(k, v) =~= render_entries(items, n));
        assert(st2.value + render(v) =~= st.value + render_entries(items, n));
    } else {
        assert(st.value + render_entries(items, n) =~= st.value);
    }
}

/// The array scan that continues from `st` over the characters `cs`.
pub open spec fn arr_run(st: ArrScan, cs: Seq<char>, bound: int) -> Result<ArrScan, JsonError>
    decreases cs.len(),
{
    if cs.len() == 0 {
        Ok(st)
    } else {
        match arr_run(st, cs.drop_last(), bound) {
            Err(e) => Err(e),
            Ok(s) => arr_step(s, cs.last(), bound),
        }
    }
}

proof fn lemma_arr_scan_run(inner: Seq<char>, k: int, bound: int)
    requires
        0 <= k <= inner.len(),
    ensures
        arr_scan(inner, k, bound) == arr_run(arr_start(), inner.subrange(0, k), bound),
    decreases k,
{
    if k > 0 {
        lemma_arr_scan_run(inner, k - 1, bound);
        assert(inner.subrange(0, k).drop_last() =~= inner.subrange(0, k - 1));
    }
}

proof fn lemma_arr_run_concat(st: ArrScan, a: Seq<char>, b: Seq<char>, bound: int)
    ensures
        arr_run(st, a + b, bound) == match arr_run(st, a, bound) {
            Err(e) => Err(e),
            Ok(s) => arr_run(s, b, bound),
        },
    decreases b.len(),
{
    if b.len() == 0 {
        assert(a + b =~= a);
    } else {
        lemma_arr_run_concat(st, a, b.drop_last(), bound);
        assert((a + b).drop_last() =~= a + b.drop_last());
        assert((a + b).last() == b.last());
    }
}

proof fn lemma_arr_run_one(st: ArrScan, c: char, bound: int)
    ensures
        arr_run(st, seq![c], bound) == arr_step(st, c, bound),
{
    assert(seq![c].drop_last() =~= Seq::<char>::empty());
    assert(arr_run(st, Seq::<char>::empty(), bound) == Ok::<ArrScan, JsonError>(st));
    assert(seq![c].last() == c);
}

/// Characters that the array scan only appends to the current element.
pub open spec fn arr_quiet(st: ArrScan, c: char) -> bool {
    (st.stack.len() > 0 && !bracket(c)) || (st.inside && c != '"') || !special(c)
}

proof fn lemma_arr_chars(st: ArrScan, cs: Seq<char>, bound: int)
    requires
        forall|i: int| 0 <= i < cs.len() ==> arr_quiet(st, #[trigger] cs[i]),
    ensures
        arr_run(st, cs, bound) == Ok::<ArrScan, JsonError>(ArrScan { cur: st.cur + cs, ..st }),
    decreases cs.len(),
{
    if cs.len() > 0 {
        let p = cs.drop_last();
        assert forall|i: int| 0 <= i < p.len() implies arr_quiet(st, #[trigger] p[i]) by {
            assert(p[i] == cs[i]);
        }
        lemma_arr_chars(st, p, bound);
        assert(arr_quiet(st, cs[cs.len() - 1]));
        assert(st.cur + p + seq![cs.last()] =~= st.cur + cs);
        assert(st.cur + p.push(cs.last()) =~= st.cur + cs);
    } else {
        assert(st.cur + cs =~= st.cur);
    }
}

/// Scanning the text of a plain value in an array appends that text to the
/// current element, and leaves the brackets and the string flag as they were.
proof fn lemma_arr_render(x: Val, st: ArrScan, bound: int)
    requires
        plain(x),
        !st.inside,
    ensures
        arr_run(st, render(x), bound) == Ok::<ArrScan, JsonError>(
            ArrScan { cur: st.cur + render(x), ..st },
        ),
    decreases x, 1int,
{
    let r = render(x);
    match x {
        Val::Str(s) => {
            if st.stack.len() > 0 {
                assert forall|i: int| 0 <= i < r.len() implies arr_quiet(st, #[trigger] r[i]) by {
                    if 0 < i < r.len() - 1 {
                        assert(r[i] == s[i - 1]);
                    }
                }
                lemma_arr_chars(st, r, bound);
            } else {
                let st1 = ArrScan { inside: true, cur: st.cur.push('"'), ..st };
                lemma_arr_run_one(st, '"', bound);
                lemma_arr_chars(st1, s, bound);
                let st2 = ArrScan { cur: st1.cur + s, ..st1 };
                lemma_arr_run_one(st2, '"', bound);
                lemma_arr_run_concat(st, seq!['"'], s, bound);
                lemma_arr_run_concat(st, seq!['"'] + s, seq!['"'], bound);
                assert(st2.cur.push('"') =~= st.cur + r);
            }
        },
        Val::Number(n) => {
            lemma_int_text_plain(n);
            lemma_arr_chars(st, r, bound);
        },
        Val::Bool(b) => {
            assert forall|i: int| 0 <= i < r.len() implies arr_quiet(st, #[trigger] r[i]) by {
                if b {
                    assert(r[0] == 't' && r[1] == 'r' && r[2] == 'u' && r[3] == 'e');
                } else {
                    assert(r[0] == 'f' && r[1] == 'a' && r[2] == 'l' && r[3] == 's' && r[4] == 'e');
                }
            }
            lemma_arr_chars(st, r, bound);
        },
        Val::Null => {
            assert forall|i: int| 0 <= i < r.len() implies arr_quiet(st, #[trigger] r[i]) by {
                assert(r[0] == 'n' && r[1] == 'u' && r[2] == 'l' && r[3] == 'l');
            }
            lemma_arr_chars(st, r, bound);
        },
        Val::Array(elems) => {
            let inner = render_elems(elems, elems.len() as int);
            let st1 = ArrScan { stack: st.stack.push('['), cur: st.cur.push('['), ..st };
            lemma_arr_run_one(st, '[', bound);
            lemma_arr_render_elems(elems, elems.len() as int, st1, bound);
            let st2 = ArrScan { cur: st1.cur + inner, ..st1 };
            lemma_arr_run_one(st2, ']', bound);
            assert(st2.stack.drop_last() =~= st.stack);
            lemma_arr_run_concat(st, seq!['['], inner, bound);
            lemma_arr_run_concat(st, seq!['['] + inner, seq![']'], bound);
            assert(st2.cur.push(']') =~= st.cur + r);
        },
        Val::Object(items) => {
            let inner = render_entries(items, items.len() as int);
            let st1 = ArrScan { stack: st.stack.push('{'), cur: st.cur.push('{'), ..st };
            lemma_arr_run_one(st, '{', bound);
            lemma_arr_render_entries(items, items.len() as int, st1, bound);
            let st2 = ArrScan { cur: st1.cur + inner, ..st1 };
            lemma_arr_run_one(st2, '}', bound);
            assert(st2.stack.drop_last() =~= st.stack);
            lemma_arr_run_concat(st, seq!['{'], inner, bound);
            lemma_arr_run_concat(st, seq!['{'] + inner, seq!['}'], bound);
            assert(st2.cur.push('}') =~= st.cur + r);
        },
    }
}

proof fn lemma_arr_render_elems(elems: Seq<Val>, n: int, st: ArrScan, bound: int)
    requires
        0 <= n <= elems.len(),
        forall|i: int| 0 <= i < elems.len() ==> plain(#[trigger] elems[i]),
        st.stack.len() > 0,
        !st.inside,
    ensures
        arr_run(st, render_elems(elems, n), bound) == Ok::<ArrScan, JsonError>(
            ArrScan { cur: st.cur + render_elems(elems, n), ..st },
        ),
    decreases elems, n,
{
    if n == 1 {
        lemma_arr_render(elems[0], st, bound);
    } else if n > 1 {
        let a = render_elems(elems, n - 1);
        lemma_arr_render_elems(elems, n - 1, st, bound);
        let st1 = ArrScan { cur: st.cur + a, ..st };
        assert(comma()[0] == ',' && comma()[1] == ' ');
        lemma_arr_chars(st1, comma(), bound);
        let st2 = ArrScan { cur: st1.cur + comma(), ..st1 };
        lemma_arr_render(elems[n - 1], st2, bound);
        lemma_arr_run_concat(st, a, comma(), bound);
        lemma_arr_run_concat(st, a + comma(), render(elems[n - 1]), bound);
        assert(st2.cur + render(elems[n - 1]) =~= st.cur + render_elems(elems, n));
    } else {
        assert(st.cur + render_elems(elems, n) =~= st.cur);
    }
}

proof fn lemma_arr_render_entries(items: Seq<(Seq<char>, Val)>, n: int, st: ArrScan, bound: int)
    requires
        0 <= n <= items.len(),
        forall|i: int|
            0 <= i < items.len() ==> plain_text((#[trigger] items[i]).0) && plain(items[i].1),
        st.stack.len() > 0,
        !st.inside,
    ensures
        arr_run(st, render_entries(items, n), bound) == Ok::<ArrScan, JsonError>(
            ArrScan { cur: st.cur + render_entries(items, n), ..st },
        ),
    decreases items, n,
{
    if n >= 1 {
        let (k, v) = items[n - 1];
        let head = seq!['"'] + k + seq!['"', ':', ' '];
        assert forall|i: int| 0 <= i < head.len() implies !bracket(#[trigger] head[i]) by {
            if 0 < i < head.len() - 3 {
                assert(head[i] == k[i - 1]);
            }
        }
        let (pre, st0) = if n == 1 {
            (Seq::<char>::empty(), st)
        } else {
            (render_entries(items, n - 1) + comma(), ArrScan {
                cur: st.cur + render_entries(items, n - 1) + comma(),
                ..st
            })
        };
        if n > 1 {
            lemma_arr_render_entries(items, n - 1, st, bound);
            let st1 = ArrScan { cur: st.cur + render_entries(items, n - 1), ..st };
            assert(comma()[0] == ',' && comma()[1] == ' ');
            lemma_arr_chars(st1, comma(), bound);
            lemma_arr_run_concat(st, render_entries(items, n - 1), comma(), bound);
        } else {
            assert(st.cur + pre =~= st.cur);
        }
        lemma_arr_chars(st0, head, bound);
        let st2 = ArrScan { cur: st0.cur + head, ..st0 };
        assert(decreases_to!(items => items[n - 1]));
        lemma_arr_render(v, st2, bound);
        assert(render_entry(k, v) == head + render(v));
        lemma_arr_run_concat(st0, head, render(v), bound);
        lemma_arr_run_concat(st, pre, render_entry(k, v), bound);
        assert(pre + render_entry(k, v) =~= render_entries(items, n));
        assert(st2.cur + render(v) =~= st.cur + render_entries(items, n));
    } else {
        assert(st.cur + render_entries(items, n) =~= st.cur);
    }
}

/// The text of a value is not empty and neither starts nor ends with white space.
proof fn lemma_render_ends(x: Val)
    ensures
        render(x).len() > 0,
        !is_ws(render(x)[0]),
        !is_ws(render(x).last()),
{
    let r = render(x);
    match x {
        Val::Number(n) => {
            let m: nat = if n < 0 {
                (-n) as nat
            } else {
                n as nat
            };
            lemma_nat_text(m);
            let d = nat_text(m);
            assert('0' <= d[0] <= '9');
            assert('0' <= d[d.len() - 1] <= '9');
            if n < 0 {
                assert(r.last() == d[d.len() - 1]);
            } else {
                assert(r == d);
            }
        },
        _ => {},
    }
}

proof fn lemma_trim_len(s: Seq<char>)
    ensures
        trim(s).len() <= s.len(),
{
    lemma_trim_start_len(s);
    lemma_trim_end_len(trim_start(s));
}

proof fn lemma_trim_start_len(s: Seq<char>)
    ensures
        trim_start(s).len() <= s.len(),
    decreases s.len(),
{
    if s.len() > 0 && is_ws(s[0]) {
        lemma_trim_start_len(s.drop_first());
    }
}

proof fn lemma_trim_end_len(s: Seq<char>)
    ensures
        trim_end(s).len() <= s.len(),
    decreases s.len(),
{
    if s.len() > 0 && is_ws(s.last()) {
        lemma_trim_end_len(s.drop_last());
    }
}

/// The text of a value, with or without one space before it, trims to itself.
proof fn lemma_trim_render(x: Val)
    ensures
        trim(render(x)) == render(x),
        trim(seq![' '] + render(x)) == render(x),
{
    let r = render(x);
    lemma_render_ends(x);
    assert(trim_start(r) == r);
    let sr = seq![' '] + r;
    assert(sr.drop_first() =~= r);
    assert(trim_start(sr) == trim_start(r));
}

/// Key characters read inside the quotes of a key are appended to the key.
proof fn lemma_obj_key_chars(st: ObjScan, cs: Seq<char>, bound: int)
    requires
        st.is_key,
        st.inside,
        st.stack.len() == 0,
        plain_text(cs),
    ensures
        obj_run(st, cs, bound) == Ok::<ObjScan, JsonError>(ObjScan { key: st.key + cs, ..st }),
    decreases cs.len(),
{
    if cs.len() > 0 {
        let p = cs.drop_last();
        assert forall|i: int| 0 <= i < p.len() implies #[trigger] p[i] != '"' && !bracket(p[i]) by {
            assert(p[i] == cs[i]);
        }
        lemma_obj_key_chars(st, p, bound);
        assert(cs[cs.len() - 1] != '"');
        assert(st.key + p.push(cs.last()) =~= st.key + cs);
    } else {
        assert(st.key + cs =~= st.key);
    }
}

/// The state of an object scan just after the value of entry `n - 1`.
pub open spec fn obj_after(items: Seq<(Seq<char>, Val)>, n: int) -> ObjScan {
    ObjScan {
        elems: items.subrange(0, n - 1),
        key: items[n - 1].0,
        value: seq![' '] + render(items[n - 1].1),
        stack: Seq::empty(),
        inside: false,
        is_key: false,
    }
}

/// One entry read from a scan that waits for a key.
proof fn lemma_obj_entry(st: ObjScan, k: Seq<char>, v: Val, bound: int)
    requires
        st.is_key,
        !st.inside,
        st.stack.len() == 0,
        st.key.len() == 0,
        st.value.len() == 0,
        plain_text(k),
        plain(v),
    ensures
        obj_run(st, render_entry(k, v), bound) == Ok::<ObjScan, JsonError>(
            ObjScan { key: k, value: seq![' '] + render(v), is_key: false, ..st },
        ),
{
    let u = ObjScan { inside: true, ..st };
    lemma_obj_run_one(st, '"', bound);
    lemma_obj_key_chars(u, k, bound);
    let u1 = ObjScan { key: st.key + k, ..u };
    assert(st.key + k =~= k);
    let v1 = ObjScan { inside: false, ..u1 };
    lemma_obj_run_one(u1, '"', bound);
    let w = ObjScan { is_key: false, ..v1 };
    lemma_obj_run_one(v1, ':', bound);
    let x = ObjScan { value: w.value.push(' '), ..w };
    lemma_obj_run_one(w, ' ', bound);
    lemma_obj_render(v, x, bound);
    assert(x.value + render(v) =~= seq![' '] + render(v));
    let h1 = seq!['"'] + k;
    lemma_obj_run_concat(st, seq!['"'], k, bound);
    lemma_obj_run_concat(st, h1, seq!['"'], bound);
    lemma_obj_run_concat(st, h1 + seq!['"'], seq![':'], bound);
    lemma_obj_run_concat(st, h1 + seq!['"'] + seq![':'], seq![' '], bound);
    assert(h1 + seq!['"'] + seq![':'] + seq![' '] =~= seq!['"'] + k + seq!['"', ':', ' ']);
    lemma_obj_run_concat(st, seq!['"'] + k + seq!['"', ':', ' '], render(v), bound);
}

/// The conditions on the entries of a plain object.
pub open spec fn plain_entries(items: Seq<(Seq<char>, Val)>) -> bool {
    &&& keys_unique(items)
    &&& forall|i: int|
        0 <= i < items.len() ==> {
            &&& plain_text((#[trigger] items[i]).0)
            &&& plain(items[i].1)
        }
}

/// Adding the entry that ends at `obj_after(items, n)` succeeds.
proof fn lemma_obj_flush(items: Seq<(Seq<char>, Val)>, n: int, bound: int)
    requires
        1 <= n <= items.len(),
        plain_entries(items),
        render(items[n - 1].1).len() + 1 < bound,
    ensures
        add_entry(items.subrange(0, n - 1), items[n - 1].0, seq![' '] + render(items[n - 1].1), bound)
            == Ok::<Seq<(Seq<char>, Val)>, JsonError>(items.subrange(0, n)),
    decreases items, 0int,
{
    let (k, v) = items[n - 1];
    assert(decreases_to!(items => items[n - 1]));
    lemma_trim_render(v);
    lemma_plain_parse(v, seq![' '] + render(v));
    let pre = items.subrange(0, n - 1);
    lemma_find_first(pre, k, 0);
    if index_of(pre, k) != -1 {
        let j = index_of(pre, k);
        assert(items[j].0 == k);
    }
    assert(pre.push((k, v)) =~= items.subrange(0, n));
}

/// Scanning the entries of a plain object leaves the last entry pending.
proof fn lemma_obj_top(items: Seq<(Seq<char>, Val)>, n: int, bound: int)
    requires
        1 <= n <= items.len(),
        plain_entries(items),
        render_entries(items, n).len() < bound,
    ensures
        obj_run(obj_start(), render_entries(items, n), bound) == Ok::<ObjScan, JsonError>(
            obj_after(items, n),
        ),
    decreases items, 1int, n,
{
    let (k, v) = items[n - 1];
    if n == 1 {
        lemma_obj_entry(obj_start(), k, v, bound);
        assert(items.subrange(0, 0) =~= Seq::<(Seq<char>, Val)>::empty());
    } else {
        let a = render_entries(items, n - 1);
        lemma_obj_top(items, n - 1, bound);
        let s0 = obj_after(items, n - 1);
        assert(a.len() >= render_entry(items[n - 2].0, items[n - 2].1).len());
        lemma_obj_flush(items, n - 1, bound);
        let t = ObjScan {
            elems: items.subrange(0, n - 1),
            key: Seq::empty(),
            value: Seq::empty(),
            is_key: true,
            ..s0
        };
        lemma_obj_run_one(s0, ',', bound);
        lemma_obj_run_one(t, ' ', bound);
        lemma_obj_entry(t, k, v, bound);
        lemma_obj_run_concat(obj_start(), a, seq![','], bound);
        lemma_obj_run_concat(obj_start(), a + seq![','], seq![' '], bound);
        assert(a + seq![','] + seq![' '] =~= a + comma());
        lemma_obj_run_concat(obj_start(), a + comma(), render_entry(k, v), bound);
    }
}

/// A plain value is read back from any text that trims to its rendering.
pub proof fn lemma_plain_parse(x: Val, s: Seq<char>)
    requires
        plain(x),
        trim(s) == render(x),
    ensures
        parse_value(s) == Ok::<Val, JsonError>(x),
    decreases x, 2int,
{
    match x {
        Val::Object(items) => {
            assert(decreases_to!(x => items));
            lemma_parse_plain_object(items, s);
        },
        Val::Array(elems) => {
            assert(decreases_to!(x => elems));
            lemma_parse_plain_array(elems, s);
        },
        _ => lemma_parse_plain_scalar(x, s),
    }
}

proof fn lemma_parse_plain_scalar(x: Val, s: Seq<char>)
    requires
        plain(x),
        !(x is Object),
        !(x is Array),
        trim(s) == render(x),
    ensures
        parse_value(s) == Ok::<Val, JsonError>(x),
{
    let t = trim(s);
    let tw = seq!['t', 'r', 'u', 'e'];
    let fw = seq!['f', 'a', 'l', 's', 'e'];
    let nw = seq!['n', 'u', 'l', 'l'];
    match x {
        Val::Str(c) => {
            assert(t.subrange(1, t.len() - 1) =~= c);
        },
        Val::Number(n) => {
            let m: nat = if n < 0 {
                (-n) as nat
            } else {
                n as nat
            };
            lemma_nat_text(m);
            let d = nat_text(m);
            if n < 0 {
                assert(t.drop_first() =~= d);
            } else {
                assert(t == d);
            }
            assert('0' <= d[0] <= '9');
            assert(ascii_lower(t[0]) != ascii_lower(tw[0]));
            assert(ascii_lower(t[0]) != ascii_lower(fw[0]));
            assert(t[0] != nw[0]);
            assert(int_literal(t) == Some(n));
        },
        Val::Bool(b) => {
            if b {
                assert(t == tw);
            } else {
                assert(t == fw);
                assert(!eq_ignore_ascii_case(t, tw));
            }
        },
        Val::Null => {
            assert(t == nw);
            assert(ascii_lower(t[0]) != ascii_lower(tw[0]));
            assert(!eq_ignore_ascii_case(t, fw));
        },
        _ => {},
    }
}

#[verifier::rlimit(40)]
proof fn lemma_parse_plain_object(items: Seq<(Seq<char>, Val)>, s: Seq<char>)
    requires
        plain_entries(items),
        trim(s) == render(Val::Object(items)),
    ensures
        parse_value(s) == Ok::<Val, JsonError>(Val::Object(items)),
    decreases items, 2int,
{
    let t = trim(s);
    lemma_trim_len(s);
    let e = render_entries(items, items.len() as int);
    let inner = t.subrange(1, t.len() - 1);
    assert(t == seq!['{'] + e + seq!['}']);
    assert(t[0] == '{' && t.last() == '}');
    assert(inner =~= e);
    lemma_obj_scan_run(inner, inner.len() as int, s.len() as int);
    assert(inner.subrange(0, inner.len() as int) =~= inner);
    if items.len() == 0 {
        assert(obj_run(obj_start(), inner, s.len() as int) == Ok::<ObjScan, JsonError>(
            obj_start(),
        ));
        assert(items =~= Seq::<(Seq<char>, Val)>::empty());
    } else {
        let n = items.len() as int;
        assert(render_entries(items, n).len() >= render_entry(items[n - 1].0, items[n - 1].1).len());
        lemma_obj_top(items, n, s.len() as int);
        lemma_obj_flush(items, n, s.len() as int);
        assert(items.subrange(0, n) =~= items);
        assert(obj_finish(obj_after(items, n), s.len() as int) == Ok::<Val, JsonError>(
            Val::Object(items),
        ));
    }
}

proof fn lemma_parse_plain_array(elems: Seq<Val>, s: Seq<char>)
    requires
        forall|i: int| 0 <= i < elems.len() ==> plain(#[trigger] elems[i]),
        trim(s) == render(Val::Array(elems)),
    ensures
        parse_value(s) == Ok::<Val, JsonError>(Val::Array(elems)),
    decreases elems, 2int,
{
    let t = trim(s);
    lemma_trim_len(s);
    let e = render_elems(elems, elems.len() as int);
    let inner = t.subrange(1, t.len() - 1);
    assert(t == seq!['['] + e + seq![']']);
    assert(t[0] == '[' && t.last() == ']');
    assert(inner =~= e);
    lemma_arr_scan_run(inner, inner.len() as int, s.len() as int);
    assert(inner.subrange(0, inner.len() as int) =~= inner);
    if elems.len() == 0 {
        assert(arr_run(arr_start(), inner, s.len() as int) == Ok::<ArrScan, JsonError>(
            arr_start(),
        ));
        assert(elems =~= Seq::<Val>::empty());
    } else {
        let n = elems.len() as int;
        assert(render_elems(elems, n).len() >= arr_pending(elems, n).len());
        lemma_arr_top(elems, n, s.len() as int);
        lemma_arr_flush(elems, n, s.len() as int);
        assert(elems.subrange(0, n) =~= elems);
        lemma_render_ends(elems[n - 1]);
        assert(arr_pending(elems, n).len() > 0);
        assert(arr_finish(arr_after(elems, n), s.len() as int) == Ok::<Val, JsonError>(
            Val::Array(elems),
        ));
    }
}

/// The pending element after element `n - 1` of a plain array.
pub open spec fn arr_pending(elems: Seq<Val>, n: int) -> Seq<char> {
    if n == 1 {
        render(elems[0])
    } else {
        seq![' '] + render(elems[n - 1])
    }
}

/// The state of an array scan just after element `n - 1`.
pub open spec fn arr_after(elems: Seq<Val>, n: int) -> ArrScan {
    ArrScan {
        elems: elems.subrange(0, n - 1),
        cur: arr_pending(elems, n),
        stack: Seq::empty(),
        inside: false,
    }
}

/// Adding the pending element of `arr_after(elems, n)` succeeds.
proof fn lemma_arr_flush(elems: Seq<Val>, n: int, bound: int)
    requires
        1 <= n <= elems.len(),
        forall|i: int| 0 <= i < elems.len() ==> plain(#[trigger] elems[i]),
        arr_pending(elems, n).len() < bound,
    ensures
        add_elem(elems.subrange(0, n - 1), arr_pending(elems, n), bound) == Ok::<
            Seq<Val>,
            JsonError,
        >(elems.subrange(0, n)),
    decreases elems, 0int,
{
    let v = elems[n - 1];
    lemma_trim_render(v);
    lemma_plain_parse(v, arr_pending(elems, n));
    assert(elems.subrange(0, n - 1).push(v) =~= elems.subrange(0, n));
}

/// Scanning the elements of a plain array leaves the last element pending.
proof fn lemma_arr_top(elems: Seq<Val>, n: int, bound: int)
    requires
        1 <= n <= elems.len(),
        forall|i: int| 0 <= i < elems.len() ==> plain(#[trigger] elems[i]),
        render_elems(elems, n).len() < bound,
    ensures
        arr_run(arr_start(), render_elems(elems, n), bound) == Ok::<ArrScan, JsonError>(
            arr_after(elems, n),
        ),
    decreases elems, 1int, n,
{
    let v = elems[n - 1];
    if n == 1 {
        lemma_arr_render(v, arr_start(), bound);
        assert(elems.subrange(0, 0) =~= Seq::<Val>::empty());
        assert(arr_start().cur + render(v) =~= render(v));
    } else {
        let a = render_elems(elems, n - 1);
        lemma_arr_top(elems, n - 1, bound);
        let s0 = arr_after(elems, n - 1);
        assert(a.len() >= arr_pending(elems, n - 1).len());
        lemma_arr_flush(elems, n - 1, bound);
        let t = ArrScan { elems: elems.subrange(0, n - 1), cur: Seq::empty(), ..s0 };
        lemma_arr_run_one(s0, ',', bound);
        lemma_arr_run_one(t, ' ', bound);
        let t1 = ArrScan { cur: seq![' '], ..t };
        assert(t.cur.push(' ') =~= seq![' ']);
        lemma_arr_render(v, t1, bound);
        lemma_arr_run_concat(arr_start(), a, seq![','], bound);
        lemma_arr_run_concat(arr_start(), a + seq![','], seq![' '], bound);
        assert(a + seq![','] + seq![' '] =~= a + comma());
        lemma_arr_run_concat(arr_start(), a + comma(), render(v), bound);
    }
}

/// A plain tree is read back from its own text; so rendering it, parsing that
/// text and rendering again gives the same text.
pub proof fn lemma_round_trip(v: Val)
    requires
        plain(v),
    ensures
        parse_value(render(v)) == Ok::<Val, JsonError>(v),
        render(parse_value(render(v))->Ok_0) == render(v),
{
    lemma_trim_render(v);
    lemma_plain_parse(v, render(v));
}

} // verus!
