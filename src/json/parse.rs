use vstd::prelude::*;

use super::text::{
    chars_of, copy_range, eq_ignore_ascii_case, int_literal, range_eq_ignore_case,
    read_int, string_of, trim, trim_range,
};
use super::{
    entries_view, elems_view, find_key, index_of, lemma_elems_push, lemma_entries_push,
    result_view, JsonError, JsonValue, Val,
};

verus! {

/// What an object scan has gathered after some characters of the object's interior.
pub struct ObjScan {
    pub elems: Seq<(Seq<char>, Val)>,
    pub key: Seq<char>,
    pub value: Seq<char>,
    pub stack: Seq<char>,
    pub inside: bool,
    pub is_key: bool,
}

/// What an array scan has gathered after some characters of the array's interior.
pub struct ArrScan {
    pub elems: Seq<Val>,
    pub cur: Seq<char>,
    pub stack: Seq<char>,
    pub inside: bool,
}

/// The opening bracket that closing bracket `c` matches.
pub open spec fn opener(c: char) -> char {
    if c == ']' {
        '['
    } else {
        '{'
    }
}

pub open spec fn obj_start() -> ObjScan {
    ObjScan {
        elems: Seq::empty(),
        key: Seq::empty(),
        value: Seq::empty(),
        stack: Seq::empty(),
        inside: false,
        is_key: true,
    }
}

pub open spec fn arr_start() -> ArrScan {
    ArrScan { elems: Seq::empty(), cur: Seq::empty(), stack: Seq::empty(), inside: false }
}

/// What a JSON text means: after trimming, an object, an array, a quoted
/// string, or a scalar literal.
///
/// The scans below take the length of the enclosing text as `bound`. The text
/// of a nested value is always shorter than that; the check against `bound`
/// only makes the recursion visibly well-founded.
pub open spec fn parse_value(s: Seq<char>) -> Result<Val, JsonError>
    decreases s.len(), 1int, 0int,
{
    let t = trim(s);
    if t.len() > 0 && t[0] == '{' {
        if t.len() >= 2 && t.last() == '}' {
            let inner = t.subrange(1, t.len() - 1);
            match obj_scan(inner, inner.len() as int, s.len() as int) {
                Err(e) => Err(e),
                Ok(st) => obj_finish(st, s.len() as int),
            }
        } else {
            Err(JsonError::MalformedInput)
        }
    } else if t.len() > 0 && t[0] == '[' {
        if t.len() >= 2 && t.last() == ']' {
            let inner = t.subrange(1, t.len() - 1);
            match arr_scan(inner, inner.len() as int, s.len() as int) {
                Err(e) => Err(e),
                Ok(st) => arr_finish(st, s.len() as int),
            }
        } else {
            Err(JsonError::MalformedInput)
        }
    } else if t.len() > 0 && t[0] == '"' {
        string_literal(t)
    } else {
        scalar_literal(t)
    }
}

/// A quoted string: the characters between its two quotes, taken as they stand.
pub open spec fn string_literal(t: Seq<char>) -> Result<Val, JsonError> {
    if t.len() >= 2 && t.last() == '"' {
        Ok(Val::Str(t.subrange(1, t.len() - 1)))
    } else {
        Err(JsonError::MalformedInput)
    }
}

/// A boolean (in any case of letters), `null`, or an integer.
pub open spec fn scalar_literal(t: Seq<char>) -> Result<Val, JsonError> {
    if eq_ignore_ascii_case(t, seq!['t', 'r', 'u', 'e']) {
        Ok(Val::Bool(true))
    } else if eq_ignore_ascii_case(t, seq!['f', 'a', 'l', 's', 'e']) {
        Ok(Val::Bool(false))
    } else if t == seq!['n', 'u', 'l', 'l'] {
        Ok(Val::Null)
    } else {
        match int_literal(t) {
            Some(n) => Ok(Val::Number(n)),
            None => Err(JsonError::MalformedInput),
        }
    }
}

/// Parses `value` and adds it under `key`; a key already present is refused.
pub open spec fn add_entry(
    elems: Seq<(Seq<char>, Val)>,
    key: Seq<char>,
    value: Seq<char>,
    bound: int,
) -> Result<Seq<(Seq<char>, Val)>, JsonError>
    decreases bound, 0int, 0int,
{
    if value.len() >= bound {
        Err(JsonError::MalformedInput)
    } else {
        match parse_value(value) {
            Err(e) => Err(e),
            Ok(v) => if index_of(elems, key) >= 0 {
                Err(JsonError::DuplicateKey)
            } else {
                Ok(elems.push((key, v)))
            },
        }
    }
}

/// One character of an object's interior. Quotes count only outside nested
/// brackets; there, and outside a string, a colon ends the key and a comma
/// ends the entry. Inside a string every other character is content.
pub open spec fn obj_step(st: ObjScan, c: char, bound: int) -> Result<ObjScan, JsonError>
    decreases bound, 0int, 1int,
{
    if c == '"' && st.stack.len() == 0 {
        Ok(
            ObjScan {
                inside: !st.inside,
                value: if st.is_key {
                    st.value
                } else {
                    st.value.push(c)
                },
                ..st
            },
        )
    } else if c == ':' && st.stack.len() == 0 && !st.inside {
        Ok(ObjScan { is_key: false, ..st })
    } else if (c == '[' || c == '{') && !st.inside {
        Ok(
            ObjScan {
                stack: st.stack.push(c),
                key: if st.is_key {
                    st.key.push(c)
                } else {
                    st.key
                },
                value: if st.is_key {
                    st.value
                } else {
                    st.value.push(c)
                },
                ..st
            },
        )
    } else if (c == ']' || c == '}') && !st.inside {
        if st.stack.len() == 0 || st.stack.last() != opener(c) {
            Err(JsonError::MalformedInput)
        } else {
            Ok(
                ObjScan {
                    stack: st.stack.drop_last(),
                    key: if st.is_key {
                        st.key.push(c)
                    } else {
                        st.key
                    },
                    value: if st.is_key {
                        st.value
                    } else {
                        st.value.push(c)
                    },
                    ..st
                },
            )
        }
    } else if c == ',' && st.stack.len() == 0 && !st.inside {
        match add_entry(st.elems, st.key, st.value, bound) {
            Err(e) => Err(e),
            Ok(elems) => Ok(
                ObjScan { elems, key: Seq::empty(), value: Seq::empty(), is_key: true, ..st },
            ),
        }
    } else if st.inside && st.is_key {
        Ok(ObjScan { key: st.key.push(c), ..st })
    } else if !st.is_key {
        Ok(ObjScan { value: st.value.push(c), ..st })
    } else {
        Ok(st)
    }
}

/// The object scan after the first `k` characters of `inner`.
pub open spec fn obj_scan(inner: Seq<char>, k: int, bound: int) -> Result<ObjScan, JsonError>
    decreases bound, 0int, k + 2,
{
    if k <= 0 {
        Ok(obj_start())
    } else {
        match obj_scan(inner, k - 1, bound) {
            Err(e) => Err(e),
            Ok(st) => obj_step(st, inner[k - 1], bound),
        }
    }
}

/// The object that a finished scan stands for: a pending entry (a colon seen,
/// or key or value text gathered) is added, and the scan must end outside
/// strings and brackets.
pub open spec fn obj_finish(st: ObjScan, bound: int) -> Result<Val, JsonError>
    decreases bound, 0int, 1int,
{
    if !st.is_key || st.key.len() > 0 || st.value.len() > 0 {
        match add_entry(st.elems, st.key, st.value, bound) {
            Err(e) => Err(e),
            Ok(elems) => if st.stack.len() == 0 && !st.inside {
                Ok(Val::Object(elems))
            } else {
                Err(JsonError::MalformedInput)
            },
        }
    } else if st.stack.len() == 0 && !st.inside {
        Ok(Val::Object(st.elems))
    } else {
        Err(JsonError::MalformedInput)
    }
}

/// Parses `cur` and appends it.
pub open spec fn add_elem(elems: Seq<Val>, cur: Seq<char>, bound: int) -> Result<
    Seq<Val>,
    JsonError,
>
    decreases bound, 0int, 0int,
{
    if cur.len() >= bound {
        Err(JsonError::MalformedInput)
    } else {
        match parse_value(cur) {
            Err(e) => Err(e),
            Ok(v) => Ok(elems.push(v)),
        }
    }
}

/// One character of an array's interior.
pub open spec fn arr_step(st: ArrScan, c: char, bound: int) -> Result<ArrScan, JsonError>
    decreases bound, 0int, 1int,
{
    if c == '"' && st.stack.len() == 0 {
        Ok(ArrScan { inside: !st.inside, cur: st.cur.push(c), ..st })
    } else if (c == '[' || c == '{') && !st.inside {
        Ok(ArrScan { stack: st.stack.push(c), cur: st.cur.push(c), ..st })
    } else if (c == ']' || c == '}') && !st.inside {
        if st.stack.len() == 0 || st.stack.last() != opener(c) {
            Err(JsonError::MalformedInput)
        } else {
            Ok(ArrScan { stack: st.stack.drop_last(), cur: st.cur.push(c), ..st })
        }
    } else if c == ',' && st.stack.len() == 0 && !st.inside {
        match add_elem(st.elems, st.cur, bound) {
            Err(e) => Err(e),
            Ok(elems) => Ok(ArrScan { elems, cur: Seq::empty(), ..st }),
        }
    } else {
        Ok(ArrScan { cur: st.cur.push(c), ..st })
    }
}

/// The array scan after the first `k` characters of `inner`.
pub open spec fn arr_scan(inner: Seq<char>, k: int, bound: int) -> Result<ArrScan, JsonError>
    decreases bound, 0int, k + 2,
{
    if k <= 0 {
        Ok(arr_start())
    } else {
        match arr_scan(inner, k - 1, bound) {
            Err(e) => Err(e),
            Ok(st) => arr_step(st, inner[k - 1], bound),
        }
    }
}

/// The array that a finished scan stands for: a pending element is added, and
/// the scan must end outside strings and brackets.
pub open spec fn arr_finish(st: ArrScan, bound: int) -> Result<Val, JsonError>
    decreases bound, 0int, 1int,
{
    let elems = if st.cur.len() > 0 {
        add_elem(st.elems, st.cur, bound)
    } else {
        Ok(st.elems)
    };
    match elems {
        Err(e) => Err(e),
        Ok(elems) => if st.inside || st.stack.len() > 0 {
            Err(JsonError::MalformedInput)
        } else {
            Ok(Val::Array(elems))
        },
    }
}

/// An error in an object scan stays to the end of the interior.
proof fn lemma_obj_err_stays(inner: Seq<char>, k: int, m: int, bound: int)
    requires
        0 <= k <= m,
        obj_scan(inner, k, bound) is Err,
    ensures
        obj_scan(inner, m, bound) == obj_scan(inner, k, bound),
    decreases m - k,
{
    if k < m {
        lemma_obj_err_stays(inner, k, m - 1, bound);
    }
}

/// An error in an array scan stays to the end of the interior.
proof fn lemma_arr_err_stays(inner: Seq<char>, k: int, m: int, bound: int)
    requires
        0 <= k <= m,
        arr_scan(inner, k, bound) is Err,
    ensures
        arr_scan(inner, m, bound) == arr_scan(inner, k, bound),
    decreases m - k,
{
    if k < m {
        lemma_arr_err_stays(inner, k, m - 1, bound);
    }
}

/// The object whose interior is `inner`, in a text of length `bound`.
pub open spec fn object_of(inner: Seq<char>, bound: int) -> Result<Val, JsonError> {
    match obj_scan(inner, inner.len() as int, bound) {
        Err(e) => Err(e),
        Ok(st) => obj_finish(st, bound),
    }
}

/// The array whose interior is `inner`, in a text of length `bound`.
pub open spec fn array_of(inner: Seq<char>, bound: int) -> Result<Val, JsonError> {
    match arr_scan(inner, inner.len() as int, bound) {
        Err(e) => Err(e),
        Ok(st) => arr_finish(st, bound),
    }
}

impl JsonValue {
    /// Parses a JSON text.
    pub fn parse(input: &str) -> (r: Result<JsonValue, JsonError>)
        ensures
            result_view(r) == parse_value(input@),
    {
        let cs = chars_of(input);
        Self::parse_chars(&cs)
    }

    /// Parses the JSON text made of the characters `cs`.
    pub fn parse_chars(cs: &Vec<char>) -> (r: Result<JsonValue, JsonError>)
        ensures
            result_view(r) == parse_value(cs@),
        decreases cs@.len(), 2int,
    {
        let len = cs.len();
        let (lo, hi) = trim_range(cs, 0, len);
        assert(cs@.subrange(0, len as int) =~= cs@);
        let ghost t = cs@.subrange(lo as int, hi as int);
        assert(lo < hi ==> t[0] == cs@[lo as int]);
        assert(lo < hi ==> t.last() == cs@[hi - 1]);
        if lo < hi && (cs[lo] == '{' || cs[lo] == '[') {
            if hi - lo >= 2 && ((cs[lo] == '{' && cs[hi - 1] == '}') || (cs[lo] == '['
                && cs[hi - 1] == ']')) {
                assert(t.subrange(1, t.len() - 1) =~= cs@.subrange(lo + 1, hi - 1));
                if cs[lo] == '{' {
                    Self::parse_object(cs, lo + 1, hi - 1)
                } else {
                    Self::parse_array(cs, lo + 1, hi - 1)
                }
            } else {
                Err(JsonError::MalformedInput)
            }
        } else if lo < hi && cs[lo] == '"' {
            Self::parse_string(cs, lo, hi)
        } else {
            Self::parse_scalar(cs, lo, hi)
        }
    }

    fn parse_string(cs: &Vec<char>, lo: usize, hi: usize) -> (r: Result<JsonValue, JsonError>)
        requires
            lo <= hi <= cs@.len(),
        ensures
            result_view(r) == string_literal(cs@.subrange(lo as int, hi as int)),
    {
        let ghost t = cs@.subrange(lo as int, hi as int);
        if hi - lo >= 2 && cs[hi - 1] == '"' {
            assert(t.last() == cs@[hi - 1]);
            let content = copy_range(cs, lo + 1, hi - 1);
            assert(content@ =~= t.subrange(1, t.len() - 1));
            Ok(JsonValue::String(string_of(&content)))
        } else {
            assert(hi - lo >= 2 ==> t.last() == cs@[hi - 1]);
            Err(JsonError::MalformedInput)
        }
    }

    fn parse_scalar(cs: &Vec<char>, lo: usize, hi: usize) -> (r: Result<JsonValue, JsonError>)
        requires
            lo <= hi <= cs@.len(),
        ensures
            result_view(r) == scalar_literal(cs@.subrange(lo as int, hi as int)),
    {
        let ghost t = cs@.subrange(lo as int, hi as int);
        let true_word: Vec<char> = vec!['t', 'r', 'u', 'e'];
        let false_word: Vec<char> = vec!['f', 'a', 'l', 's', 'e'];
        assert(true_word@ =~= seq!['t', 'r', 'u', 'e']);
        assert(false_word@ =~= seq!['f', 'a', 'l', 's', 'e']);
        if range_eq_ignore_case(cs, lo, hi, &true_word) {
            Ok(JsonValue::Bool(true))
        } else if range_eq_ignore_case(cs, lo, hi, &false_word) {
            Ok(JsonValue::Bool(false))
        } else if hi - lo == 4 && cs[lo] == 'n' && cs[lo + 1] == 'u' && cs[lo + 2] == 'l' && cs[lo
            + 3] == 'l' {
            assert(t =~= seq!['n', 'u', 'l', 'l']);
            Ok(JsonValue::Null)
        } else {
            proof {
                let w = seq!['n', 'u', 'l', 'l'];
                if t == w {
                    assert(t[0] == w[0] && t[1] == w[1] && t[2] == w[2] && t[3] == w[3]);
                }
            }
            Self::parse_number(cs, lo, hi)
        }
    }

    fn parse_number(cs: &Vec<char>, lo: usize, hi: usize) -> (r: Result<JsonValue, JsonError>)
        requires
            lo <= hi <= cs@.len(),
        ensures
            result_view(r) == match int_literal(cs@.subrange(lo as int, hi as int)) {
                Some(n) => Ok(Val::Number(n)),
                None => Err(JsonError::MalformedInput),
            },
    {
        match read_int(cs, lo, hi) {
            Some(n) => Ok(JsonValue::Number(n)),
            None => Err(JsonError::MalformedInput),
        }
    }

    /// Parses `value` and adds it to `elems` under `key`.
    fn insert_entry(
        elems: &mut Vec<(String, JsonValue)>,
        key: &Vec<char>,
        value: &Vec<char>,
        bound: usize,
    ) -> (r: Result<(), JsonError>)
        requires
            value@.len() < bound,
        ensures
            match add_entry(entries_view(old(elems)@), key@, value@, bound as int) {
                Ok(e) => r is Ok && entries_view(final(elems)@) == e,
                Err(e) => r == Err::<(), JsonError>(e),
            },
        decreases bound, 0int,
    {
        let v = match Self::parse_chars(value) {
            Ok(v) => v,
            Err(e) => {
                return Err(e);
            },
        };
        let k = string_of(key);
        match find_key(elems, &k) {
            Some(_) => Err(JsonError::DuplicateKey),
            None => {
                proof {
                    lemma_entries_push(elems@, (k, v));
                }
                elems.push((k, v));
                Ok(())
            },
        }
    }

    /// Parses `cur` and appends it to `elems`.
    fn push_elem(elems: &mut Vec<JsonValue>, cur: &Vec<char>, bound: usize) -> (r: Result<
        (),
        JsonError,
    >)
        requires
            cur@.len() < bound,
        ensures
            match add_elem(elems_view(old(elems)@), cur@, bound as int) {
                Ok(e) => r is Ok && elems_view(final(elems)@) == e,
                Err(e) => r == Err::<(), JsonError>(e),
            },
        decreases bound, 0int,
    {
        let v = match Self::parse_chars(cur) {
            Ok(v) => v,
            Err(e) => {
                return Err(e);
            },
        };
        proof {
            lemma_elems_push(elems@, v);
        }
        elems.push(v);
        Ok(())
    }
}

impl JsonValue {
    /// Parses the object whose interior is `cs[a..b]`.
    fn parse_object(cs: &Vec<char>, a: usize, b: usize) -> (r: Result<JsonValue, JsonError>)
        requires
            1 <= a <= b < cs@.len(),
        ensures
            result_view(r) == object_of(cs@.subrange(a as int, b as int), cs@.len() as int),
        decreases cs@.len(), 1int,
    {
        let ghost inner = cs@.subrange(a as int, b as int);
        let ghost bound = cs@.len() as int;
        let mut elems: Vec<(String, JsonValue)> = Vec::new();
        let mut key: Vec<char> = Vec::new();
        let mut value: Vec<char> = Vec::new();
        let mut stack: Vec<char> = Vec::new();
        let mut inside = false;
        let mut is_key = true;
        let mut i: usize = a;
        assert(entries_view(elems@) =~= Seq::<(Seq<char>, Val)>::empty());
        while i < b
            invariant
                1 <= a <= i <= b < cs@.len(),
                inner == cs@.subrange(a as int, b as int),
                bound == cs@.len(),
                key@.len() <= i - a,
                value@.len() <= i - a,
                obj_scan(inner, i - a, bound) == Ok::<ObjScan, JsonError>(
                    ObjScan {
                        elems: entries_view(elems@),
                        key: key@,
                        value: value@,
                        stack: stack@,
                        inside,
                        is_key,
                    },
                ),
            decreases b - i,
        {
            let c = cs[i];
            assert(inner[i - a] == c);
            let ghost st = ObjScan {
                elems: entries_view(elems@),
                key: key@,
                value: value@,
                stack: stack@,
                inside,
                is_key,
            };
            assert(obj_scan(inner, i - a + 1, bound) == obj_step(st, c, bound));
            if c == '"' && stack.len() == 0 {
                inside = !inside;
                if !is_key {
                    value.push(c);
                }
            } else if c == ':' && stack.len() == 0 && !inside {
                is_key = false;
            } else if (c == '[' || c == '{') && !inside {
                stack.push(c);
                if is_key {
                    key.push(c);
                } else {
                    value.push(c);
                }
            } else if (c == ']' || c == '}') && !inside {
                let want = if c == ']' {
                    '['
                } else {
                    '{'
                };
                if stack.len() == 0 || stack[stack.len() - 1] != want {
                    proof {
                        lemma_obj_err_stays(inner, i - a + 1, inner.len() as int, bound);
                    }
                    return Err(JsonError::MalformedInput);
                }
                stack.pop();
                if is_key {
                    key.push(c);
                } else {
                    value.push(c);
                }
            } else if c == ',' && stack.len() == 0 && !inside {
                match Self::insert_entry(&mut elems, &key, &value, cs.len()) {
                    Ok(()) => {},
                    Err(e) => {
                        proof {
                            lemma_obj_err_stays(inner, i - a + 1, inner.len() as int, bound);
                        }
                        return Err(e);
                    },
                }
                key.clear();
                value.clear();
                is_key = true;
            } else if inside && is_key {
                key.push(c);
            } else if !is_key {
                value.push(c);
            }
            i = i + 1;
        }
        assert(i - a == inner.len());
        if !is_key || key.len() > 0 || value.len() > 0 {
            match Self::insert_entry(&mut elems, &key, &value, cs.len()) {
                Ok(()) => {},
                Err(e) => {
                    return Err(e);
                },
            }
            if stack.len() == 0 && !inside {
                Ok(JsonValue::Object(elems))
            } else {
                Err(JsonError::MalformedInput)
            }
        } else if stack.len() == 0 && !inside {
            Ok(JsonValue::Object(elems))
        } else {
            Err(JsonError::MalformedInput)
        }
    }

    /// Parses the array whose interior is `cs[a..b]`.
    fn parse_array(cs: &Vec<char>, a: usize, b: usize) -> (r: Result<JsonValue, JsonError>)
        requires
            1 <= a <= b < cs@.len(),
        ensures
            result_view(r) == array_of(cs@.subrange(a as int, b as int), cs@.len() as int),
        decreases cs@.len(), 1int,
    {
        let ghost inner = cs@.subrange(a as int, b as int);
        let ghost bound = cs@.len() as int;
        let mut elems: Vec<JsonValue> = Vec::new();
        let mut cur: Vec<char> = Vec::new();
        let mut stack: Vec<char> = Vec::new();
        let mut inside = false;
        let mut i: usize = a;
        assert(elems_view(elems@) =~= Seq::<Val>::empty());
        while i < b
            invariant
                1 <= a <= i <= b < cs@.len(),
                inner == cs@.subrange(a as int, b as int),
                bound == cs@.len(),
                cur@.len() <= i - a,
                arr_scan(inner, i - a, bound) == Ok::<ArrScan, JsonError>(
                    ArrScan { elems: elems_view(elems@), cur: cur@, stack: stack@, inside },
                ),
            decreases b - i,
        {
            let c = cs[i];
            assert(inner[i - a] == c);
            let ghost st = ArrScan { elems: elems_view(elems@), cur: cur@, stack: stack@, inside };
            assert(arr_scan(inner, i - a + 1, bound) == arr_step(st, c, bound));
            if c == '"' && stack.len() == 0 {
                inside = !inside;
                cur.push(c);
            } else if (c == '[' || c == '{') && !inside {
                stack.push(c);
                cur.push(c);
            } else if (c == ']' || c == '}') && !inside {
                let want = if c == ']' {
                    '['
                } else {
                    '{'
                };
                if stack.len() == 0 || stack[stack.len() - 1] != want {
                    proof {
                        lemma_arr_err_stays(inner, i - a + 1, inner.len() as int, bound);
                    }
                    return Err(JsonError::MalformedInput);
                }
                stack.pop();
                cur.push(c);
            } else if c == ',' && stack.len() == 0 && !inside {
                match Self::push_elem(&mut elems, &cur, cs.len()) {
                    Ok(()) => {},
                    Err(e) => {
                        proof {
                            lemma_arr_err_stays(inner, i - a + 1, inner.len() as int, bound);
                        }
                        return Err(e);
                    },
                }
                cur.clear();
            } else {
                cur.push(c);
            }
            i = i + 1;
        }
        assert(i - a == inner.len());
        if cur.len() > 0 {
            match Self::push_elem(&mut elems, &cur, cs.len()) {
                Ok(()) => {},
                Err(e) => {
                    return Err(e);
                },
            }
        }
        if inside || stack.len() > 0 {
            Err(JsonError::MalformedInput)
        } else {
            Ok(JsonValue::Array(elems))
        }
    }
}

} // verus!
