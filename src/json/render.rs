use vstd::prelude::*;

use super::text::{chars_of, string_of};
use super::{lemma_model_items, lemma_model_seq, JsonValue, Val};

verus! {

/// The decimal digit for `d` (0 to 9).
pub open spec fn digit_char(d: int) -> char {
    (d + '0' as int) as char
}

/// The decimal digits of `n`, most significant first, without leading zeros.
pub open spec fn nat_text(n: nat) -> Seq<char>
    decreases n,
{
    if n < 10 {
        seq![digit_char(n as int)]
    } else {
        nat_text(n / 10).push(digit_char((n % 10) as int))
    }
}

/// The decimal text of an integer, with `-` before a negative one.
pub open spec fn int_text(n: int) -> Seq<char> {
    if n < 0 {
        seq!['-'] + nat_text((-n) as nat)
    } else {
        nat_text(n as nat)
    }
}

/// The JSON text of a value: entries as `"key": value` and elements joined
/// by `, `, strings between quotes, and the literal forms of the rest.
pub open spec fn render(v: Val) -> Seq<char>
    decreases v, 0int,
{
    match v {
        Val::Object(items) => seq!['{'] + render_entries(items, items.len() as int) + seq!['}'],
        Val::Array(elems) => seq!['['] + render_elems(elems, elems.len() as int) + seq![']'],
        Val::Str(s) => seq!['"'] + s + seq!['"'],
        Val::Number(n) => int_text(n),
        Val::Bool(b) => if b {
            seq!['t', 'r', 'u', 'e']
        } else {
            seq!['f', 'a', 'l', 's', 'e']
        },
        Val::Null => seq!['n', 'u', 'l', 'l'],
    }
}

pub open spec fn comma() -> Seq<char> {
    seq![',', ' ']
}

/// The first `n` elements, rendered and joined by `, `.
pub open spec fn render_elems(elems: Seq<Val>, n: int) -> Seq<char>
    decreases elems, n,
{
    if n <= 0 || n > elems.len() {
        Seq::empty()
    } else if n == 1 {
        render(elems[0])
    } else {
        render_elems(elems, n - 1) + comma() + render(elems[n - 1])
    }
}

/// One entry: its key between quotes, a colon and its value.
pub open spec fn render_entry(k: Seq<char>, v: Val) -> Seq<char>
    decreases v, 1int,
{
    seq!['"'] + k + seq!['"', ':', ' '] + render(v)
}

/// The first `n` entries, rendered and joined by `, `.
pub open spec fn render_entries(items: Seq<(Seq<char>, Val)>, n: int) -> Seq<char>
    decreases items, n,
{
    if n <= 0 || n > items.len() {
        Seq::empty()
    } else if n == 1 {
        render_entry(items[0].0, items[0].1)
    } else {
        render_entries(items, n - 1) + comma() + render_entry(items[n - 1].0, items[n - 1].1)
    }
}

fn push_all(out: &mut Vec<char>, s: &Vec<char>)
    ensures
        final(out)@ == old(out)@ + s@,
{
    let ghost start = out@;
    let mut i: usize = 0;
    while i < s.len()
        invariant
            i <= s@.len(),
            out@ == start + s@.subrange(0, i as int),
        decreases s@.len() - i,
    {
        out.push(s[i]);
        assert(out@ =~= start + s@.subrange(0, i + 1));
        i = i + 1;
    }
    assert(s@.subrange(0, s@.len() as int) =~= s@);
}

fn push_nat(out: &mut Vec<char>, n: u64)
    ensures
        final(out)@ == old(out)@ + nat_text(n as nat),
    decreases n,
{
    let ghost start = out@;
    if n >= 10 {
        push_nat(out, n / 10);
    }
    out.push(digit_of(n % 10));
    assert(out@ =~= start + nat_text(n as nat));
}

fn digit_of(d: u64) -> (c: char)
    requires
        d < 10,
    ensures
        c == digit_char(d as int),
{
    if d == 0 { '0' } else if d == 1 { '1' } else if d == 2 { '2' } else if d == 3 { '3' }
    else if d == 4 { '4' } else if d == 5 { '5' } else if d == 6 { '6' } else if d == 7 { '7' }
    else if d == 8 { '8' } else { '9' }
}

fn push_int(out: &mut Vec<char>, n: i64)
    ensures
        final(out)@ == old(out)@ + int_text(n as int),
{
    if n < 0 {
        out.push('-');
        let m: u64 = (0 - (n as i128)) as u64;
        push_nat(out, m);
        assert(out@ =~= old(out)@ + int_text(n as int));
    } else {
        push_nat(out, n as u64);
    }
}

/// Appends the text of `v` to `out`.
#[verifier::loop_isolation(false)]
fn render_into(v: &JsonValue, out: &mut Vec<char>)
    ensures
        final(out)@ == old(out)@ + render(v@),
    decreases v,
{
    let ghost start = out@;
    match v {
        JsonValue::Object(items) => {
            proof {
                lemma_model_items(items@, items@.len() as int);
            }
            let ghost m = super::entries_view(items@);
            out.push('{');
            let mut k: usize = 0;
            while k < items.len()
                invariant
                    k <= items@.len(),
                    out@ == start + seq!['{'] + render_entries(m, k as int),
                decreases items@.len() - k,
            {
                if k > 0 {
                    out.push(',');
                    out.push(' ');
                }
                let ghost mid = out@;
                out.push('"');
                let key = chars_of(items[k].0.as_str());
                push_all(out, &key);
                out.push('"');
                out.push(':');
                out.push(' ');
                proof {
                    vstd::std_specs::vec::axiom_vec_index_decreases(*items, k as int);
                    assert(decreases_to!(*v => v->Object_0));
                }
                render_into(&items[k].1, out);
                assert(m[k as int] == (items@[k as int].0@, items@[k as int].1@));
                assert(out@ =~= mid + render_entry(m[k as int].0, m[k as int].1));
                assert(out@ =~= start + seq!['{'] + render_entries(m, k + 1));
                k = k + 1;
            }
            out.push('}');
            assert(out@ =~= start + render(v@));
        },
        JsonValue::Array(elems) => {
            proof {
                lemma_model_seq(elems@, elems@.len() as int);
            }
            let ghost m = super::elems_view(elems@);
            out.push('[');
            let mut k: usize = 0;
            while k < elems.len()
                invariant
                    k <= elems@.len(),
                    out@ == start + seq!['['] + render_elems(m, k as int),
                decreases elems@.len() - k,
            {
                if k > 0 {
                    out.push(',');
                    out.push(' ');
                }
                proof {
                    vstd::std_specs::vec::axiom_vec_index_decreases(*elems, k as int);
                    assert(decreases_to!(*v => v->Array_0));
                }
                render_into(&elems[k], out);
                assert(out@ =~= start + seq!['['] + render_elems(m, k + 1));
                k = k + 1;
            }
            out.push(']');
            assert(out@ =~= start + render(v@));
        },
        JsonValue::String(s) => {
            out.push('"');
            let cs = chars_of(s.as_str());
            push_all(out, &cs);
            out.push('"');
            assert(out@ =~= start + render(v@));
        },
        JsonValue::Number(n) => {
            push_int(out, *n);
        },
        JsonValue::Bool(b) => {
            if *b {
                out.push('t');
                out.push('r');
                out.push('u');
                out.push('e');
            } else {
                out.push('f');
                out.push('a');
                out.push('l');
                out.push('s');
                out.push('e');
            }
            assert(out@ =~= start + render(v@));
        },
        JsonValue::Null => {
            out.push('n');
            out.push('u');
            out.push('l');
            out.push('l');
            assert(out@ =~= start + render(v@));
        },
    }
}

impl JsonValue {
    /// The JSON text of this value.
    pub fn to_string(&self) -> (r: String)
        ensures
            r@ == render(self@),
    {
        let mut out: Vec<char> = Vec::new();
        render_into(self, &mut out);
        assert(out@ =~= render(self@));
        string_of(&out)
    }
}

} // verus!
