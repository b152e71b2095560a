//! A minimal writer for [`Value`] trees, and what a tree must look
//! like for its text to parse back.
//!
//! The writer emits no whitespace: `null`, bare digit runs, `12.045`,
//! `"text"`, `{"k":v,...}`, `[v,...]`.  Not every tree has such a
//! text: the grammar knows no sign, no empty string, no `"` inside a
//! string, and an object keeps one pair per key — [`writable`] says
//! exactly which trees the writer accepts.

use vstd::prelude::*;
use vstd::string::StringExecFns;
use crate::grammar::is_digit;
use crate::json::{lemma_view_of_elems, lemma_view_of_pairs, view_of, view_of_elems, view_of_pairs,
    Value, ValueView};
use crate::parser::{char_is_digit, chars_of};

verus! {

/// The digit character of `d`.
pub open spec fn digit_char(d: nat) -> char {
    if d == 0 {
        '0'
    } else if d == 1 {
        '1'
    } else if d == 2 {
        '2'
    } else if d == 3 {
        '3'
    } else if d == 4 {
        '4'
    } else if d == 5 {
        '5'
    } else if d == 6 {
        '6'
    } else if d == 7 {
        '7'
    } else if d == 8 {
        '8'
    } else {
        '9'
    }
}

/// The base-10 numeral of `n`, most significant digit first.
pub open spec fn dec_digits(n: nat) -> Seq<char>
    decreases n,
{
    if n < 10 {
        seq![digit_char(n)]
    } else {
        dec_digits(n / 10).push(digit_char(n % 10))
    }
}

/// No two pairs share a key.
pub open spec fn distinct_keys(ps: Seq<(Seq<char>, ValueView)>) -> bool {
    forall|a: int, b: int| 0 <= a < b < ps.len() ==> ps[a].0 != ps[b].0
}

/// A key the grammar can read back: nonempty, without `"`.
pub open spec fn writable_key(k: Seq<char>) -> bool {
    k.len() > 0 && (forall|a: int| 0 <= a < k.len() ==> k[a] != '"')
}

/// A digit run the grammar can read back: nonempty, all digits.
pub open spec fn writable_digits(d: Seq<char>) -> bool {
    d.len() > 0 && (forall|a: int| 0 <= a < d.len() ==> is_digit(d[a]))
}

/// Whether the writer has a text for `v` that parses back to `v`.
pub open spec fn writable(v: ValueView) -> bool
    decreases v, 1int,
{
    match v {
        ValueView::Null => true,
        ValueView::Integer(n) => 0 <= n <= i64::MAX,
        ValueView::Float { int_digits, frac_digits } => writable_digits(int_digits)
            && writable_digits(frac_digits),
        ValueView::Str(t) => writable_key(t),
        ValueView::Object(ps) => distinct_keys(ps) && writable_pairs(ps),
        ValueView::Array(es) => writable_elems(es),
    }
}

/// Whether every pair of the list is writable.
pub open spec fn writable_pairs(ps: Seq<(Seq<char>, ValueView)>) -> bool
    decreases ps, 0int,
{
    if ps.len() == 0 {
        true
    } else {
        writable_pair(ps[0]) && writable_pairs(ps.drop_first())
    }
}

/// Whether one pair is writable.
pub open spec fn writable_pair(p: (Seq<char>, ValueView)) -> bool
    decreases p, 1int,
{
    writable_key(p.0) && writable(p.1)
}

/// Whether every element of the list is writable.
pub open spec fn writable_elems(es: Seq<ValueView>) -> bool
    decreases es, 0int,
{
    if es.len() == 0 {
        true
    } else {
        writable(es[0]) && writable_elems(es.drop_first())
    }
}

/// The text of `v`.
pub open spec fn ser_value(v: ValueView) -> Seq<char>
    decreases v, 1int,
{
    match v {
        ValueView::Null => seq!['n', 'u', 'l', 'l'],
        ValueView::Integer(n) => dec_digits(n as nat),
        ValueView::Float { int_digits, frac_digits } => int_digits + seq!['.'] + frac_digits,
        ValueView::Str(t) => seq!['"'] + t + seq!['"'],
        ValueView::Object(ps) => seq!['{'] + ser_pairs(ps) + seq!['}'],
        ValueView::Array(es) => seq!['['] + ser_elems(es) + seq![']'],
    }
}

/// The text of a pair list, comma separated.
pub open spec fn ser_pairs(ps: Seq<(Seq<char>, ValueView)>) -> Seq<char>
    decreases ps, 0int,
{
    if ps.len() == 0 {
        Seq::empty()
    } else if ps.len() == 1 {
        ser_pair(ps[0])
    } else {
        ser_pair(ps[0]) + seq![','] + ser_pairs(ps.drop_first())
    }
}

/// The text of one pair: quoted key, `:`, value.
pub open spec fn ser_pair(p: (Seq<char>, ValueView)) -> Seq<char>
    decreases p, 1int,
{
    seq!['"'] + p.0 + seq!['"', ':'] + ser_value(p.1)
}

/// The text of an element list, comma separated.
pub open spec fn ser_elems(es: Seq<ValueView>) -> Seq<char>
    decreases es, 0int,
{
    if es.len() == 0 {
        Seq::empty()
    } else if es.len() == 1 {
        ser_value(es[0])
    } else {
        ser_value(es[0]) + seq![','] + ser_elems(es.drop_first())
    }
}

/// The one-character text of a digit.
fn digit_str(d: u64) -> (r: &'static str)
    requires
        d < 10,
    ensures
        r@ == seq![digit_char(d as nat)],
{
    if d == 0 {
        proof {
            reveal_strlit("0");
            assert("0"@ =~= seq![digit_char(0)]);
        }
        "0"
    } else if d == 1 {
        proof {
            reveal_strlit("1");
            assert("1"@ =~= seq![digit_char(1)]);
        }
        "1"
    } else if d == 2 {
        proof {
            reveal_strlit("2");
            assert("2"@ =~= seq![digit_char(2)]);
        }
        "2"
    } else if d == 3 {
        proof {
            reveal_strlit("3");
            assert("3"@ =~= seq![digit_char(3)]);
        }
        "3"
    } else if d == 4 {
        proof {
            reveal_strlit("4");
            assert("4"@ =~= seq![digit_char(4)]);
        }
        "4"
    } else if d == 5 {
        proof {
            reveal_strlit("5");
            assert("5"@ =~= seq![digit_char(5)]);
        }
        "5"
    } else if d == 6 {
        proof {
            reveal_strlit("6");
            assert("6"@ =~= seq![digit_char(6)]);
        }
        "6"
    } else if d == 7 {
        proof {
            reveal_strlit("7");
            assert("7"@ =~= seq![digit_char(7)]);
        }
        "7"
    } else if d == 8 {
        proof {
            reveal_strlit("8");
            assert("8"@ =~= seq![digit_char(8)]);
        }
        "8"
    } else {
        proof {
            reveal_strlit("9");
            assert("9"@ =~= seq![digit_char(9)]);
        }
        "9"
    }
}

/// Appends the numeral of `n`.
fn push_dec(out: &mut String, n: u64)
    ensures
        final (out)@ == old(out)@ + dec_digits(n as nat),
    decreases n,
{
    if n < 10 {
        out.append(digit_str(n));
    } else {
        push_dec(out, n / 10);
        out.append(digit_str(n % 10));
        proof {
            assert(out@ =~= old(out)@ + dec_digits(n as nat));
        }
    }
}

/// Whether every character of `t` is a digit, and there is at least
/// one.
fn check_digits(t: &String) -> (b: bool)
    ensures
        b == writable_digits(t@),
{
    let cs = chars_of(t.as_str());
    if cs.len() == 0 {
        return false;
    }
    let mut k: usize = 0;
    while k < cs.len()
        invariant
            k <= cs.len(),
            cs@ == t@,
            forall|a: int| 0 <= a < k ==> is_digit(t@[a]),
        decreases cs.len() - k,
    {
        if !char_is_digit(cs[k]) {
            return false;
        }
        k = k + 1;
    }
    true
}

/// Whether `t` is nonempty and has no `"`.
fn check_key(t: &String) -> (b: bool)
    ensures
        b == writable_key(t@),
{
    let cs = chars_of(t.as_str());
    if cs.len() == 0 {
        return false;
    }
    let mut k: usize = 0;
    while k < cs.len()
        invariant
            k <= cs.len(),
            cs@ == t@,
            forall|a: int| 0 <= a < k ==> t@[a] != '"',
        decreases cs.len() - k,
    {
        if cs[k] == '"' {
            return false;
        }
        k = k + 1;
    }
    true
}

/// Whether the keys of `ps` are pairwise distinct.
fn check_distinct(ps: &Vec<(String, Value)>) -> (b: bool)
    ensures
        b == distinct_keys(view_of_pairs(ps@)),
{
    proof {
        lemma_view_of_pairs(ps@);
    }
    let mut k: usize = 0;
    while k < ps.len()
        invariant
            k <= ps.len(),
            view_of_pairs(ps@).len() == ps@.len(),
            forall|l: int| 0 <= l < ps@.len() ==> view_of_pairs(ps@)[l] == (
                ps@[l].0@,
                view_of(ps@[l].1),
            ),
            forall|a: int, b: int| 0 <= a < b < k ==> ps@[a].0@ != ps@[b].0@,
        decreases ps.len() - k,
    {
        let mut l: usize = 0;
        while l < k
            invariant
                l <= k < ps.len(),
                view_of_pairs(ps@).len() == ps@.len(),
                forall|a: int| 0 <= a < ps@.len() ==> view_of_pairs(ps@)[a] == (
                    ps@[a].0@,
                    view_of(ps@[a].1),
                ),
                forall|a: int| 0 <= a < l ==> ps@[a].0@ != ps@[k as int].0@,
            decreases k - l,
        {
            if ps[l].0 == ps[k].0 {
                proof {
                    assert(view_of_pairs(ps@)[l as int].0 == view_of_pairs(ps@)[k as int].0);
                    assert(!distinct_keys(view_of_pairs(ps@)));
                }
                return false;
            }
            l = l + 1;
        }
        k = k + 1;
    }
    true
}

/// Writes `v` onto `out`; says whether `v` was writable, and appends
/// exactly its text when it was.
pub fn write_value(out: &mut String, v: &Value) -> (ok: bool)
    ensures
        ok == writable(v@),
        ok ==> final (out)@ == old(out)@ + ser_value(v@),
    decreases v, 1int, 0int,
{
    match v {
        Value::Null => {
            out.append("null");
            proof {
                reveal_strlit("null");
                assert(out@ =~= old(out)@ + ser_value(v@));
            }
            true
        },
        Value::Integer(n) => {
            if *n < 0 {
                false
            } else {
                push_dec(out, *n as u64);
                true
            }
        },
        Value::Float { int_digits, frac_digits } => {
            if !check_digits(int_digits) {
                return false;
            }
            if !check_digits(frac_digits) {
                return false;
            }
            out.append(int_digits.as_str());
            out.append(".");
            out.append(frac_digits.as_str());
            proof {
                reveal_strlit(".");
                assert(out@ =~= old(out)@ + ser_value(v@));
            }
            true
        },
        Value::String(t) => {
            if !check_key(t) {
                return false;
            }
            out.append("\"");
            out.append(t.as_str());
            out.append("\"");
            proof {
                reveal_strlit("\"");
                assert(out@ =~= old(out)@ + ser_value(v@));
            }
            true
        },
        Value::Object(ps) => {
            if !check_distinct(ps) {
                return false;
            }
            out.append("{");
            proof {
                assert(decreases_to!(v => ps));
            }
            let ok = write_pairs_from(out, ps, 0);
            if !ok {
                proof {
                    assert(view_of_pairs(ps@).skip(0) =~= view_of_pairs(ps@));
                }
                return false;
            }
            out.append("}");
            proof {
                reveal_strlit("{");
                reveal_strlit("}");
                assert(view_of_pairs(ps@).skip(0) =~= view_of_pairs(ps@));
                assert(out@ =~= old(out)@ + ser_value(v@));
            }
            true
        },
        Value::Array(vs) => {
            out.append("[");
            proof {
                assert(decreases_to!(v => vs));
            }
            let ok = write_elems_from(out, vs, 0);
            if !ok {
                proof {
                    assert(view_of_elems(vs@).skip(0) =~= view_of_elems(vs@));
                }
                return false;
            }
            out.append("]");
            proof {
                reveal_strlit("[");
                reveal_strlit("]");
                assert(view_of_elems(vs@).skip(0) =~= view_of_elems(vs@));
                assert(out@ =~= old(out)@ + ser_value(v@));
            }
            true
        },
    }
}

/// Writes the pairs of `ps` from index `k` on, comma separated.
fn write_pairs_from(out: &mut String, ps: &Vec<(String, Value)>, k: usize) -> (ok: bool)
    requires
        k <= ps.len(),
    ensures
        ok == writable_pairs(view_of_pairs(ps@).skip(k as int)),
        ok ==> final (out)@ == old(out)@ + ser_pairs(view_of_pairs(ps@).skip(k as int)),
    decreases ps, 0int, ps.len() - k,
{
    proof {
        reveal_with_fuel(writable_pairs, 3);
        reveal_with_fuel(ser_pairs, 3);
        lemma_view_of_pairs(ps@);
        assert(view_of_pairs(ps@).skip(k as int).len() == ps@.len() - k);
    }
    if k == ps.len() {
        proof {
            assert(out@ =~= old(out)@ + ser_pairs(view_of_pairs(ps@).skip(k as int)));
        }
        return true;
    }
    let ghost tail = view_of_pairs(ps@).skip(k as int);
    proof {
        assert(tail[0] == view_of_pairs(ps@)[k as int]);
        assert(tail[0] == (ps@[k as int].0@, view_of(ps@[k as int].1)));
    }
    if !check_key(&ps[k].0) {
        return false;
    }
    out.append("\"");
    out.append(ps[k].0.as_str());
    out.append("\"");
    out.append(":");
    let ghost mid = out@;
    proof {
        assert(decreases_to!(ps => ps@));
        assert(decreases_to!(ps@ => ps@[k as int]));
        assert(decreases_to!(ps@[k as int] => ps@[k as int].1));
    }
    let okv = write_value(out, &ps[k].1);
    if !okv {
        return false;
    }
    proof {
        reveal_strlit("\"");
        reveal_strlit(":");
        assert(mid =~= old(out)@ + seq!['"'] + ps@[k as int].0@ + seq!['"', ':']);
        assert(out@ =~= old(out)@ + ser_pair(tail[0]));
    }
    if k + 1 == ps.len() {
        proof {
            assert(tail.len() == 1);
            assert(tail.drop_first().len() == 0);
            assert(ser_pairs(tail) == ser_pair(tail[0]));
        }
        return true;
    }
    out.append(",");
    let okr = write_pairs_from(out, ps, k + 1);
    proof {
        assert(view_of_pairs(ps@).skip(k as int + 1) =~= tail.drop_first());
    }
    if !okr {
        return false;
    }
    proof {
        reveal_strlit(",");
        assert(out@ =~= old(out)@ + ser_pairs(tail));
    }
    true
}

/// Writes the elements of `vs` from index `k` on, comma separated.
fn write_elems_from(out: &mut String, vs: &Vec<Value>, k: usize) -> (ok: bool)
    requires
        k <= vs.len(),
    ensures
        ok == writable_elems(view_of_elems(vs@).skip(k as int)),
        ok ==> final (out)@ == old(out)@ + ser_elems(view_of_elems(vs@).skip(k as int)),
    decreases vs, 0int, vs.len() - k,
{
    proof {
        reveal_with_fuel(writable_elems, 3);
        reveal_with_fuel(ser_elems, 3);
        lemma_view_of_elems(vs@);
        assert(view_of_elems(vs@).skip(k as int).len() == vs@.len() - k);
    }
    if k == vs.len() {
        proof {
            assert(out@ =~= old(out)@ + ser_elems(view_of_elems(vs@).skip(k as int)));
        }
        return true;
    }
    let ghost tail = view_of_elems(vs@).skip(k as int);
    proof {
        assert(tail[0] == view_of_elems(vs@)[k as int]);
        assert(tail[0] == view_of(vs@[k as int]));
        assert(decreases_to!(vs => vs@));
        assert(decreases_to!(vs@ => vs@[k as int]));
    }
    let okv = write_value(out, &vs[k]);
    if !okv {
        return false;
    }
    if k + 1 == vs.len() {
        proof {
            assert(tail.len() == 1);
            assert(tail.drop_first().len() == 0);
            assert(ser_elems(tail) == ser_value(tail[0]));
        }
        return true;
    }
    out.append(",");
    let okr = write_elems_from(out, vs, k + 1);
    proof {
        assert(view_of_elems(vs@).skip(k as int + 1) =~= tail.drop_first());
    }
    if !okr {
        return false;
    }
    proof {
        reveal_strlit(",");
        assert(out@ =~= old(out)@ + ser_elems(tail));
    }
    true
}

/// The text of `v`, when `v` has one: `None` exactly when some part
/// of the tree is outside the grammar (a negative integer, an empty
/// or quote-bearing string or key, a bad digit run, a repeated key).
pub fn to_text(v: &Value) -> (r: Option<String>)
    ensures
        r is Some <==> writable(v@),
        (match r {
            Option::Some(t) => t@ == ser_value(v@),
            Option::None => true,
        }),
{
    let mut out = String::new();
    if write_value(&mut out, v) {
        Option::Some(out)
    } else {
        Option::None
    }
}

} // verus!
