//! The executable parser, verified against the grammar of
//! [`crate::grammar`].

use vstd::prelude::*;
use vstd::std_specs::iter::IteratorSpec;
use vstd::string::StrSliceExecFns;
use vstd::string::StringExecFns;
use crate::grammar::{
    digit_run, digits_val, is_digit, non_quote_run, parse_spec, scan_array, scan_elements,
    scan_member, scan_members, scan_null, scan_number, scan_object, scan_string, scan_value,
    ws_run, Parsed,
};
use crate::json::{
    dedup_pairs, lemma_view_of_elems, lemma_view_of_pairs, upsert_pair, view_of, view_of_elems,
    view_of_pairs, Value, ValueView,
};

verus! {

/// What [`parse`] says about a whole document.
///
/// `Done(rest, value)` carries the text that stands after the value
/// and then the parsed tree, so a caller that wants a whole-document
/// parse can ask for an empty tail.  An
/// input on which no grammar alternative matches is a
/// `StructuralError`; one that ended while more characters could still
/// have completed a value is `Incomplete`.  `EncodingError` is the
/// outcome for string content that is not valid text; text input
/// always is, so [`parse`] is proven never to return it.
#[derive(Debug, PartialEq)]
pub enum ParseOutcome {
    Done(String, Value),
    StructuralError,
    EncodingError,
    Incomplete,
}

/// The runtime outcome of one scanner: the position after the match
/// and the parsed result, a mismatch, or exhausted input.
enum Lexed<T> {
    Found(usize, T),
    Failed,
    NeedMore,
}

/// The characters of `text`, in order.
pub(crate) fn chars_of(text: &str) -> (out: Vec<char>)
    ensures
        out@ == text@,
{
    let mut out: Vec<char> = Vec::new();
    let mut it = text.chars();
    loop
        invariant
            it.decrease() is Some,
            out@ + it.remaining() == text@,
        ensures
            out@ == text@,
        decreases it.decrease()->0,
    {
        match it.next() {
            Some(c) => {
                out.push(c);
                proof {
                    assert(out@ + it.remaining() =~= text@);
                }
            },
            None => {
                proof {
                    assert(out@ =~= text@);
                }
                break ;
            },
        }
    }
    out
}

/// The position right after the whitespace run at `i`.
fn skip_ws(s: &Vec<char>, i: usize) -> (j: usize)
    requires
        i <= s.len(),
    ensures
        i <= j <= s.len(),
        j == i + ws_run(s@, i as nat),
{
    let mut j = i;
    while j < s.len() && (s[j] == ' ' || s[j] == '\t' || s[j] == '\n' || s[j] == '\r')
        invariant
            i <= j <= s.len(),
            ws_run(s@, i as nat) == (j - i) + ws_run(s@, j as nat),
        decreases s.len() - j,
    {
        j = j + 1;
    }
    j
}

/// Whether `c` is an ASCII decimal digit.
pub(crate) fn char_is_digit(c: char) -> (b: bool)
    ensures
        b == is_digit(c),
{
    let u = c as u32;
    48 <= u && u <= 57
}

/// The position right after the digit run at `i`.
fn skip_digits(s: &Vec<char>, i: usize) -> (j: usize)
    requires
        i <= s.len(),
    ensures
        i <= j <= s.len(),
        j == i + digit_run(s@, i as nat),
        forall|k: int| i <= k < j ==> is_digit(s@[k]),
{
    let mut j = i;
    while j < s.len() && char_is_digit(s[j])
        invariant
            i <= j <= s.len(),
            digit_run(s@, i as nat) == (j - i) + digit_run(s@, j as nat),
            forall|k: int| i <= k < j ==> is_digit(s@[k]),
        decreases s.len() - j,
    {
        j = j + 1;
    }
    j
}

/// The position right after the run of characters other than `"` at
/// `i`.
fn skip_non_quote(s: &Vec<char>, i: usize) -> (j: usize)
    requires
        i <= s.len(),
    ensures
        i <= j <= s.len(),
        j == i + non_quote_run(s@, i as nat),
{
    let mut j = i;
    while j < s.len() && s[j] != '"'
        invariant
            i <= j <= s.len(),
            non_quote_run(s@, i as nat) == (j - i) + non_quote_run(s@, j as nat),
        decreases s.len() - j,
    {
        j = j + 1;
    }
    j
}

/// A longer digit run never has a smaller value.
proof fn lemma_digits_val_mono(s: Seq<char>, i: nat, a: nat, b: nat)
    requires
        a <= b,
    ensures
        digits_val(s, i, a) <= digits_val(s, i, b),
    decreases b,
{
    if a < b {
        lemma_digits_val_mono(s, i, a, (b - 1) as nat);
    }
}

/// The digit run of length `n` at `i` as an `i64`, or `None` when its
/// value does not fit.
fn int_from_digits(s: &Vec<char>, i: usize, n: usize) -> (r: Option<i64>)
    requires
        i + n <= s.len(),
        forall|k: int| i <= k < i + n ==> is_digit(s@[k]),
    ensures
        match r {
            Option::Some(v) => digits_val(s@, i as nat, n as nat) <= i64::MAX && v
                == digits_val(s@, i as nat, n as nat),
            Option::None => digits_val(s@, i as nat, n as nat) > i64::MAX,
        },
{
    let mut acc: u64 = 0;
    let mut k: usize = 0;
    while k < n
        invariant
            k <= n,
            i + n <= s.len(),
            forall|l: int| i <= l < i + n ==> is_digit(s@[l]),
            acc == digits_val(s@, i as nat, k as nat),
            acc <= 0x7fff_ffff_ffff_ffff,
        decreases n - k,
    {
        let d = (s[i + k] as u32 - 48) as u64;
        if acc > 922337203685477580 || (acc == 922337203685477580 && d > 7) {
            proof {
                assert(digits_val(s@, i as nat, (k + 1) as nat) > i64::MAX);
                lemma_digits_val_mono(s@, i as nat, (k + 1) as nat, n as nat);
            }
            return Option::None;
        }
        acc = acc * 10 + d;
        k = k + 1;
    }
    Option::Some(acc as i64)
}

/// The `null` literal at `i`.
fn null_at(s: &Vec<char>, i: usize) -> (r: Lexed<()>)
    requires
        i <= s.len(),
    ensures
        (match scan_null(s@, i as nat) {
            Parsed::Done { used, val } => r matches Lexed::Found(end, x) && end == i + used && end
                <= s.len(),
            Parsed::Fail => r is Failed,
            Parsed::More => r is NeedMore,
        }),
{
    if i < s.len() && s[i] != 'n' {
        Lexed::Failed
    } else if s.len() - i >= 2 && s[i + 1] != 'u' {
        Lexed::Failed
    } else if s.len() - i >= 3 && s[i + 2] != 'l' {
        Lexed::Failed
    } else if s.len() - i >= 4 && s[i + 3] != 'l' {
        Lexed::Failed
    } else if s.len() - i < 4 {
        Lexed::NeedMore
    } else {
        Lexed::Found(i + 4, ())
    }
}

/// A quoted string token at `i`; the result is the text between the
/// quotes.
fn string_at(text: &str, s: &Vec<char>, i: usize) -> (r: Lexed<String>)
    requires
        text@ == s@,
        i <= s.len(),
    ensures
        (match scan_string(s@, i as nat) {
            Parsed::Done { used, val } => r matches Lexed::Found(end, t) && end == i + used && end
                <= s.len() && t@ == val,
            Parsed::Fail => r is Failed,
            Parsed::More => r is NeedMore,
        }),
{
    if i >= s.len() {
        return Lexed::NeedMore;
    }
    if s[i] != '"' {
        return Lexed::Failed;
    }
    let e = skip_non_quote(s, i + 1);
    if e >= s.len() {
        return Lexed::NeedMore;
    }
    if e == i + 1 {
        return Lexed::Failed;
    }
    let content = String::from_str(text.substring_char(i + 1, e));
    Lexed::Found(e + 1, content)
}

/// A number token at `i`: the float shape when it is there, otherwise
/// the digit run as an integer.
fn number_at(text: &str, s: &Vec<char>, i: usize) -> (r: Lexed<Value>)
    requires
        text@ == s@,
        i <= s.len(),
    ensures
        (match scan_number(s@, i as nat) {
            Parsed::Done { used, val } => r matches Lexed::Found(end, v) && end == i + used && end
                <= s.len() && v@ == val,
            Parsed::Fail => r is Failed,
            Parsed::More => r is NeedMore,
        }),
{
    let e = skip_digits(s, i);
    if e == i {
        return Lexed::Failed;
    }
    if e < s.len() && s[e] == '.' {
        let f = skip_digits(s, e + 1);
        if f > e + 1 {
            let int_digits = String::from_str(text.substring_char(i, e));
            let frac_digits = String::from_str(text.substring_char(e + 1, f));
            return Lexed::Found(f, Value::Float { int_digits, frac_digits });
        }
        if e + 1 >= s.len() {
            return Lexed::NeedMore;
        }
    }
    match int_from_digits(s, i, e - i) {
        Option::Some(v) => Lexed::Found(e, Value::Integer(v)),
        Option::None => Lexed::Failed,
    }
}

/// When no pair carries key `k`, the upsert appends.
pub(crate) proof fn lemma_upsert_no_match(ps: Seq<(Seq<char>, ValueView)>, k: Seq<char>, v: ValueView)
    requires
        forall|l: int| 0 <= l < ps.len() ==> ps[l].0 != k,
    ensures
        upsert_pair(ps, k, v) == ps.push((k, v)),
    decreases ps.len(),
{
    if ps.len() == 0 {
        assert(upsert_pair(ps, k, v) =~= ps.push((k, v)));
    } else {
        lemma_upsert_no_match(ps.drop_first(), k, v);
        assert(upsert_pair(ps, k, v) =~= ps.push((k, v)));
    }
}

/// When `idx` is the first pair with key `k`, the upsert replaces it
/// in place.
pub(crate) proof fn lemma_upsert_match_at(ps: Seq<(Seq<char>, ValueView)>, idx: int, k: Seq<char>, v: ValueView)
    requires
        0 <= idx < ps.len(),
        ps[idx].0 == k,
        forall|l: int| 0 <= l < idx ==> ps[l].0 != k,
    ensures
        upsert_pair(ps, k, v) == ps.update(idx, (k, v)),
    decreases idx,
{
    if idx == 0 {
        assert(upsert_pair(ps, k, v) =~= ps.update(idx, (k, v)));
    } else {
        lemma_upsert_match_at(ps.drop_first(), idx - 1, k, v);
        assert(upsert_pair(ps, k, v) =~= ps.update(idx, (k, v)));
    }
}

/// One map insert on a pair list kept in first-appearance order.
fn upsert_exec(out: &mut Vec<(String, Value)>, key: String, v: Value)
    ensures
        view_of_pairs(final (out)@) == upsert_pair(
            view_of_pairs(old(out)@),
            key@,
            view_of(v),
        ),
{
    proof {
        lemma_view_of_pairs(out@);
    }
    let ghost vo = view_of_pairs(out@);
    let mut idx: usize = 0;
    while idx < out.len()
        invariant
            idx <= out.len(),
            out@ == old(out)@,
            vo == view_of_pairs(out@),
            view_of_pairs(out@).len() == out@.len(),
            forall|l: int| 0 <= l < out@.len() ==> view_of_pairs(out@)[l] == (
                out@[l].0@,
                view_of(out@[l].1),
            ),
            forall|l: int| 0 <= l < idx ==> out@[l].0@ != key@,
        decreases out.len() - idx,
    {
        if out[idx].0 == key {
            let _ = out.remove(idx);
            out.insert(idx, (key, v));
            proof {
                assert(out@ =~= old(out)@.update(idx as int, (old(out)@[idx as int].0, v)).update(
                    idx as int,
                    out@[idx as int],
                ));
                assert(out@ =~= old(out)@.update(idx as int, out@[idx as int]));
                lemma_view_of_pairs(out@);
                lemma_upsert_match_at(vo, idx as int, out@[idx as int].0@, view_of(v));
                assert(view_of_pairs(out@) =~= vo.update(
                    idx as int,
                    (out@[idx as int].0@, view_of(v)),
                ));
            }
            return ;
        }
        idx = idx + 1;
    }
    out.push((key, v));
    proof {
        lemma_view_of_pairs(out@);
        lemma_upsert_no_match(vo, out@.last().0@, view_of(v));
        assert(view_of_pairs(out@) =~= vo.push((out@.last().0@, view_of(v))));
    }
}

/// The raw pair list folded through map inserts, left to right.
fn dedup_exec(raw: Vec<(String, Value)>) -> (out: Vec<(String, Value)>)
    ensures
        view_of_pairs(out@) == dedup_pairs(view_of_pairs(raw@)),
    decreases raw.len(),
{
    let ghost vo = view_of_pairs(raw@);
    let mut r = raw;
    if r.len() == 0 {
        let out: Vec<(String, Value)> = Vec::new();
        proof {
            assert(view_of_pairs(out@) =~= dedup_pairs(vo));
        }
        out
    } else {
        let last = r.pop().unwrap();
        proof {
            assert(vo == view_of_pairs(r@).push((last.0@, view_of(last.1))));
            assert(vo.drop_last() =~= view_of_pairs(r@));
        }
        let mut out = dedup_exec(r);
        upsert_exec(&mut out, last.0, last.1);
        out
    }
}

/// One `key: value` pair with its surrounding whitespace.
fn member_at(text: &str, s: &Vec<char>, i: usize) -> (r: Lexed<(String, Value)>)
    requires
        text@ == s@,
        i <= s.len(),
    ensures
        (match scan_member(s@, i as nat) {
            Parsed::Done { used, val } => r matches Lexed::Found(end, kv) && end == i + used && end
                <= s.len() && kv.0@ == val.0 && kv.1@ == val.1,
            Parsed::Fail => r is Failed,
            Parsed::More => r is NeedMore,
        }),
    decreases s.len() - i, 2int,
{
    let j = skip_ws(s, i);
    match string_at(text, s, j) {
        Lexed::Failed => Lexed::Failed,
        Lexed::NeedMore => Lexed::NeedMore,
        Lexed::Found(p, key) => {
            let q = skip_ws(s, p);
            if q >= s.len() {
                return Lexed::NeedMore;
            }
            if s[q] != ':' {
                return Lexed::Failed;
            }
            match value_at(text, s, q + 1) {
                Lexed::Found(r0, v) => {
                    let t = skip_ws(s, r0);
                    Lexed::Found(t, (key, v))
                },
                Lexed::Failed => Lexed::Failed,
                Lexed::NeedMore => Lexed::NeedMore,
            }
        },
    }
}

/// A possibly empty comma-separated pair list.
fn members_at(text: &str, s: &Vec<char>, i: usize) -> (r: Lexed<Vec<(String, Value)>>)
    requires
        text@ == s@,
        i <= s.len(),
    ensures
        (match scan_members(s@, i as nat) {
            Parsed::Done { used, val } => r matches Lexed::Found(end, ps) && end == i + used && end
                <= s.len() && view_of_pairs(ps@) == val,
            Parsed::Fail => r is Failed,
            Parsed::More => r is NeedMore,
        }),
    decreases s.len() - i, 3int,
{
    match member_at(text, s, i) {
        Lexed::Failed => Lexed::Found(i, Vec::new()),
        Lexed::NeedMore => Lexed::NeedMore,
        Lexed::Found(e, kv) => {
            if e < s.len() && s[e] == ',' {
                match members_at(text, s, e + 1) {
                    Lexed::Found(e2, rest) => {
                        proof {
                            lemma_view_of_pairs(rest@);
                        }
                        if rest.len() == 0 {
                            let mut one: Vec<(String, Value)> = Vec::new();
                            one.push(kv);
                            proof {
                                lemma_view_of_pairs(one@);
                                assert(view_of_pairs(one@) =~= seq![
                                    (one@[0].0@, view_of(one@[0].1)),
                                ]);
                            }
                            Lexed::Found(e, one)
                        } else {
                            let ghost rest0 = rest@;
                            let mut out: Vec<(String, Value)> = Vec::new();
                            out.push(kv);
                            let mut rest2 = rest;
                            out.append(&mut rest2);
                            proof {
                                lemma_view_of_pairs(out@);
                                lemma_view_of_pairs(rest0);
                                assert(view_of_pairs(out@) =~= seq![
                                    (out@[0].0@, view_of(out@[0].1)),
                                ] + view_of_pairs(rest0));
                            }
                            Lexed::Found(e2, out)
                        }
                    },
                    Lexed::NeedMore => Lexed::NeedMore,
                    Lexed::Failed => Lexed::Failed,
                }
            } else {
                let mut one: Vec<(String, Value)> = Vec::new();
                one.push(kv);
                proof {
                    lemma_view_of_pairs(one@);
                    assert(view_of_pairs(one@) =~= seq![(one@[0].0@, view_of(one@[0].1))]);
                }
                Lexed::Found(e, one)
            }
        },
    }
}

/// An object at `i`.
fn object_at(text: &str, s: &Vec<char>, i: usize) -> (r: Lexed<Value>)
    requires
        text@ == s@,
        i <= s.len(),
    ensures
        (match scan_object(s@, i as nat) {
            Parsed::Done { used, val } => r matches Lexed::Found(end, v) && end == i + used && end
                <= s.len() && v@ == val,
            Parsed::Fail => r is Failed,
            Parsed::More => r is NeedMore,
        }),
    decreases s.len() - i, 1int,
{
    if i >= s.len() {
        return Lexed::NeedMore;
    }
    if s[i] != '{' {
        return Lexed::Failed;
    }
    match members_at(text, s, i + 1) {
        Lexed::Found(k, raw) => {
            let k2 = skip_ws(s, k);
            if k2 < s.len() && s[k2] == '}' {
                let obj = dedup_exec(raw);
                Lexed::Found(k2 + 1, Value::Object(obj))
            } else if k2 >= s.len() {
                Lexed::NeedMore
            } else {
                Lexed::Failed
            }
        },
        Lexed::NeedMore => Lexed::NeedMore,
        Lexed::Failed => Lexed::Failed,
    }
}

/// A possibly empty comma-separated element list.
fn elements_at(text: &str, s: &Vec<char>, i: usize) -> (r: Lexed<Vec<Value>>)
    requires
        text@ == s@,
        i <= s.len(),
    ensures
        (match scan_elements(s@, i as nat) {
            Parsed::Done { used, val } => r matches Lexed::Found(end, vs) && end == i + used && end
                <= s.len() && view_of_elems(vs@) == val,
            Parsed::Fail => r is Failed,
            Parsed::More => r is NeedMore,
        }),
    decreases s.len() - i, 3int,
{
    match value_at(text, s, i) {
        Lexed::Failed => Lexed::Found(i, Vec::new()),
        Lexed::NeedMore => Lexed::NeedMore,
        Lexed::Found(e, v) => {
            let k = skip_ws(s, e);
            if k < s.len() && s[k] == ',' {
                match elements_at(text, s, k + 1) {
                    Lexed::Found(e2, rest) => {
                        proof {
                            lemma_view_of_elems(rest@);
                        }
                        if rest.len() == 0 {
                            let mut one: Vec<Value> = Vec::new();
                            one.push(v);
                            proof {
                                lemma_view_of_elems(one@);
                                assert(view_of_elems(one@) =~= seq![view_of(one@[0])]);
                            }
                            Lexed::Found(e, one)
                        } else {
                            let ghost rest0 = rest@;
                            let mut out: Vec<Value> = Vec::new();
                            out.push(v);
                            let mut rest2 = rest;
                            out.append(&mut rest2);
                            proof {
                                lemma_view_of_elems(out@);
                                lemma_view_of_elems(rest0);
                                assert(view_of_elems(out@) =~= seq![view_of(out@[0])]
                                    + view_of_elems(rest0));
                            }
                            Lexed::Found(e2, out)
                        }
                    },
                    Lexed::NeedMore => Lexed::NeedMore,
                    Lexed::Failed => Lexed::Failed,
                }
            } else {
                let mut one: Vec<Value> = Vec::new();
                one.push(v);
                proof {
                    lemma_view_of_elems(one@);
                    assert(view_of_elems(one@) =~= seq![view_of(one@[0])]);
                }
                Lexed::Found(e, one)
            }
        },
    }
}

/// An array at `i`.
fn array_at(text: &str, s: &Vec<char>, i: usize) -> (r: Lexed<Value>)
    requires
        text@ == s@,
        i <= s.len(),
    ensures
        (match scan_array(s@, i as nat) {
            Parsed::Done { used, val } => r matches Lexed::Found(end, v) && end == i + used && end
                <= s.len() && v@ == val,
            Parsed::Fail => r is Failed,
            Parsed::More => r is NeedMore,
        }),
    decreases s.len() - i, 1int,
{
    if i >= s.len() {
        return Lexed::NeedMore;
    }
    if s[i] != '[' {
        return Lexed::Failed;
    }
    match elements_at(text, s, i + 1) {
        Lexed::Found(k, vs) => {
            let k2 = skip_ws(s, k);
            if k2 < s.len() && s[k2] == ']' {
                Lexed::Found(k2 + 1, Value::Array(vs))
            } else if k2 >= s.len() {
                Lexed::NeedMore
            } else {
                Lexed::Failed
            }
        },
        Lexed::NeedMore => Lexed::NeedMore,
        Lexed::Failed => Lexed::Failed,
    }
}

/// A value at `i`: optional whitespace, then the alternative that its
/// first character picks.
fn value_at(text: &str, s: &Vec<char>, i: usize) -> (r: Lexed<Value>)
    requires
        text@ == s@,
        i <= s.len(),
    ensures
        (match scan_value(s@, i as nat) {
            Parsed::Done { used, val } => r matches Lexed::Found(end, v) && end == i + used && end
                <= s.len() && v@ == val,
            Parsed::Fail => r is Failed,
            Parsed::More => r is NeedMore,
        }),
    decreases s.len() - i, 2int,
{
    let j = skip_ws(s, i);
    if j >= s.len() {
        return Lexed::NeedMore;
    }
    let c = s[j];
    if c == 'n' {
        match null_at(s, j) {
            Lexed::Found(e, _) => {
                let e2 = skip_ws(s, e);
                Lexed::Found(e2, Value::Null)
            },
            Lexed::Failed => Lexed::Failed,
            Lexed::NeedMore => Lexed::NeedMore,
        }
    } else if c == '"' {
        match string_at(text, s, j) {
            Lexed::Found(e, t) => Lexed::Found(e, Value::String(t)),
            Lexed::Failed => Lexed::Failed,
            Lexed::NeedMore => Lexed::NeedMore,
        }
    } else if char_is_digit(c) {
        number_at(text, s, j)
    } else if c == '{' {
        object_at(text, s, j)
    } else if c == '[' {
        array_at(text, s, j)
    } else {
        Lexed::Failed
    }
}

/// Parses one value from the front of `input`.
///
/// The result is exactly what the grammar says of `input`: on
/// success, the parsed tree together with the text that stands after
/// it (which may be anything, including nothing); `StructuralError`
/// when no alternative matches; `Incomplete` when the input ended
/// where more characters could still have completed a value.
pub fn parse(input: &str) -> (r: ParseOutcome)
    ensures
        (match parse_spec(input@) {
            Parsed::Done { used, val } => r matches ParseOutcome::Done(rest, v) && v@ == val
                && rest@ == input@.skip(used as int),
            Parsed::Fail => r is StructuralError,
            Parsed::More => r is Incomplete,
        }),
        !(r is EncodingError),
{
    let s = chars_of(input);
    match value_at(input, &s, 0) {
        Lexed::Found(end, v) => {
            let rest = String::from_str(input.substring_char(end, s.len()));
            proof {
                assert(rest@ =~= input@.skip(
                    (end - 0) as int,
                ));
            }
            ParseOutcome::Done(rest, v)
        },
        Lexed::Failed => ParseOutcome::StructuralError,
        Lexed::NeedMore => ParseOutcome::Incomplete,
    }
}

} // verus!
