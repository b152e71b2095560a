//! The round-trip law: the text the writer produces parses back to
//! the tree it was written from.

use vstd::prelude::*;
use crate::grammar::{
    digit_run, digit_val, digits_val, is_digit, is_ws, non_quote_run, parse_spec, scan_array,
    scan_elements, scan_member, scan_members, scan_null, scan_object, scan_string, scan_value,
    ws_run, Parsed,
};
use crate::json::{dedup_pairs, ValueView};
use crate::parser::{lemma_upsert_match_at, lemma_upsert_no_match};
use crate::json::upsert_pair;
use crate::writer::{
    dec_digits, distinct_keys, ser_elems, ser_pair, ser_pairs, ser_value, writable,
    writable_digits, writable_elems, writable_key, writable_pair, writable_pairs,
};

verus! {

/// `t` stands in `s` at position `i`.
pub open spec fn occurs_at(s: Seq<char>, i: nat, t: Seq<char>) -> bool {
    i + t.len() <= s.len() && (forall|k: int| 0 <= k < t.len() ==> s[i + k] == #[trigger] t[k])
}

/// A position at which no token keeps going: the end of the input, or
/// a character that is no digit, no `.`, and no whitespace.  After a
/// value inside a document the writer puts `,`, `}`, `]` or nothing,
/// all of which stop here.
pub open spec fn hard_stop(s: Seq<char>, e: nat) -> bool {
    e == s.len() || (!is_digit(s[e as int]) && s[e as int] != '.' && !is_ws(s[e as int]))
}

/// One character of an occurrence.
proof fn lemma_occurs_index(s: Seq<char>, i: nat, t: Seq<char>, k: int)
    requires
        occurs_at(s, i, t),
        0 <= k < t.len(),
    ensures
        s[i + k] == t[k],
{
}

/// An occurrence of `a + b` is an occurrence of `a` and one of `b`.
proof fn lemma_occurs_concat(s: Seq<char>, i: nat, a: Seq<char>, b: Seq<char>)
    requires
        occurs_at(s, i, a + b),
    ensures
        occurs_at(s, i, a),
        occurs_at(s, i + a.len(), b),
{
    assert forall|k: int| 0 <= k < a.len() implies s[i + k] == #[trigger] a[k] by {
        lemma_occurs_index(s, i, a + b, k);
        assert((a + b)[k] == a[k]);
    }
    assert forall|k: int| 0 <= k < b.len() implies s[i + a.len() + k] == #[trigger] b[k] by {
        lemma_occurs_index(s, i, a + b, a.len() + k);
        assert((a + b)[a.len() + k] == b[k]);
    }
}

/// An occurring digit run bounded by a non-digit is scanned exactly.
proof fn lemma_digit_run_exact(s: Seq<char>, i: nat, t: Seq<char>)
    requires
        occurs_at(s, i, t),
        forall|k: int| 0 <= k < t.len() ==> is_digit(#[trigger] t[k]),
        i + t.len() == s.len() || !is_digit(s[(i + t.len()) as int]),
    ensures
        digit_run(s, i) == t.len(),
    decreases t.len(),
{
    if t.len() == 0 {
    } else {
        lemma_occurs_index(s, i, t, 0);
        let u = t.drop_first();
        assert forall|k: int| 0 <= k < u.len() implies s[i + 1 + k] == #[trigger] u[k] by {
            lemma_occurs_index(s, i, t, k + 1);
            assert(u[k] == t[k + 1]);
        }
        assert(occurs_at(s, i + 1, u));
        assert forall|k: int| 0 <= k < u.len() implies is_digit(#[trigger] u[k]) by {
            assert(u[k] == t[k + 1]);
        }
        lemma_digit_run_exact(s, i + 1, u);
    }
}

/// An occurring quote-free run bounded by a quote is scanned exactly.
proof fn lemma_non_quote_run_exact(s: Seq<char>, i: nat, t: Seq<char>)
    requires
        occurs_at(s, i, t),
        forall|k: int| 0 <= k < t.len() ==> (#[trigger] t[k]) != '"',
        i + t.len() < s.len(),
        s[(i + t.len()) as int] == '"',
    ensures
        non_quote_run(s, i) == t.len(),
    decreases t.len(),
{
    if t.len() == 0 {
    } else {
        lemma_occurs_index(s, i, t, 0);
        let u = t.drop_first();
        assert forall|k: int| 0 <= k < u.len() implies s[i + 1 + k] == #[trigger] u[k] by {
            lemma_occurs_index(s, i, t, k + 1);
            assert(u[k] == t[k + 1]);
        }
        assert(occurs_at(s, i + 1, u));
        assert forall|k: int| 0 <= k < u.len() implies (#[trigger] u[k]) != '"' by {
            assert(u[k] == t[k + 1]);
        }
        lemma_non_quote_run_exact(s, i + 1, u);
    }
}

/// An occurrence pins the subrange.
proof fn lemma_occurs_subrange(s: Seq<char>, i: nat, t: Seq<char>)
    requires
        occurs_at(s, i, t),
    ensures
        s.subrange(i as int, (i + t.len()) as int) == t,
{
    assert forall|k: int| 0 <= k < t.len() implies s.subrange(i as int, (i + t.len()) as int)[k]
        == #[trigger] t[k] by {
        lemma_occurs_index(s, i, t, k);
    }
    assert(s.subrange(i as int, (i + t.len()) as int) =~= t);
}

/// The numeral of `n` is a nonempty digit run.
proof fn lemma_dec_digits_shape(n: nat)
    ensures
        dec_digits(n).len() >= 1,
        forall|k: int| 0 <= k < dec_digits(n).len() ==> is_digit(#[trigger] dec_digits(n)[k]),
    decreases n,
{
    if n >= 10 {
        lemma_dec_digits_shape(n / 10);
    }
}

/// Reading an occurrence of the numeral of `n` back gives `n`.
proof fn lemma_digits_val_of_dec(s: Seq<char>, i: nat, n: nat)
    requires
        occurs_at(s, i, dec_digits(n)),
    ensures
        digits_val(s, i, dec_digits(n).len()) == n,
    decreases n,
{
    lemma_dec_digits_shape(n);
    if n < 10 {
        lemma_occurs_index(s, i, dec_digits(n), 0);
        assert(digits_val(s, i, 0) == 0);
        assert(digits_val(s, i, 1) == digit_val(s[i as int]));
    } else {
        let front = dec_digits(n / 10);
        let l = dec_digits(n).len();
        assert forall|k: int| 0 <= k < front.len() implies s[i + k] == #[trigger] front[k] by {
            lemma_occurs_index(s, i, dec_digits(n), k);
            assert(dec_digits(n)[k] == front[k]);
        }
        assert(occurs_at(s, i, front));
        lemma_digits_val_of_dec(s, i, n / 10);
        lemma_occurs_index(s, i, dec_digits(n), l - 1);
        assert(digits_val(s, i, l) == digits_val(s, i, (l - 1) as nat) * 10 + digit_val(
            s[(i + l - 1) as int],
        ));
    }
}

/// Folding a list whose keys are distinct through map inserts keeps
/// it as it is.
proof fn lemma_dedup_distinct(ps: Seq<(Seq<char>, ValueView)>)
    requires
        distinct_keys(ps),
    ensures
        dedup_pairs(ps) == ps,
    decreases ps.len(),
{
    if ps.len() > 0 {
        let front = ps.drop_last();
        assert(distinct_keys(front));
        lemma_dedup_distinct(front);
        assert forall|l: int| 0 <= l < front.len() implies front[l].0 != ps.last().0 by {
            assert(ps[l].0 != ps[ps.len() - 1].0);
        }
        lemma_upsert_no_match(front, ps.last().0, ps.last().1);
        assert(front.push(ps.last()) =~= ps);
    }
}

/// At a separator or closing bracket no value starts: the value rule
/// fails.
proof fn lemma_value_fail_at_close(s: Seq<char>, i: nat)
    requires
        i < s.len(),
        s[i as int] == '}' || s[i as int] == ']' || s[i as int] == ',',
    ensures
        scan_value(s, i) is Fail,
{
    assert(ws_run(s, i) == 0);
}

/// At a closing brace no pair starts: the pair rule fails.
proof fn lemma_member_fail_at_close(s: Seq<char>, i: nat)
    requires
        i < s.len(),
        s[i as int] == '}',
    ensures
        scan_member(s, i) is Fail,
{
    assert(ws_run(s, i) == 0);
    assert(scan_string(s, i) is Fail);
}

/// The writer's text for one value, inside a document and bounded by
/// a stopper, scans back to exactly that value.
proof fn lemma_value_ser(v: ValueView, s: Seq<char>, i: nat)
    requires
        writable(v),
        occurs_at(s, i, ser_value(v)),
        hard_stop(s, i + ser_value(v).len()),
    ensures
        scan_value(s, i) == (Parsed::Done { used: ser_value(v).len(), val: v }),
    decreases v, 1int,
{
    let t = ser_value(v);
    match v {
        ValueView::Null => {
            lemma_occurs_index(s, i, t, 0);
            lemma_occurs_index(s, i, t, 1);
            lemma_occurs_index(s, i, t, 2);
            lemma_occurs_index(s, i, t, 3);
            assert(ws_run(s, i) == 0);
            assert(scan_null(s, i) == (Parsed::Done { used: 4nat, val: () }));
            assert(ws_run(s, i + 4) == 0);
        },
        ValueView::Integer(n) => {
            lemma_dec_digits_shape(n as nat);
            lemma_digit_run_exact(s, i, t);
            lemma_occurs_index(s, i, t, 0);
            assert(ws_run(s, i) == 0);
            lemma_digits_val_of_dec(s, i, n as nat);
        },
        ValueView::Float { int_digits, frac_digits } => {
            lemma_occurs_concat(s, i, int_digits + seq!['.'], frac_digits);
            lemma_occurs_concat(s, i, int_digits, seq!['.']);
            lemma_occurs_index(s, i + int_digits.len(), seq!['.'], 0);
            assert(s[(i + int_digits.len()) as int] == '.');
            lemma_digit_run_exact(s, i, int_digits);
            let f = i + int_digits.len() + 1;
            lemma_digit_run_exact(s, f, frac_digits);
            lemma_occurs_index(s, i, int_digits, 0);
            assert(ws_run(s, i) == 0);
            lemma_occurs_subrange(s, i, int_digits);
            lemma_occurs_subrange(s, f, frac_digits);
        },
        ValueView::Str(st) => {
            lemma_occurs_concat(s, i, seq!['"'] + st, seq!['"']);
            lemma_occurs_concat(s, i, seq!['"'], st);
            lemma_occurs_index(s, i, seq!['"'], 0);
            lemma_occurs_index(s, i + 1 + st.len(), seq!['"'], 0);
            assert(s[i as int] == '"');
            assert(s[(i + 1 + st.len()) as int] == '"');
            assert(ws_run(s, i) == 0);
            lemma_non_quote_run_exact(s, i + 1, st);
            lemma_occurs_subrange(s, i + 1, st);
        },
        ValueView::Object(ps) => {
            lemma_occurs_concat(s, i, seq!['{'] + ser_pairs(ps), seq!['}']);
            lemma_occurs_concat(s, i, seq!['{'], ser_pairs(ps));
            lemma_occurs_index(s, i, seq!['{'], 0);
            lemma_occurs_index(s, i + 1 + ser_pairs(ps).len(), seq!['}'], 0);
            assert(s[i as int] == '{');
            assert(s[(i + 1 + ser_pairs(ps).len()) as int] == '}');
            assert(ws_run(s, i) == 0);
            lemma_members_ser(ps, s, i + 1);
            assert(ws_run(s, i + 1 + ser_pairs(ps).len()) == 0);
            lemma_dedup_distinct(ps);
        },
        ValueView::Array(es) => {
            lemma_occurs_concat(s, i, seq!['['] + ser_elems(es), seq![']']);
            lemma_occurs_concat(s, i, seq!['['], ser_elems(es));
            lemma_occurs_index(s, i, seq!['['], 0);
            lemma_occurs_index(s, i + 1 + ser_elems(es).len(), seq![']'], 0);
            assert(s[i as int] == '[');
            assert(s[(i + 1 + ser_elems(es).len()) as int] == ']');
            assert(ws_run(s, i) == 0);
            lemma_elems_ser(es, s, i + 1);
            assert(ws_run(s, i + 1 + ser_elems(es).len()) == 0);
        },
    }
}

/// The writer's text for one pair, bounded by `,` or `}`, scans back
/// to that pair.
proof fn lemma_member_ser(p: (Seq<char>, ValueView), s: Seq<char>, i: nat)
    requires
        writable_pair(p),
        occurs_at(s, i, ser_pair(p)),
        i + ser_pair(p).len() < s.len(),
        s[(i + ser_pair(p).len()) as int] == ',' || s[(i + ser_pair(p).len()) as int] == '}',
    ensures
        scan_member(s, i) == (Parsed::Done { used: ser_pair(p).len(), val: p }),
    decreases p, 1int,
{
    let key = p.0;
    lemma_occurs_concat(s, i, seq!['"'] + key + seq!['"', ':'], ser_value(p.1));
    lemma_occurs_concat(s, i, seq!['"'] + key, seq!['"', ':']);
    lemma_occurs_concat(s, i, seq!['"'], key);
    lemma_occurs_index(s, i, seq!['"'], 0);
    lemma_occurs_index(s, i + 1 + key.len(), seq!['"', ':'], 0);
    lemma_occurs_index(s, i + 1 + key.len(), seq!['"', ':'], 1);
    assert(s[i as int] == '"');
    assert(s[(i + 1 + key.len()) as int] == '"');
    assert(s[(i + 2 + key.len()) as int] == ':');
    assert(ws_run(s, i) == 0);
    lemma_non_quote_run_exact(s, i + 1, key);
    assert(scan_string(s, i) == (Parsed::Done {
        used: key.len() + 2,
        val: s.subrange((i + 1) as int, (i + 1 + key.len()) as int),
    }));
    lemma_occurs_subrange(s, i + 1, key);
    assert(ws_run(s, i + 2 + key.len()) == 0);
    let w = i + key.len() + 3;
    lemma_value_ser(p.1, s, w);
    let r = w + ser_value(p.1).len();
    assert(r == i + ser_pair(p).len());
    assert(ws_run(s, r) == 0);
    assert((key, p.1) == p);
}

/// The writer's text for a pair list, bounded by `}`, scans back to
/// that list.
proof fn lemma_members_ser(ps: Seq<(Seq<char>, ValueView)>, s: Seq<char>, i: nat)
    requires
        writable_pairs(ps),
        occurs_at(s, i, ser_pairs(ps)),
        i + ser_pairs(ps).len() < s.len(),
        s[(i + ser_pairs(ps).len()) as int] == '}',
    ensures
        scan_members(s, i) == (Parsed::Done { used: ser_pairs(ps).len(), val: ps }),
    decreases ps, 0int,
{
    if ps.len() == 0 {
        lemma_member_fail_at_close(s, i);
        assert(Seq::<(Seq<char>, ValueView)>::empty() =~= ps);
    } else if ps.len() == 1 {
        lemma_member_ser(ps[0], s, i);
        let k = i + ser_pair(ps[0]).len();
        assert(s[k as int] == '}');
        assert(seq![ps[0]] =~= ps);
    } else {
        lemma_occurs_concat(s, i, ser_pair(ps[0]) + seq![','], ser_pairs(ps.drop_first()));
        lemma_occurs_concat(s, i, ser_pair(ps[0]), seq![',']);
        lemma_occurs_index(s, i + ser_pair(ps[0]).len(), seq![','], 0);
        assert(s[(i + ser_pair(ps[0]).len()) as int] == ',');
        lemma_member_ser(ps[0], s, i);
        let k = i + ser_pair(ps[0]).len();
        let rest = ps.drop_first();
        assert(writable_pairs(rest));
        lemma_members_ser(rest, s, k + 1);
        assert(rest.len() > 0);
        assert(seq![ps[0]] + rest =~= ps);
        assert(ser_pair(ps[0]).len() + 1 + ser_pairs(rest).len() == ser_pairs(ps).len());
    }
}

/// The writer's text for an element list, bounded by `]`, scans back
/// to that list.
proof fn lemma_elems_ser(es: Seq<ValueView>, s: Seq<char>, i: nat)
    requires
        writable_elems(es),
        occurs_at(s, i, ser_elems(es)),
        i + ser_elems(es).len() < s.len(),
        s[(i + ser_elems(es).len()) as int] == ']',
    ensures
        scan_elements(s, i) == (Parsed::Done { used: ser_elems(es).len(), val: es }),
    decreases es, 0int,
{
    if es.len() == 0 {
        lemma_value_fail_at_close(s, i);
        assert(Seq::<ValueView>::empty() =~= es);
    } else if es.len() == 1 {
        lemma_value_ser(es[0], s, i);
        let k = i + ser_value(es[0]).len();
        assert(ws_run(s, k) == 0);
        assert(s[k as int] == ']');
        assert(seq![es[0]] =~= es);
    } else {
        lemma_occurs_concat(s, i, ser_value(es[0]) + seq![','], ser_elems(es.drop_first()));
        lemma_occurs_concat(s, i, ser_value(es[0]), seq![',']);
        lemma_occurs_index(s, i + ser_value(es[0]).len(), seq![','], 0);
        assert(s[(i + ser_value(es[0]).len()) as int] == ',');
        lemma_value_ser(es[0], s, i);
        let k = i + ser_value(es[0]).len();
        assert(ws_run(s, k) == 0);
        let rest = es.drop_first();
        assert(writable_elems(rest));
        lemma_elems_ser(rest, s, k + 1);
        assert(rest.len() > 0);
        assert(seq![es[0]] + rest =~= es);
        assert(ser_value(es[0]).len() + 1 + ser_elems(rest).len() == ser_elems(es).len());
    }
}

/// Round trip: the text the writer produces for a writable tree
/// parses back to that very tree, consuming the whole text.  Together
/// with the contracts of [`crate::writer::to_text`] and
/// [`crate::parser::parse`], re-parsing a written tree returns it
/// with nothing left over.
pub proof fn lemma_write_parse_round_trip(v: ValueView)
    requires
        writable(v),
    ensures
        parse_spec(ser_value(v)) == (Parsed::Done { used: ser_value(v).len(), val: v }),
{
    let s = ser_value(v);
    assert(occurs_at(s, 0, s));
    lemma_value_ser(v, s, 0);
}

/// `writable_pairs` is the same as each pair being writable.
proof fn lemma_writable_pairs_elts(ps: Seq<(Seq<char>, ValueView)>)
    ensures
        writable_pairs(ps) <==> (forall|l: int| 0 <= l < ps.len() ==> writable_pair(
            #[trigger] ps[l],
        )),
    decreases ps.len(),
{
    if ps.len() > 0 {
        lemma_writable_pairs_elts(ps.drop_first());
        if writable_pair(ps[0]) && (forall|l: int|
            0 <= l < ps.drop_first().len() ==> writable_pair(#[trigger] ps.drop_first()[l])) {
            assert forall|l: int| 0 <= l < ps.len() implies writable_pair(#[trigger] ps[l]) by {
                if l > 0 {
                    assert(ps.drop_first()[l - 1] == ps[l]);
                }
            }
        }
        if forall|l: int| 0 <= l < ps.len() ==> writable_pair(#[trigger] ps[l]) {
            assert forall|l: int| 0 <= l < ps.drop_first().len() implies writable_pair(
                #[trigger] ps.drop_first()[l],
            ) by {
                assert(ps.drop_first()[l] == ps[l + 1]);
            }
        }
    }
}

/// `writable_elems` is the same as each element being writable.
proof fn lemma_writable_elems_elts(es: Seq<ValueView>)
    ensures
        writable_elems(es) <==> (forall|l: int| 0 <= l < es.len() ==> writable(#[trigger] es[l])),
    decreases es.len(),
{
    if es.len() > 0 {
        lemma_writable_elems_elts(es.drop_first());
        if writable(es[0]) && (forall|l: int|
            0 <= l < es.drop_first().len() ==> writable(#[trigger] es.drop_first()[l])) {
            assert forall|l: int| 0 <= l < es.len() implies writable(#[trigger] es[l]) by {
                if l > 0 {
                    assert(es.drop_first()[l - 1] == es[l]);
                }
            }
        }
        if forall|l: int| 0 <= l < es.len() ==> writable(#[trigger] es[l]) {
            assert forall|l: int| 0 <= l < es.drop_first().len() implies writable(
                #[trigger] es.drop_first()[l],
            ) by {
                assert(es.drop_first()[l] == es[l + 1]);
            }
        }
    }
}

/// A map insert keeps keys distinct and every pair writable.
proof fn lemma_upsert_keeps(ps: Seq<(Seq<char>, ValueView)>, k: Seq<char>, v: ValueView)
    requires
        distinct_keys(ps),
        forall|l: int| 0 <= l < ps.len() ==> writable_pair(#[trigger] ps[l]),
        writable_key(k),
        writable(v),
    ensures
        distinct_keys(upsert_pair(ps, k, v)),
        forall|l: int| 0 <= l < upsert_pair(ps, k, v).len() ==> writable_pair(
            #[trigger] upsert_pair(ps, k, v)[l],
        ),
{
    if exists|idx: int| 0 <= idx < ps.len() && (#[trigger] ps[idx]).0 == k {
        let idx = choose|idx: int| 0 <= idx < ps.len() && (#[trigger] ps[idx]).0 == k;
        assert forall|l: int| 0 <= l < idx implies (#[trigger] ps[l]).0 != k by {
            assert(ps[l].0 != ps[idx].0);
        }
        lemma_upsert_match_at(ps, idx, k, v);
        let u = ps.update(idx, (k, v));
        assert forall|a: int, b: int| 0 <= a < b < u.len() implies u[a].0 != u[b].0 by {
            assert(ps[a].0 != ps[b].0);
        }
        assert(writable_pair((k, v)));
    } else {
        lemma_upsert_no_match(ps, k, v);
        let u = ps.push((k, v));
        assert forall|a: int, b: int| 0 <= a < b < u.len() implies u[a].0 != u[b].0 by {
            if b < u.len() - 1 {
                assert(ps[a].0 != ps[b].0);
            } else {
                assert(ps[a].0 != k);
            }
        }
        assert(writable_pair((k, v)));
    }
}

/// Folding writable pairs through map inserts yields a writable pair
/// list with distinct keys.
proof fn lemma_dedup_keeps(ps: Seq<(Seq<char>, ValueView)>)
    requires
        forall|l: int| 0 <= l < ps.len() ==> writable_pair(#[trigger] ps[l]),
    ensures
        distinct_keys(dedup_pairs(ps)),
        forall|l: int| 0 <= l < dedup_pairs(ps).len() ==> writable_pair(
            #[trigger] dedup_pairs(ps)[l],
        ),
    decreases ps.len(),
{
    if ps.len() > 0 {
        let front = ps.drop_last();
        assert forall|l: int| 0 <= l < front.len() implies writable_pair(#[trigger] front[l]) by {
            assert(front[l] == ps[l]);
        }
        lemma_dedup_keeps(front);
        assert(writable_pair(ps[ps.len() - 1]));
        lemma_upsert_keeps(dedup_pairs(front), ps.last().0, ps.last().1);
    }
}

/// A digit run stays inside the input.
proof fn lemma_digit_run_bound(s: Seq<char>, i: nat)
    requires
        i <= s.len(),
    ensures
        i + digit_run(s, i) <= s.len(),
    decreases s.len() - i,
{
    if i < s.len() && is_digit(s[i as int]) {
        lemma_digit_run_bound(s, i + 1);
    }
}

/// The characters inside a digit run are digits.
proof fn lemma_digit_run_chars(s: Seq<char>, i: nat)
    ensures
        forall|k: int| 0 <= k < digit_run(s, i) ==> is_digit(#[trigger] s[i + k]),
    decreases s.len() - i,
{
    if i < s.len() && is_digit(s[i as int]) {
        lemma_digit_run_chars(s, i + 1);
        assert forall|k: int| 0 <= k < digit_run(s, i) implies is_digit(#[trigger] s[i + k]) by {
            if k > 0 {
                assert(is_digit(s[i + 1 + (k - 1)]));
            }
        }
    }
}

/// The characters inside a quote-free run are not quotes.
proof fn lemma_non_quote_run_chars(s: Seq<char>, i: nat)
    ensures
        forall|k: int| 0 <= k < non_quote_run(s, i) ==> (#[trigger] s[i + k]) != '"',
    decreases s.len() - i,
{
    if i < s.len() && s[i as int] != '"' {
        lemma_non_quote_run_chars(s, i + 1);
        assert forall|k: int| 0 <= k < non_quote_run(s, i) implies (#[trigger] s[i + k]) != '"' by {
            if k > 0 {
                assert(s[i + 1 + (k - 1)] != '"');
            }
        }
    }
}

/// A scanned string token is a writable key: nonempty, without `"`.
proof fn lemma_scan_string_wf(s: Seq<char>, i: nat)
    ensures
        (match scan_string(s, i) {
            Parsed::Done { used, val } => writable_key(val),
            _ => true,
        }),
{
    if i < s.len() && s[i as int] == '"' {
        let n = non_quote_run(s, i + 1);
        if i + 1 + n < s.len() && n > 0 {
            lemma_non_quote_run_chars(s, i + 1);
            let t = s.subrange((i + 1) as int, (i + 1 + n) as int);
            assert forall|a: int| 0 <= a < t.len() implies t[a] != '"' by {
                assert(s[i + 1 + a] != '"');
            }
        }
    }
}

/// Every value the value rule produces is writable.
proof fn lemma_scan_value_wf(s: Seq<char>, i: nat)
    ensures
        (match scan_value(s, i) {
            Parsed::Done { used, val } => writable(val),
            _ => true,
        }),
    decreases s.len() - i, 2int,
{
    let w = ws_run(s, i);
    let j = i + w;
    if j < s.len() {
        let c = s[j as int];
        if c == '"' {
            lemma_scan_string_wf(s, j);
        } else if is_digit(c) {
            let n = digit_run(s, j);
            lemma_digit_run_chars(s, j);
            if n > 0 && j + n < s.len() && s[(j + n) as int] == '.' {
                let m = digit_run(s, j + n + 1);
                lemma_digit_run_bound(s, j + n + 1);
                lemma_digit_run_chars(s, j + n + 1);
                if m > 0 {
                    let a = s.subrange(j as int, (j + n) as int);
                    let b = s.subrange((j + n + 1) as int, (j + n + 1 + m) as int);
                    assert forall|x: int| 0 <= x < a.len() implies is_digit(a[x]) by {
                        assert(is_digit(s[j + x]));
                    }
                    assert forall|x: int| 0 <= x < b.len() implies is_digit(b[x]) by {
                        assert(is_digit(s[j + n + 1 + x]));
                    }
                    assert(writable_digits(a));
                    assert(writable_digits(b));
                }
            }
        } else if c == '{' {
            lemma_scan_object_wf(s, j);
        } else if c == '[' {
            lemma_scan_array_wf(s, j);
        }
    }
}

/// Every object the object rule produces is writable.
proof fn lemma_scan_object_wf(s: Seq<char>, i: nat)
    ensures
        (match scan_object(s, i) {
            Parsed::Done { used, val } => writable(val),
            _ => true,
        }),
    decreases s.len() - i, 1int,
{
    if i < s.len() && s[i as int] == '{' {
        lemma_scan_members_wf(s, i + 1);
        match scan_members(s, i + 1) {
            Parsed::Done { used, val } => {
                lemma_dedup_keeps(val);
                lemma_writable_pairs_elts(dedup_pairs(val));
            },
            _ => {},
        }
    }
}

/// Every pair list the pair-list rule produces is pairwise writable.
proof fn lemma_scan_members_wf(s: Seq<char>, i: nat)
    ensures
        (match scan_members(s, i) {
            Parsed::Done { used, val } => forall|l: int|
                0 <= l < val.len() ==> writable_pair(#[trigger] val[l]),
            _ => true,
        }),
    decreases s.len() - i, 3int,
{
    lemma_scan_member_wf(s, i);
    match scan_member(s, i) {
        Parsed::Done { used, val } => {
            let k = i + used;
            if k < s.len() && s[k as int] == ',' {
                lemma_scan_members_wf(s, k + 1);
                match scan_members(s, k + 1) {
                    Parsed::Done { used: used2, val: rest } => {
                        if rest.len() > 0 {
                            assert forall|l: int|
                                0 <= l < (seq![val] + rest).len() implies writable_pair(
                                #[trigger] (seq![val] + rest)[l],
                            ) by {
                                if l > 0 {
                                    assert((seq![val] + rest)[l] == rest[l - 1]);
                                }
                            }
                        }
                    },
                    _ => {},
                }
            }
        },
        _ => {},
    }
}

/// Every pair the pair rule produces is writable.
proof fn lemma_scan_member_wf(s: Seq<char>, i: nat)
    ensures
        (match scan_member(s, i) {
            Parsed::Done { used, val } => writable_pair(val),
            _ => true,
        }),
    decreases s.len() - i, 2int,
{
    let j = i + ws_run(s, i);
    lemma_scan_string_wf(s, j);
    match scan_string(s, j) {
        Parsed::Done { used, val } => {
            let p = j + used;
            let q = p + ws_run(s, p);
            if q < s.len() && s[q as int] == ':' {
                lemma_scan_value_wf(s, q + 1);
            }
        },
        _ => {},
    }
}

/// Every array the array rule produces is writable.
proof fn lemma_scan_array_wf(s: Seq<char>, i: nat)
    ensures
        (match scan_array(s, i) {
            Parsed::Done { used, val } => writable(val),
            _ => true,
        }),
    decreases s.len() - i, 1int,
{
    if i < s.len() && s[i as int] == '[' {
        lemma_scan_elements_wf(s, i + 1);
        match scan_elements(s, i + 1) {
            Parsed::Done { used, val } => {
                lemma_writable_elems_elts(val);
            },
            _ => {},
        }
    }
}

/// Every element list the element-list rule produces is elementwise
/// writable.
proof fn lemma_scan_elements_wf(s: Seq<char>, i: nat)
    ensures
        (match scan_elements(s, i) {
            Parsed::Done { used, val } => forall|l: int|
                0 <= l < val.len() ==> writable(#[trigger] val[l]),
            _ => true,
        }),
    decreases s.len() - i, 3int,
{
    lemma_scan_value_wf(s, i);
    match scan_value(s, i) {
        Parsed::Done { used, val } => {
            let k0 = i + used;
            let k = k0 + ws_run(s, k0);
            if k < s.len() && s[k as int] == ',' {
                lemma_scan_elements_wf(s, k + 1);
                match scan_elements(s, k + 1) {
                    Parsed::Done { used: used2, val: rest } => {
                        if rest.len() > 0 {
                            assert forall|l: int|
                                0 <= l < (seq![val] + rest).len() implies writable(
                                #[trigger] (seq![val] + rest)[l],
                            ) by {
                                if l > 0 {
                                    assert((seq![val] + rest)[l] == rest[l - 1]);
                                }
                            }
                        }
                    },
                    _ => {},
                }
            }
        },
        _ => {},
    }
}

/// Well-formedness of parsed trees: every value a successful parse
/// returns is writable, so its strings are nonempty and free of `"`,
/// its object keys are distinct, and its numbers lie in the grammar's
/// range -- and the writer can always give it back a text.
pub proof fn lemma_parse_writable(s: Seq<char>)
    ensures
        (match parse_spec(s) {
            Parsed::Done { used, val } => writable(val),
            _ => true,
        }),
{
    lemma_scan_value_wf(s, 0);
}

} // verus!
