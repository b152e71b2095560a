//! The grammar, written once as spec functions over `Seq<char>`.
//!
//! Every scanner takes the whole input `s` and a start position `i` and
//! says one of three things, following the three-way outcome of each
//! parse step: `Done` with the number of characters consumed and the
//! parsed result, `Fail` when this rule cannot match here (the caller
//! may backtrack and try another rule), or `More` when the input ended
//! while further characters could still have completed the rule.
//!
//! The value rule dispatches on the first character after optional
//! whitespace; since the six alternatives begin with disjoint
//! characters, this is the ordered alternation `null` / string / float
//! / integer / object / array, and trying the float shape before the
//! integer is what the digit branch of [`scan_number`] does.

use vstd::prelude::*;
use crate::json::{dedup_pairs, ValueView};

verus! {

/// The outcome of one scanner at one position.
pub enum Parsed<T> {
    /// The rule matched `used` characters and produced `val`.
    Done { used: nat, val: T },
    /// The rule cannot match at this position.
    Fail,
    /// The input ended while more characters could still have
    /// completed the rule.
    More,
}

/// The four whitespace characters the grammar tolerates.
pub open spec fn is_ws(c: char) -> bool {
    c == ' ' || c == '\t' || c == '\n' || c == '\r'
}

/// ASCII decimal digits.
pub open spec fn is_digit(c: char) -> bool {
    48 <= c as u32 && c as u32 <= 57
}

/// The numeric value of a digit character.
pub open spec fn digit_val(c: char) -> nat {
    if is_digit(c) {
        (c as u32 - 48) as nat
    } else {
        0
    }
}

/// How many whitespace characters stand at position `i`.
pub open spec fn ws_run(s: Seq<char>, i: nat) -> nat
    decreases s.len() - i,
{
    if i < s.len() && is_ws(s[i as int]) {
        1 + ws_run(s, i + 1)
    } else {
        0
    }
}

/// How many digit characters stand at position `i`.
pub open spec fn digit_run(s: Seq<char>, i: nat) -> nat
    decreases s.len() - i,
{
    if i < s.len() && is_digit(s[i as int]) {
        1 + digit_run(s, i + 1)
    } else {
        0
    }
}

/// How many characters other than `"` stand at position `i`.
pub open spec fn non_quote_run(s: Seq<char>, i: nat) -> nat
    decreases s.len() - i,
{
    if i < s.len() && s[i as int] != '"' {
        1 + non_quote_run(s, i + 1)
    } else {
        0
    }
}

/// The value of the digit run of length `n` that starts at `i`,
/// read as a base-10 numeral.
pub open spec fn digits_val(s: Seq<char>, i: nat, n: nat) -> nat
    decreases n,
{
    if n == 0 {
        0
    } else {
        digits_val(s, i, (n - 1) as nat) * 10 + digit_val(s[(i + n - 1) as int])
    }
}

/// The `null` literal, matched character by character.  When the input
/// ends inside a proper prefix of the literal, more characters could
/// still complete it.
pub open spec fn scan_null(s: Seq<char>, i: nat) -> Parsed<()> {
    if i < s.len() && s[i as int] != 'n' {
        Parsed::Fail
    } else if i + 1 < s.len() && s[(i + 1) as int] != 'u' {
        Parsed::Fail
    } else if i + 2 < s.len() && s[(i + 2) as int] != 'l' {
        Parsed::Fail
    } else if i + 3 < s.len() && s[(i + 3) as int] != 'l' {
        Parsed::Fail
    } else if i + 4 > s.len() {
        Parsed::More
    } else {
        Parsed::Done { used: 4, val: () }
    }
}

/// A quoted string: `"`, at least one character other than `"`, `"`.
/// The result is the text between the quotes.
pub open spec fn scan_string(s: Seq<char>, i: nat) -> Parsed<Seq<char>> {
    if i >= s.len() {
        Parsed::More
    } else if s[i as int] != '"' {
        Parsed::Fail
    } else {
        let n = non_quote_run(s, i + 1);
        if i + 1 + n >= s.len() {
            // the closing quote never came
            Parsed::More
        } else if n == 0 {
            // `""`: the scanner wants at least one interior character
            Parsed::Fail
        } else {
            Parsed::Done { used: n + 2, val: s.subrange((i + 1) as int, (i + 1 + n) as int) }
        }
    }
}

/// A digit run of length `n` at `i` as an `Integer`, when its value
/// fits the signed 64-bit range.
pub open spec fn scan_int(s: Seq<char>, i: nat, n: nat) -> Parsed<ValueView> {
    if digits_val(s, i, n) <= i64::MAX as nat {
        Parsed::Done { used: n, val: ValueView::Integer(digits_val(s, i, n) as int) }
    } else {
        Parsed::Fail
    }
}

/// A number: the float shape `digits '.' digits` when it is there,
/// otherwise the plain digit run as an integer.
pub open spec fn scan_number(s: Seq<char>, i: nat) -> Parsed<ValueView> {
    let n = digit_run(s, i);
    if n == 0 {
        Parsed::Fail
    } else if i + n < s.len() && s[(i + n) as int] == '.' {
        let m = digit_run(s, i + n + 1);
        if m > 0 {
            Parsed::Done {
                used: n + 1 + m,
                val: ValueView::Float {
                    int_digits: s.subrange(i as int, (i + n) as int),
                    frac_digits: s.subrange((i + n + 1) as int, (i + n + 1 + m) as int),
                },
            }
        } else if i + n + 1 >= s.len() {
            // `12.` at the end: more input could supply the fraction
            Parsed::More
        } else {
            // `12.x`: no fraction follows, so only the digit run matches
            scan_int(s, i, n)
        }
    } else {
        scan_int(s, i, n)
    }
}

/// A value: optional whitespace, then one of the six alternatives,
/// picked by its first character.  The `null` branch also takes the
/// whitespace after the literal.
pub open spec fn scan_value(s: Seq<char>, i: nat) -> Parsed<ValueView>
    decreases s.len() - i, 2int,
{
    let w = ws_run(s, i);
    let j = i + w;
    if j >= s.len() {
        Parsed::More
    } else {
        let c = s[j as int];
        if c == 'n' {
            match scan_null(s, j) {
                Parsed::Done { used, val } => Parsed::Done {
                    used: w + used + ws_run(s, j + used),
                    val: ValueView::Null,
                },
                Parsed::Fail => Parsed::Fail,
                Parsed::More => Parsed::More,
            }
        } else if c == '"' {
            match scan_string(s, j) {
                Parsed::Done { used, val } => Parsed::Done {
                    used: w + used,
                    val: ValueView::Str(val),
                },
                Parsed::Fail => Parsed::Fail,
                Parsed::More => Parsed::More,
            }
        } else if is_digit(c) {
            match scan_number(s, j) {
                Parsed::Done { used, val } => Parsed::Done { used: w + used, val },
                Parsed::Fail => Parsed::Fail,
                Parsed::More => Parsed::More,
            }
        } else if c == '{' {
            match scan_object(s, j) {
                Parsed::Done { used, val } => Parsed::Done { used: w + used, val },
                Parsed::Fail => Parsed::Fail,
                Parsed::More => Parsed::More,
            }
        } else if c == '[' {
            match scan_array(s, j) {
                Parsed::Done { used, val } => Parsed::Done { used: w + used, val },
                Parsed::Fail => Parsed::Fail,
                Parsed::More => Parsed::More,
            }
        } else {
            Parsed::Fail
        }
    }
}

/// An object: `{`, a possibly empty pair list, optional whitespace,
/// `}`.  A later pair with an already seen key overwrites the earlier
/// value, as a map insert would.
pub open spec fn scan_object(s: Seq<char>, i: nat) -> Parsed<ValueView>
    decreases s.len() - i, 1int,
{
    if i >= s.len() {
        Parsed::More
    } else if s[i as int] != '{' {
        Parsed::Fail
    } else {
        match scan_members(s, i + 1) {
            Parsed::Done { used, val } => {
                let k = i + 1 + used;
                let k2 = k + ws_run(s, k);
                if k2 < s.len() && s[k2 as int] == '}' {
                    Parsed::Done {
                        used: (k2 + 1 - i) as nat,
                        val: ValueView::Object(dedup_pairs(val)),
                    }
                } else if k2 >= s.len() {
                    Parsed::More
                } else {
                    Parsed::Fail
                }
            },
            Parsed::Fail => Parsed::Fail,
            Parsed::More => Parsed::More,
        }
    }
}

/// A comma-separated pair list, possibly empty.  When no pair follows
/// a comma the comma is left unconsumed, so a trailing comma makes the
/// enclosing object fail at its closing brace.
pub open spec fn scan_members(s: Seq<char>, i: nat) -> Parsed<Seq<(Seq<char>, ValueView)>>
    decreases s.len() - i, 3int,
{
    match scan_member(s, i) {
        Parsed::Fail => Parsed::Done { used: 0, val: Seq::empty() },
        Parsed::More => Parsed::More,
        Parsed::Done { used, val } => {
            let k = i + used;
            if k < s.len() && s[k as int] == ',' {
                match scan_members(s, k + 1) {
                    Parsed::Done { used: used2, val: rest } => {
                        if rest.len() == 0 {
                            Parsed::Done { used, val: seq![val] }
                        } else {
                            Parsed::Done { used: used + 1 + used2, val: seq![val] + rest }
                        }
                    },
                    Parsed::Fail => Parsed::Fail,
                    Parsed::More => Parsed::More,
                }
            } else {
                Parsed::Done { used, val: seq![val] }
            }
        },
    }
}

/// One `key: value` pair, with optional whitespace at every boundary.
pub open spec fn scan_member(s: Seq<char>, i: nat) -> Parsed<(Seq<char>, ValueView)>
    decreases s.len() - i, 2int,
{
    let j = i + ws_run(s, i);
    match scan_string(s, j) {
        Parsed::Fail => Parsed::Fail,
        Parsed::More => Parsed::More,
        Parsed::Done { used, val: key } => {
            let p = j + used;
            let q = p + ws_run(s, p);
            if q >= s.len() {
                Parsed::More
            } else if s[q as int] != ':' {
                Parsed::Fail
            } else {
                match scan_value(s, q + 1) {
                    Parsed::Done { used: vu, val: v } => {
                        let r = q + 1 + vu;
                        let t = r + ws_run(s, r);
                        Parsed::Done { used: (t - i) as nat, val: (key, v) }
                    },
                    Parsed::Fail => Parsed::Fail,
                    Parsed::More => Parsed::More,
                }
            }
        },
    }
}

/// An array: `[`, a possibly empty element list, optional whitespace,
/// `]`.
pub open spec fn scan_array(s: Seq<char>, i: nat) -> Parsed<ValueView>
    decreases s.len() - i, 1int,
{
    if i >= s.len() {
        Parsed::More
    } else if s[i as int] != '[' {
        Parsed::Fail
    } else {
        match scan_elements(s, i + 1) {
            Parsed::Done { used, val } => {
                let k = i + 1 + used;
                let k2 = k + ws_run(s, k);
                if k2 < s.len() && s[k2 as int] == ']' {
                    Parsed::Done { used: (k2 + 1 - i) as nat, val: ValueView::Array(val) }
                } else if k2 >= s.len() {
                    Parsed::More
                } else {
                    Parsed::Fail
                }
            },
            Parsed::Fail => Parsed::Fail,
            Parsed::More => Parsed::More,
        }
    }
}

/// A comma-separated value list, possibly empty, each element followed
/// by optional whitespace.  As with pairs, a comma that no element
/// follows is left unconsumed.
pub open spec fn scan_elements(s: Seq<char>, i: nat) -> Parsed<Seq<ValueView>>
    decreases s.len() - i, 3int,
{
    match scan_value(s, i) {
        Parsed::Fail => Parsed::Done { used: 0, val: Seq::empty() },
        Parsed::More => Parsed::More,
        Parsed::Done { used, val } => {
            let k0 = i + used;
            let k = k0 + ws_run(s, k0);
            if k < s.len() && s[k as int] == ',' {
                match scan_elements(s, k + 1) {
                    Parsed::Done { used: used2, val: rest } => {
                        if rest.len() == 0 {
                            Parsed::Done { used, val: seq![val] }
                        } else {
                            Parsed::Done { used: ((k - i) + 1 + used2) as nat, val: seq![val] + rest }
                        }
                    },
                    Parsed::Fail => Parsed::Fail,
                    Parsed::More => Parsed::More,
                }
            } else {
                Parsed::Done { used, val: seq![val] }
            }
        },
    }
}

/// What parsing a whole document means: scan one value from the start.
pub open spec fn parse_spec(s: Seq<char>) -> Parsed<ValueView> {
    scan_value(s, 0)
}

} // verus!
