//! The value tree that a parse produces, and its mathematical view.

use vstd::prelude::*;

verus! {

/// One node of a parsed document.
///
/// `Float` keeps the two digit runs of the literal exactly as they stood
/// in the input (`12.045` is kept as `"12"` and `"045"`), so the tree
/// records the literal without rounding; callers that want a machine
/// float can join the runs with a decimal point themselves.  `Object`
/// holds its pairs in first-appearance order with distinct keys; when a
/// document repeats a key, the later value wins.
#[derive(Debug, PartialEq)]
pub enum Value {
    Null,
    Integer(i64),
    Float { int_digits: String, frac_digits: String },
    String(String),
    Object(Vec<(String, Value)>),
    Array(Vec<Value>),
}

/// The mathematical shape of a [`Value`]: the same tree over `Seq<char>`
/// and `int`, which the contracts and the grammar speak about.
pub enum ValueView {
    Null,
    Integer(int),
    Float { int_digits: Seq<char>, frac_digits: Seq<char> },
    Str(Seq<char>),
    Object(Seq<(Seq<char>, ValueView)>),
    Array(Seq<ValueView>),
}

/// The views of a sequence of array elements.
pub open spec fn view_of_elems(vs: Seq<Value>) -> Seq<ValueView>
    decreases vs, 0int,
{
    if vs.len() == 0 {
        Seq::empty()
    } else {
        view_of_elems(vs.drop_last()).push(view_of(vs.last()))
    }
}

/// The views of a sequence of object pairs.
pub open spec fn view_of_pairs(ps: Seq<(String, Value)>) -> Seq<(Seq<char>, ValueView)>
    decreases ps, 0int,
{
    if ps.len() == 0 {
        Seq::empty()
    } else {
        view_of_pairs(ps.drop_last()).push((ps.last().0@, view_of(ps.last().1)))
    }
}

/// The view of one node.
pub open spec fn view_of(v: Value) -> ValueView
    decreases v, 1int,
{
    match v {
        Value::Null => ValueView::Null,
        Value::Integer(n) => ValueView::Integer(n as int),
        Value::Float { int_digits, frac_digits } => ValueView::Float {
            int_digits: int_digits@,
            frac_digits: frac_digits@,
        },
        Value::String(s) => ValueView::Str(s@),
        Value::Object(ps) => ValueView::Object(view_of_pairs(ps@)),
        Value::Array(vs) => ValueView::Array(view_of_elems(vs@)),
    }
}

impl View for Value {
    type V = ValueView;

    open spec fn view(&self) -> ValueView {
        view_of(*self)
    }
}

/// The views of elements are taken one by one.
pub proof fn lemma_view_of_elems(vs: Seq<Value>)
    ensures
        view_of_elems(vs).len() == vs.len(),
        forall|k: int| 0 <= k < vs.len() ==> view_of_elems(vs)[k] == view_of(vs[k]),
    decreases vs.len(),
{
    if vs.len() > 0 {
        lemma_view_of_elems(vs.drop_last());
    }
}

/// The views of pairs are taken one by one.
pub proof fn lemma_view_of_pairs(ps: Seq<(String, Value)>)
    ensures
        view_of_pairs(ps).len() == ps.len(),
        forall|k: int| 0 <= k < ps.len() ==> view_of_pairs(ps)[k] == (ps[k].0@, view_of(
            ps[k].1,
        )),
    decreases ps.len(),
{
    if ps.len() > 0 {
        lemma_view_of_pairs(ps.drop_last());
    }
}

/// `ps` with the pair for `k` set to `v`: the first pair whose key is
/// `k` is replaced in place, and a fresh key goes to the end.  This is
/// what one map insert does to a pair list kept in first-appearance
/// order.
pub open spec fn upsert_pair(
    ps: Seq<(Seq<char>, ValueView)>,
    k: Seq<char>,
    v: ValueView,
) -> Seq<(Seq<char>, ValueView)>
    decreases ps.len(),
{
    if ps.len() == 0 {
        seq![(k, v)]
    } else if ps[0].0 == k {
        seq![(k, v)] + ps.drop_first()
    } else {
        seq![ps[0]] + upsert_pair(ps.drop_first(), k, v)
    }
}

/// The pair list folded through map inserts, left to right: keys come
/// out distinct, and of two pairs with one key the later value wins.
pub open spec fn dedup_pairs(ps: Seq<(Seq<char>, ValueView)>) -> Seq<(Seq<char>, ValueView)>
    decreases ps.len(),
{
    if ps.len() == 0 {
        Seq::empty()
    } else {
        upsert_pair(dedup_pairs(ps.drop_last()), ps.last().0, ps.last().1)
    }
}

} // verus!
