//! The order in which the operands of an intersection are arranged before
//! they are nested into a conjunction.
//!
//! It is the structural order of OWL class expressions: constructors by
//! their position in the class expression type, then their fields in turn,
//! IRIs by their characters, lists lexicographically (a proper prefix comes
//! first). The result of a comparison is -1, 0 or 1.
use vstd::prelude::*;
use vstd::relations::*;
use vstd::seq_lib::*;
use crate::owl::{ClassExpression, ExprView, ObjectPropertyExpression, PropertyView, expressions_view};

verus! {

pub open spec fn sign(x: int) -> int {
    if x < 0 {
        -1
    } else if x > 0 {
        1
    } else {
        0
    }
}

/// Lexicographic order of character sequences.
pub open spec fn chars_order(a: Seq<char>, b: Seq<char>) -> int
    decreases a.len(),
{
    if a.len() == 0 {
        if b.len() == 0 {
            0
        } else {
            -1
        }
    } else if b.len() == 0 {
        1
    } else if (a[0] as int) != (b[0] as int) {
        sign(a[0] as int - b[0] as int)
    } else {
        chars_order(a.drop_first(), b.drop_first())
    }
}

pub open spec fn property_rank(p: PropertyView) -> int {
    match p {
        PropertyView::Named(_) => 0,
        PropertyView::Inverse(_) => 1,
    }
}

pub open spec fn property_iri(p: PropertyView) -> Seq<char> {
    match p {
        PropertyView::Named(iri) => iri,
        PropertyView::Inverse(iri) => iri,
    }
}

pub open spec fn property_order(a: PropertyView, b: PropertyView) -> int {
    if property_rank(a) != property_rank(b) {
        sign(property_rank(a) - property_rank(b))
    } else {
        chars_order(property_iri(a), property_iri(b))
    }
}

/// Position of a constructor in OWL's class expression type.
pub open spec fn expression_rank(e: ExprView) -> int {
    match e {
        ExprView::Class(_) => 0,
        ExprView::Intersection(_) => 1,
        ExprView::Union(_) => 2,
        ExprView::Complement(_) => 3,
        ExprView::SomeValuesFrom(_, _) => 5,
        ExprView::Unsupported => 6,
    }
}

pub open spec fn expression_order(a: ExprView, b: ExprView) -> int
    decreases a, 1nat,
{
    match (a, b) {
        (ExprView::Class(x), ExprView::Class(y)) => chars_order(x, y),
        (ExprView::Intersection(xs), ExprView::Intersection(ys)) => expressions_order(xs, ys),
        (ExprView::Union(xs), ExprView::Union(ys)) => expressions_order(xs, ys),
        (ExprView::Complement(x), ExprView::Complement(y)) => expression_order(*x, *y),
        (ExprView::SomeValuesFrom(p, x), ExprView::SomeValuesFrom(q, y)) => if property_order(p, q)
            != 0 {
            property_order(p, q)
        } else {
            expression_order(*x, *y)
        },
        _ => sign(expression_rank(a) - expression_rank(b)),
    }
}

/// Lexicographic order of lists of class expressions.
pub open spec fn expressions_order(a: Seq<ExprView>, b: Seq<ExprView>) -> int
    decreases a, 0nat,
{
    if a.len() == 0 {
        if b.len() == 0 {
            0
        } else {
            -1
        }
    } else if b.len() == 0 {
        1
    } else if expression_order(a[0], b[0]) != 0 {
        expression_order(a[0], b[0])
    } else {
        expressions_order(a.drop_first(), b.drop_first())
    }
}

/// `a` comes no earlier than `b`: the relation by which intersection
/// operands are sorted, greatest first.
pub open spec fn descending() -> spec_fn(ExprView, ExprView) -> bool {
    |a: ExprView, b: ExprView| expression_order(a, b) >= 0
}

// ---------------------------------------------------------------------------
// The order on characters sequences is a total order.

proof fn lemma_chars_antisym(a: Seq<char>, b: Seq<char>)
    ensures
        chars_order(a, b) == -chars_order(b, a),
        chars_order(a, b) == 0 ==> a == b,
        -1 <= chars_order(a, b) <= 1,
    decreases a.len(),
{
    if a.len() > 0 && b.len() > 0 && (a[0] as int) == (b[0] as int) {
        lemma_chars_antisym(a.drop_first(), b.drop_first());
        if chars_order(a, b) == 0 {
            assert(a =~= seq![a[0]] + a.drop_first());
            assert(b =~= seq![b[0]] + b.drop_first());
        }
    }
}

proof fn lemma_chars_trans(a: Seq<char>, b: Seq<char>, c: Seq<char>)
    requires
        chars_order(a, b) <= 0,
        chars_order(b, c) <= 0,
    ensures
        chars_order(a, c) <= 0,
    decreases a.len(),
{
    if a.len() > 0 && b.len() > 0 && c.len() > 0 {
        if (a[0] as int) == (b[0] as int) && (b[0] as int) == (c[0] as int) {
            lemma_chars_trans(a.drop_first(), b.drop_first(), c.drop_first());
        }
    }
}

proof fn lemma_property_antisym(a: PropertyView, b: PropertyView)
    ensures
        property_order(a, b) == -property_order(b, a),
        property_order(a, b) == 0 ==> a == b,
        -1 <= property_order(a, b) <= 1,
{
    lemma_chars_antisym(property_iri(a), property_iri(b));
}

proof fn lemma_property_trans(a: PropertyView, b: PropertyView, c: PropertyView)
    requires
        property_order(a, b) <= 0,
        property_order(b, c) <= 0,
    ensures
        property_order(a, c) <= 0,
{
    lemma_property_antisym(a, b);
    lemma_property_antisym(b, c);
    lemma_property_antisym(a, c);
    if property_rank(a) == property_rank(b) && property_rank(b) == property_rank(c) {
        lemma_chars_trans(property_iri(a), property_iri(b), property_iri(c));
    }
}

// ---------------------------------------------------------------------------
// The order on class expressions is a total order.

proof fn lemma_expression_antisym(a: ExprView, b: ExprView)
    ensures
        expression_order(a, b) == -expression_order(b, a),
        expression_order(a, b) == 0 ==> a == b,
        -1 <= expression_order(a, b) <= 1,
    decreases a, 1nat,
{
    match (a, b) {
        (ExprView::Class(x), ExprView::Class(y)) => {
            lemma_chars_antisym(x, y);
        },
        (ExprView::Intersection(xs), ExprView::Intersection(ys)) => {
            lemma_expressions_antisym(xs, ys);
        },
        (ExprView::Union(xs), ExprView::Union(ys)) => {
            lemma_expressions_antisym(xs, ys);
        },
        (ExprView::Complement(x), ExprView::Complement(y)) => {
            lemma_expression_antisym(*x, *y);
        },
        (ExprView::SomeValuesFrom(p, x), ExprView::SomeValuesFrom(q, y)) => {
            lemma_property_antisym(p, q);
            lemma_expression_antisym(*x, *y);
        },
        _ => {},
    }
}

proof fn lemma_expressions_antisym(a: Seq<ExprView>, b: Seq<ExprView>)
    ensures
        expressions_order(a, b) == -expressions_order(b, a),
        expressions_order(a, b) == 0 ==> a == b,
        -1 <= expressions_order(a, b) <= 1,
    decreases a, 0nat,
{
    if a.len() > 0 && b.len() > 0 {
        lemma_expression_antisym(a[0], b[0]);
        if expression_order(a[0], b[0]) == 0 {
            lemma_expressions_antisym(a.drop_first(), b.drop_first());
            if expressions_order(a, b) == 0 {
                assert(a =~= seq![a[0]] + a.drop_first());
                assert(b =~= seq![b[0]] + b.drop_first());
            }
        }
    }
}

proof fn lemma_expression_trans(a: ExprView, b: ExprView, c: ExprView)
    requires
        expression_order(a, b) <= 0,
        expression_order(b, c) <= 0,
    ensures
        expression_order(a, c) <= 0,
    decreases a, 1nat,
{
    lemma_expression_antisym(a, b);
    lemma_expression_antisym(b, c);
    lemma_expression_antisym(a, c);
    match (a, b, c) {
        (ExprView::Class(x), ExprView::Class(y), ExprView::Class(z)) => {
            lemma_chars_trans(x, y, z);
        },
        (ExprView::Intersection(xs), ExprView::Intersection(ys), ExprView::Intersection(zs)) => {
            lemma_expressions_trans(xs, ys, zs);
        },
        (ExprView::Union(xs), ExprView::Union(ys), ExprView::Union(zs)) => {
            lemma_expressions_trans(xs, ys, zs);
        },
        (ExprView::Complement(x), ExprView::Complement(y), ExprView::Complement(z)) => {
            lemma_expression_trans(*x, *y, *z);
        },
        (
            ExprView::SomeValuesFrom(p, x),
            ExprView::SomeValuesFrom(q, y),
            ExprView::SomeValuesFrom(r, z),
        ) => {
            lemma_property_antisym(p, q);
            lemma_property_antisym(q, r);
            lemma_property_antisym(p, r);
            lemma_property_trans(p, q, r);
            if property_order(p, q) == 0 && property_order(q, r) == 0 {
                lemma_expression_trans(*x, *y, *z);
            }
        },
        _ => {},
    }
}

proof fn lemma_expressions_trans(a: Seq<ExprView>, b: Seq<ExprView>, c: Seq<ExprView>)
    requires
        expressions_order(a, b) <= 0,
        expressions_order(b, c) <= 0,
    ensures
        expressions_order(a, c) <= 0,
    decreases a, 0nat,
{
    if a.len() > 0 && b.len() > 0 && c.len() > 0 {
        lemma_expression_antisym(a[0], b[0]);
        lemma_expression_antisym(b[0], c[0]);
        lemma_expression_antisym(a[0], c[0]);
        lemma_expression_trans(a[0], b[0], c[0]);
        if expression_order(a[0], b[0]) == 0 && expression_order(b[0], c[0]) == 0 {
            lemma_expressions_trans(a.drop_first(), b.drop_first(), c.drop_first());
        }
    }
}

/// The order of class expressions is antisymmetric, with values -1, 0, 1,
/// and only equal expressions compare equal.
pub proof fn lemma_expression_antisym_pub(a: ExprView, b: ExprView)
    ensures
        expression_order(a, b) == -expression_order(b, a),
        expression_order(a, b) == 0 ==> a == b,
        -1 <= expression_order(a, b) <= 1,
{
    lemma_expression_antisym(a, b);
}

/// Sorting greatest first is sorting by a total order.
pub proof fn lemma_descending_total()
    ensures
        total_ordering(descending()),
{
    let d = descending();
    assert forall|x: ExprView| #[trigger] d(x, x) by {
        lemma_expression_antisym(x, x);
    }
    assert forall|x: ExprView, y: ExprView| #[trigger] d(x, y) && #[trigger] d(y, x) implies x
        == y by {
        lemma_expression_antisym(x, y);
    }
    assert forall|x: ExprView, y: ExprView, z: ExprView| #[trigger] d(x, y) && #[trigger] d(
        y,
        z,
    ) implies d(x, z) by {
        lemma_expression_antisym(x, y);
        lemma_expression_antisym(y, z);
        lemma_expression_antisym(x, z);
        lemma_expression_trans(z, y, x);
    }
    assert forall|x: ExprView, y: ExprView| #[trigger] d(x, y) || #[trigger] d(y, x) by {
        lemma_expression_antisym(x, y);
    }
}

// ---------------------------------------------------------------------------
// Comparing and sorting.

/// Compares two IRIs character by character.
pub fn compare_iris(a: &String, b: &String) -> (r: i8)
    ensures
        r as int == chars_order(a@, b@),
{
    let sa = a.as_str();
    let sb = b.as_str();
    let la = sa.unicode_len();
    let lb = sb.unicode_len();
    let mut i: usize = 0;
    assert(a@.skip(0) =~= a@);
    assert(b@.skip(0) =~= b@);
    while i < la && i < lb
        invariant
            i <= la,
            i <= lb,
            la == a@.len(),
            lb == b@.len(),
            sa@ == a@,
            sb@ == b@,
            chars_order(a@, b@) == chars_order(a@.skip(i as int), b@.skip(i as int)),
        decreases la - i,
    {
        let ca = sa.get_char(i);
        let cb = sb.get_char(i);
        assert(a@.skip(i as int)[0] == ca);
        assert(b@.skip(i as int)[0] == cb);
        assert(a@.skip(i as int).len() > 0 && b@.skip(i as int).len() > 0);
        if ca != cb {
            assert(chars_order(a@.skip(i as int), b@.skip(i as int)) == sign(ca as int - cb as int));
        }
        if ca < cb {
            return -1;
        } else if ca > cb {
            return 1;
        }
        assert(a@.skip(i as int).drop_first() =~= a@.skip(i + 1));
        assert(b@.skip(i as int).drop_first() =~= b@.skip(i + 1));
        i = i + 1;
    }
    if la < lb {
        -1
    } else if la > lb {
        1
    } else {
        0
    }
}

pub fn compare_properties(a: &ObjectPropertyExpression, b: &ObjectPropertyExpression) -> (r: i8)
    ensures
        r as int == property_order(a@, b@),
{
    match (a, b) {
        (ObjectPropertyExpression::ObjectProperty(x), ObjectPropertyExpression::ObjectProperty(y)) => compare_iris(x, y),
        (ObjectPropertyExpression::InverseObjectProperty(x), ObjectPropertyExpression::InverseObjectProperty(y)) => compare_iris(x, y),
        (ObjectPropertyExpression::ObjectProperty(_), _) => -1,
        _ => 1,
    }
}

fn expression_rank_of(e: &ClassExpression) -> (r: i8)
    ensures
        r as int == expression_rank(e@),
{
    match e {
        ClassExpression::Class(_) => 0,
        ClassExpression::ObjectIntersectionOf(_) => 1,
        ClassExpression::ObjectUnionOf(_) => 2,
        ClassExpression::ObjectComplementOf(_) => 3,
        ClassExpression::ObjectSomeValuesFrom { .. } => 5,
        ClassExpression::Unsupported => 6,
    }
}

/// Compares two class expressions in the structural order.
pub fn compare_expressions(a: &ClassExpression, b: &ClassExpression) -> (r: i8)
    ensures
        r as int == expression_order(a@, b@),
    decreases a, 1nat,
{
    match (a, b) {
        (ClassExpression::Class(x), ClassExpression::Class(y)) => compare_iris(x, y),
        (ClassExpression::ObjectIntersectionOf(xs), ClassExpression::ObjectIntersectionOf(ys)) => compare_expression_lists(xs, ys),
        (ClassExpression::ObjectUnionOf(xs), ClassExpression::ObjectUnionOf(ys)) => compare_expression_lists(xs, ys),
        (ClassExpression::ObjectComplementOf(x), ClassExpression::ObjectComplementOf(y)) => compare_expressions(x, y),
        (
            ClassExpression::ObjectSomeValuesFrom { ope: p, bce: x },
            ClassExpression::ObjectSomeValuesFrom { ope: q, bce: y },
        ) => {
            let c = compare_properties(p, q);
            if c != 0 {
                c
            } else {
                compare_expressions(x, y)
            }
        },
        _ => {
            let ra = expression_rank_of(a);
            let rb = expression_rank_of(b);
            if ra < rb {
                -1
            } else if ra > rb {
                1
            } else {
                0
            }
        },
    }
}

/// Compares two lists of class expressions lexicographically.
pub fn compare_expression_lists(xs: &Vec<ClassExpression>, ys: &Vec<ClassExpression>) -> (r: i8)
    ensures
        r as int == expressions_order(expressions_view(xs@), expressions_view(ys@)),
    decreases xs, 0nat,
{
    let ghost xv = expressions_view(xs@);
    let ghost yv = expressions_view(ys@);
    let mut i: usize = 0;
    assert(xv.skip(0) =~= xv);
    assert(yv.skip(0) =~= yv);
    while i < xs.len() && i < ys.len()
        invariant
            i <= xs.len(),
            i <= ys.len(),
            xv == expressions_view(xs@),
            yv == expressions_view(ys@),
            expressions_order(xv, yv) == expressions_order(xv.skip(i as int), yv.skip(i as int)),
        decreases xs.len() - i,
    {
        let c = compare_expressions(&xs[i], &ys[i]);
        assert(xv.skip(i as int)[0] == xs@[i as int]@);
        assert(yv.skip(i as int)[0] == ys@[i as int]@);
        if c != 0 {
            return c;
        }
        assert(xv.skip(i as int).drop_first() =~= xv.skip(i + 1));
        assert(yv.skip(i as int).drop_first() =~= yv.skip(i + 1));
        i = i + 1;
    }
    if i < ys.len() {
        -1
    } else if i < xs.len() {
        1
    } else {
        0
    }
}

pub open spec fn references_view(s: Seq<&ClassExpression>) -> Seq<ExprView> {
    s.map_values(|e: &ClassExpression| e@)
}

/// Arranges class expressions greatest first (insertion sort).
pub fn sort_descending<'a>(items: &Vec<&'a ClassExpression>) -> (sorted: Vec<&'a ClassExpression>)
    ensures
        references_view(sorted@) == references_view(items@).sort_by(descending()),
        forall|k: int| 0 <= k < sorted.len() ==> items@.contains(#[trigger] sorted@[k]),
{
    broadcast use {to_multiset_build, to_multiset_insert};

    let ghost d = descending();
    proof {
        lemma_descending_total();
    }
    let mut sorted: Vec<&'a ClassExpression> = Vec::new();
    let mut i: usize = 0;
    assert(references_view(items@.take(0)) =~= references_view(sorted@));
    while i < items.len()
        invariant
            i <= items.len(),
            d == descending(),
            total_ordering(d),
            sorted_by(references_view(sorted@), d),
            references_view(sorted@).to_multiset() == references_view(items@.take(i as int)).to_multiset(),
            forall|k: int|
                0 <= k < sorted.len() ==> items@.take(i as int).contains(#[trigger] sorted@[k]),
        decreases items.len() - i,
    {
        let x = items[i];
        let mut p: usize = 0;
        loop
            invariant
                p <= sorted.len(),
                forall|q: int| 0 <= q < p ==> expression_order(#[trigger] sorted@[q]@, x@) >= 0,
            ensures
                p <= sorted.len(),
                forall|q: int| 0 <= q < p ==> expression_order(#[trigger] sorted@[q]@, x@) >= 0,
                p < sorted.len() ==> expression_order(sorted@[p as int]@, x@) < 0,
            decreases sorted.len() - p,
        {
            if p >= sorted.len() {
                break;
            }
            let c = compare_expressions(sorted[p], x);
            if c < 0 {
                break;
            }
            p = p + 1;
        }
        let ghost old_sorted = sorted@;
        let ghost old_view = references_view(sorted@);
        sorted.insert(p, x);
        proof {
            let v = references_view(sorted@);
            assert(v =~= old_view.insert(p as int, x@));
            assert forall|a: int, b: int| 0 <= a < b < v.len() implies #[trigger] d(v[a], v[b]) by {
                if b < p {
                    assert(d(old_view[a], old_view[b]));
                } else if a < p && b == p {
                    assert(expression_order(old_sorted[a]@, x@) >= 0);
                } else if a < p {
                    assert(d(old_view[a], old_view[b - 1]));
                } else if a == p {
                    assert(expression_order(old_view[p as int], x@) < 0);
                    lemma_expression_antisym(old_view[p as int], x@);
                    assert(d(x@, old_view[p as int]));
                    if b - 1 > p {
                        assert(d(old_view[p as int], old_view[b - 1]));
                    }
                } else {
                    assert(d(old_view[a - 1], old_view[b - 1]));
                }
            }
            assert(items@.take(i + 1) =~= items@.take(i as int).push(x));
            assert(references_view(items@.take(i + 1)) =~= references_view(items@.take(i as int)).push(x@));
            to_multiset_insert(old_view, p as int, x@);
            to_multiset_build(references_view(items@.take(i as int)), x@);
            assert forall|k: int| 0 <= k < sorted.len() implies items@.take(i + 1).contains(
                #[trigger] sorted@[k],
            ) by {
                if k < p {
                    assert(sorted@[k] == old_sorted[k]);
                    assert(items@.take(i as int).contains(old_sorted[k]));
                    let j = choose|j: int| 0 <= j < i && items@.take(i as int)[j] == old_sorted[k];
                    assert(items@.take(i + 1)[j] == sorted@[k]);
                } else if k == p {
                    assert(items@.take(i + 1)[i as int] == sorted@[k]);
                } else {
                    assert(sorted@[k] == old_sorted[k - 1]);
                    assert(items@.take(i as int).contains(old_sorted[k - 1]));
                    let j = choose|j: int| 0 <= j < i && items@.take(i as int)[j] == old_sorted[k - 1];
                    assert(items@.take(i + 1)[j] == sorted@[k]);
                }
            }
        }
        i = i + 1;
    }
    proof {
        assert(items@.take(items.len() as int) =~= items@);
        let target = references_view(items@).sort_by(d);
        references_view(items@).lemma_sort_by_ensures(d);
        lemma_sorted_unique(references_view(sorted@), target, d);
    }
    sorted
}

} // verus!
