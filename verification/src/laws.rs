//! Properties of the translation as a whole.
use vstd::prelude::*;
use vstd::seq_lib::*;
use crate::model::{AxiomView, ConceptView, bottom_id, top_id};
use crate::order::{descending, lemma_descending_total};
use crate::owl::{ComponentView, ExprView, IndividualView, PropertyView, SubPropertyView};
use crate::translate::{
    arranged_concepts, concept_of, concepts_of, conjunction_of, equivalence_axioms,
    equivalent_property_axioms, inclusion, nothing, ontology_translation, property_axioms,
    translation, unwrap_all,
};

verus! {

/// The operands of an intersection may come in any order: two intersections
/// of the same operands stand for the same concept.
pub proof fn law_intersection_operand_order(a: Seq<ExprView>, b: Seq<ExprView>)
    requires
        a.to_multiset() == b.to_multiset(),
    ensures
        concept_of(ExprView::Intersection(a)) == concept_of(ExprView::Intersection(b)),
{
    let d = descending();
    lemma_descending_total();
    a.lemma_sort_by_ensures(d);
    b.lemma_sort_by_ensures(d);
    lemma_sorted_unique(a.sort_by(d), b.sort_by(d), d);
    assert(arranged_concepts(a) =~= arranged_concepts(b));
}

/// An intersection of a single operand stands for what the operand stands
/// for.
pub proof fn law_intersection_of_one(x: ExprView)
    ensures
        concept_of(ExprView::Intersection(seq![x])) == concept_of(x),
{
    let d = descending();
    lemma_descending_total();
    let s = seq![x];
    s.lemma_sort_by_ensures(d);
    lemma_sorted_unique(s.sort_by(d), s, d);
    let arranged = arranged_concepts(s);
    assert(arranged[0] == concept_of(x));
    if concept_of(x) is Some {
        assert(unwrap_all(arranged) =~= seq![concept_of(x).unwrap()]);
    }
}

/// Equivalent classes include one another both ways, but for the bottom
/// concept, which is never included in another.
pub proof fn law_equivalence_symmetric(es: Seq<ExprView>, a: ConceptView, b: ConceptView)
    requires
        translation(ComponentView::EquivalentClasses(es)).contains(inclusion(a, b)),
        b != nothing(),
    ensures
        translation(ComponentView::EquivalentClasses(es)).contains(inclusion(b, a)),
{
    let cs = concepts_of(es);
    let (i, j) = choose|i: int, j: int|
        0 <= i < cs.len() && 0 <= j < cs.len() && i != j && cs[i] != nothing() && inclusion(a, b)
            == inclusion(#[trigger] cs[i], #[trigger] cs[j]);
    assert(equivalence_axioms(cs).contains(inclusion(cs[j], cs[i])));
}

/// The bottom concept is never included in another by an equivalence.
pub proof fn law_equivalence_never_from_bottom(es: Seq<ExprView>, c: ConceptView)
    ensures
        !translation(ComponentView::EquivalentClasses(es)).contains(inclusion(nothing(), c)),
{
}

/// Two equivalent classes that stand for concepts other than the bottom
/// concept are translated as two subclass axioms, one each way.
pub proof fn law_two_equivalent_classes(x: ExprView, y: ExprView)
    requires
        concept_of(x) is Some,
        concept_of(y) is Some,
        concept_of(x).unwrap() != nothing(),
        concept_of(y).unwrap() != nothing(),
    ensures
        translation(ComponentView::EquivalentClasses(seq![x, y])) == translation(
            ComponentView::SubClassOf(x, y),
        ).union(translation(ComponentView::SubClassOf(y, x))),
{
    let cs = concepts_of(seq![x, y]);
    assert(seq![x, y].drop_last() =~= seq![x]);
    assert(seq![x].drop_last() =~= Seq::<ExprView>::empty());
    assert(concepts_of(Seq::<ExprView>::empty()) =~= Seq::<ConceptView>::empty());
    assert(concepts_of(seq![x]) =~= seq![concept_of(x).unwrap()]);
    assert(cs =~= seq![concept_of(x).unwrap(), concept_of(y).unwrap()]);
    let lhs = translation(ComponentView::EquivalentClasses(seq![x, y]));
    let rhs = translation(ComponentView::SubClassOf(x, y)).union(
        translation(ComponentView::SubClassOf(y, x)),
    );
    assert forall|ax: AxiomView| lhs.contains(ax) <==> rhs.contains(ax) by {
        if rhs.contains(ax) {
            if ax == inclusion(cs[0], cs[1]) {
                assert(equivalence_axioms(cs).contains(inclusion(cs[0], cs[1])));
            } else {
                assert(equivalence_axioms(cs).contains(inclusion(cs[1], cs[0])));
            }
        }
    }
    assert(lhs =~= rhs);
}

/// A disjoint union is translated as the disjointness of its operands: the
/// equivalence of the class with the union of the operands stands for no
/// axiom, since a union stands for no concept.
pub proof fn law_disjoint_union(iri: Seq<char>, es: Seq<ExprView>)
    ensures
        translation(ComponentView::DisjointUnion(iri, es)) == translation(
            ComponentView::DisjointClasses(es),
        ),
{
    let pair = seq![ExprView::Class(iri), ExprView::Union(es)];
    assert(pair.drop_last() =~= seq![ExprView::Class(iri)]);
    assert(seq![ExprView::Class(iri)].drop_last() =~= Seq::<ExprView>::empty());
    let cs = concepts_of(pair);
    assert(concepts_of(Seq::<ExprView>::empty()) =~= Seq::<ConceptView>::empty());
    assert(concepts_of(seq![ExprView::Class(iri)]) =~= seq![ConceptView::Atomic(iri)]);
    assert(concept_of(ExprView::Union(es)) is None);
    assert(cs =~= seq![ConceptView::Atomic(iri)]);
    assert(equivalence_axioms(cs) =~= Set::<AxiomView>::empty());
    assert(translation(ComponentView::DisjointUnion(iri, es)) =~= translation(
        ComponentView::DisjointClasses(es),
    ));
}

/// An assertion over the inverse of a property is the assertion over the
/// property with subject and target exchanged.
pub proof fn law_inverse_assertion(p: Seq<char>, s: Seq<char>, t: Seq<char>)
    ensures
        translation(
            ComponentView::ObjectPropertyAssertion(
                PropertyView::Inverse(p),
                IndividualView::Named(s),
                IndividualView::Named(t),
            ),
        ) == translation(
            ComponentView::ObjectPropertyAssertion(
                PropertyView::Named(p),
                IndividualView::Named(t),
                IndividualView::Named(s),
            ),
        ),
{
}

/// A transitive property is translated as the chain of the property with
/// itself, included in the property.
pub proof fn law_transitive_is_chain(p: PropertyView)
    ensures
        translation(ComponentView::TransitiveObjectProperty(p)) == translation(
            ComponentView::SubObjectPropertyOf(SubPropertyView::Chain(seq![p, p]), p),
        ),
{
    let chain = seq![p, p];
    if let PropertyView::Named(iri) = p {
        assert(crate::translate::all_named(chain));
        assert(crate::translate::property_iris(chain) =~= seq![iri, iri]);
    }
}

/// The domain of a property is translated as the inclusion of the
/// existential restriction of the property to `owl:Thing` in the domain.
pub proof fn law_domain_is_subclass(p: Seq<char>, ce: ExprView)
    ensures
        translation(ComponentView::ObjectPropertyDomain(PropertyView::Named(p), ce)) == translation(
            ComponentView::SubClassOf(
                ExprView::SomeValuesFrom(PropertyView::Named(p), Box::new(ExprView::Class(top_id()))),
                ce,
            ),
        ),
{
    let sub = ExprView::SomeValuesFrom(PropertyView::Named(p), Box::new(ExprView::Class(top_id())));
    assert(concept_of(ExprView::Class(top_id())) == Some(crate::translate::thing()));
    assert(concept_of(sub) == Some(crate::translate::existential(p, crate::translate::thing())));
}

/// Equivalent properties include one another both ways.
pub proof fn law_equivalent_properties_symmetric(ps: Seq<PropertyView>, a: Seq<char>, b: Seq<char>)
    requires
        translation(ComponentView::EquivalentObjectProperties(ps)).contains(
            AxiomView::RoleInclusion(a, b),
        ),
    ensures
        translation(ComponentView::EquivalentObjectProperties(ps)).contains(
            AxiomView::RoleInclusion(b, a),
        ),
{
    let (i, j) = choose|i: int, j: int|
        0 <= i < ps.len() && 0 <= j < ps.len() && i != j && crate::translate::is_named(
            #[trigger] ps[i],
        ) && crate::translate::is_named(#[trigger] ps[j]) && AxiomView::RoleInclusion(a, b)
            == AxiomView::RoleInclusion(
            crate::order::property_iri(ps[i]),
            crate::order::property_iri(ps[j]),
        );
    assert(equivalent_property_axioms(ps).contains(
        AxiomView::RoleInclusion(crate::order::property_iri(ps[j]), crate::order::property_iri(ps[i])),
    ));
}

/// The translation of an ontology is the union of the translations of its
/// parts.
pub proof fn law_ontology_union(a: Seq<ComponentView>, b: Seq<ComponentView>)
    ensures
        ontology_translation(a + b) == ontology_translation(a).union(ontology_translation(b)),
{
    let ab = a + b;
    assert forall|ax: AxiomView| #[trigger] ontology_translation(ab).contains(ax) <==> ontology_translation(
        a,
    ).union(ontology_translation(b)).contains(ax) by {
        if ontology_translation(ab).contains(ax) {
            let k = choose|k: int| 0 <= k < ab.len() && #[trigger] translation(ab[k]).contains(ax);
            if k < a.len() {
                assert(ab[k] == a[k]);
            } else {
                assert(ab[k] == b[k - a.len()]);
            }
        }
        if ontology_translation(a).contains(ax) {
            let k = choose|k: int| 0 <= k < a.len() && #[trigger] translation(a[k]).contains(ax);
            assert(ab[k] == a[k]);
        }
        if ontology_translation(b).contains(ax) {
            let k = choose|k: int| 0 <= k < b.len() && #[trigger] translation(b[k]).contains(ax);
            assert(ab[a.len() + k] == b[k]);
        }
    }
    assert(ontology_translation(ab) =~= ontology_translation(a).union(ontology_translation(b)));
}

/// An intersection stands for a concept exactly when it has operands and
/// every operand stands for one.
pub proof fn law_intersection_defined(es: Seq<ExprView>)
    ensures
        concept_of(ExprView::Intersection(es)) is Some <==> (es.len() > 0 && forall|i: int|
            0 <= i < es.len() ==> (#[trigger] concept_of(es[i])) is Some),
{
    let d = descending();
    lemma_descending_total();
    es.lemma_sort_by_ensures(d);
    let sorted = es.sort_by(d);
    let arranged = arranged_concepts(es);
    broadcast use {group_to_multiset_ensures, vstd::multiset::group_multiset_axioms};

    assert(sorted.len() == es.len()) by {
        assert(sorted.to_multiset().len() == es.to_multiset().len());
    }
    let all_operands = forall|i: int| 0 <= i < es.len() ==> (#[trigger] concept_of(es[i])) is Some;
    let all_arranged = forall|i: int| 0 <= i < arranged.len() ==> (#[trigger] arranged[i]) is Some;
    if all_operands {
        assert forall|i: int| 0 <= i < arranged.len() implies (#[trigger] arranged[i]) is Some by {
            assert(sorted.to_multiset().count(sorted[i]) > 0);
            assert(es.contains(sorted[i]));
            let j = choose|j: int| 0 <= j < es.len() && es[j] == sorted[i];
            assert(concept_of(es[j]) is Some);
        }
    }
    if all_arranged {
        assert forall|i: int| 0 <= i < es.len() implies (#[trigger] concept_of(es[i])) is Some by {
            assert(es.to_multiset().count(es[i]) > 0);
            assert(sorted.contains(es[i]));
            let j = choose|j: int| 0 <= j < sorted.len() && sorted[j] == es[i];
            assert(arranged[j] is Some);
        }
    }
    if es.len() > 0 && all_arranged {
        assert(unwrap_all(arranged).len() > 0);
    }
    if es.len() == 0 {
        assert(unwrap_all(arranged).len() == 0);
    }
}

// ---------------------------------------------------------------------------
// Where the concept of each operand stands among the concepts of a list.

/// The concepts of a prefix of a list are a prefix of the concepts of the
/// list.
proof fn lemma_concepts_prefix(es: Seq<ExprView>, n: int)
    requires
        0 <= n <= es.len(),
    ensures
        concepts_of(es.take(n)).len() <= concepts_of(es).len(),
        concepts_of(es).take(concepts_of(es.take(n)).len() as int) == concepts_of(es.take(n)),
    decreases es.len(),
{
    if n == es.len() {
        assert(es.take(n) =~= es);
        assert(concepts_of(es).take(concepts_of(es).len() as int) =~= concepts_of(es));
    } else {
        let rest = es.drop_last();
        lemma_concepts_prefix(rest, n);
        assert(rest.take(n) =~= es.take(n));
        let cr = concepts_of(rest);
        let k = concepts_of(es.take(n)).len() as int;
        match concept_of(es.last()) {
            Some(c) => {
                assert(concepts_of(es) == cr.push(c));
                assert(cr.push(c).take(k) =~= cr.take(k));
            },
            None => {},
        }
    }
}

/// The concept of the operand at position `i`, where it has one, stands in
/// the concepts of the list at the position that counts the operands before
/// it that have one.
proof fn lemma_concept_position(es: Seq<ExprView>, i: int)
    requires
        0 <= i < es.len(),
        concept_of(es[i]) is Some,
    ensures
        concepts_of(es.take(i)).len() < concepts_of(es).len(),
        concepts_of(es)[concepts_of(es.take(i)).len() as int] == concept_of(es[i]).unwrap(),
        concepts_of(es.take(i + 1)).len() == concepts_of(es.take(i)).len() + 1,
{
    let t = es.take(i + 1);
    assert(t.drop_last() =~= es.take(i));
    assert(t.last() == es[i]);
    assert(concepts_of(t) == concepts_of(es.take(i)).push(concept_of(es[i]).unwrap()));
    lemma_concepts_prefix(es, i + 1);
    let k = concepts_of(es.take(i)).len() as int;
    assert(concepts_of(es).take(k + 1)[k] == concepts_of(es)[k]);
}

/// Operands at two positions `i < j` that both have a concept stand at two
/// positions of the concepts of the list, in the same order.
proof fn lemma_concept_positions_ordered(es: Seq<ExprView>, i: int, j: int)
    requires
        0 <= i < j < es.len(),
        concept_of(es[i]) is Some,
        concept_of(es[j]) is Some,
    ensures
        concepts_of(es.take(i)).len() < concepts_of(es.take(j)).len(),
{
    lemma_concept_position(es, i);
    let prefix = es.take(j);
    lemma_concepts_prefix(prefix, i + 1);
    assert(prefix.take(i + 1) =~= es.take(i + 1));
}

// ---------------------------------------------------------------------------
// Each kind of axiom, over all of its operands.

/// A chain of two named properties included in a named property is one role
/// composition of the two, included in it, whatever the three properties
/// are.
pub proof fn law_chain_of_two(p: Seq<char>, q: Seq<char>, s: Seq<char>)
    ensures
        translation(
            ComponentView::SubObjectPropertyOf(
                SubPropertyView::Chain(seq![PropertyView::Named(p), PropertyView::Named(q)]),
                PropertyView::Named(s),
            ),
        ) == Set::<AxiomView>::empty().insert(AxiomView::RoleComposition(p, q, s)),
{
    let chain = seq![PropertyView::Named(p), PropertyView::Named(q)];
    assert(crate::translate::all_named(chain));
    assert(crate::translate::property_iris(chain) =~= seq![p, q]);
}

/// A chain of one named property included in a named property is a role
/// inclusion.
pub proof fn law_chain_of_one(p: Seq<char>, s: Seq<char>)
    ensures
        translation(
            ComponentView::SubObjectPropertyOf(
                SubPropertyView::Chain(seq![PropertyView::Named(p)]),
                PropertyView::Named(s),
            ),
        ) == Set::<AxiomView>::empty().insert(AxiomView::RoleInclusion(p, s)),
{
    let chain = seq![PropertyView::Named(p)];
    assert(crate::translate::all_named(chain));
    assert(crate::translate::property_iris(chain) =~= seq![p]);
}

/// A chain of three named properties is cut at the role named by the
/// composition prefix, the first IRI, a colon and the second IRI: the first
/// two compose to that role, and that role and the third compose to the
/// superproperty.
pub proof fn law_chain_of_three(p: Seq<char>, q: Seq<char>, r: Seq<char>, s: Seq<char>)
    ensures
        ({
            let c = "http://whelk.geneontology.org/composition/"@ + p + ":"@ + q;
            translation(
                ComponentView::SubObjectPropertyOf(
                    SubPropertyView::Chain(
                        seq![PropertyView::Named(p), PropertyView::Named(q), PropertyView::Named(r)],
                    ),
                    PropertyView::Named(s),
                ),
            ) == Set::<AxiomView>::empty().insert(AxiomView::RoleComposition(p, q, c)).insert(
                AxiomView::RoleComposition(c, r, s),
            )
        }),
{
    let chain = seq![PropertyView::Named(p), PropertyView::Named(q), PropertyView::Named(r)];
    let c = "http://whelk.geneontology.org/composition/"@ + p + ":"@ + q;
    assert(crate::translate::all_named(chain));
    let ids = crate::translate::property_iris(chain);
    assert(ids =~= seq![p, q, r]);
    assert(crate::model::composition_id(p, q) == c);
    assert(seq![c] + ids.skip(2) =~= seq![c, r]);
    assert(crate::translate::chain_axioms(seq![c, r], s) == set![AxiomView::RoleComposition(c, r, s)]);
    assert(crate::translate::chain_axioms(ids, s) == set![AxiomView::RoleComposition(p, q, c)].union(
        crate::translate::chain_axioms(seq![c, r], s),
    ));
    assert(crate::translate::chain_axioms(ids, s) =~= Set::<AxiomView>::empty().insert(
        AxiomView::RoleComposition(p, q, c),
    ).insert(AxiomView::RoleComposition(c, r, s)));
}

/// An existential restriction on a named property stands for the
/// existential restriction of whatever concept its filler stands for, of
/// any kind, and for none when the filler stands for none.
pub proof fn law_existential_compositional(r: Seq<char>, filler: ExprView)
    ensures
        concept_of(filler) is None ==> concept_of(
            ExprView::SomeValuesFrom(PropertyView::Named(r), Box::new(filler)),
        ) is None,
        forall|c: ConceptView|
            concept_of(filler) == Some(c) ==> #[trigger] concept_of(
                ExprView::SomeValuesFrom(PropertyView::Named(r), Box::new(filler)),
            ) == Some(ConceptView::Existential(r, Box::new(c))),
{
}

/// A subclass axiom whose superclass is an existential restriction on a
/// named property, with any filler that stands for a concept, is the
/// inclusion in that restriction.
pub proof fn law_subclass_of_existential(a: Seq<char>, r: Seq<char>, filler: ExprView, c: ConceptView)
    requires
        concept_of(filler) == Some(c),
    ensures
        translation(
            ComponentView::SubClassOf(
                ExprView::Class(a),
                ExprView::SomeValuesFrom(PropertyView::Named(r), Box::new(filler)),
            ),
        ) == Set::<AxiomView>::empty().insert(
            AxiomView::ConceptInclusion(
                ConceptView::Atomic(a),
                ConceptView::Existential(r, Box::new(c)),
            ),
        ),
{
    law_existential_compositional(r, filler);
}

/// Every two operands at distinct positions of a list of equivalent
/// classes, however long the list, are included in one another, but for
/// `owl:Nothing`, which is never on the left.
pub proof fn law_equivalence_complete(es: Seq<ExprView>, i: int, j: int, a: ConceptView, b: ConceptView)
    requires
        0 <= i < es.len(),
        0 <= j < es.len(),
        i != j,
        concept_of(es[i]) == Some(a),
        concept_of(es[j]) == Some(b),
        a != ConceptView::Atomic(bottom_id()),
    ensures
        translation(ComponentView::EquivalentClasses(es)).contains(
            AxiomView::ConceptInclusion(a, b),
        ),
{
    let cs = concepts_of(es);
    lemma_concept_position(es, i);
    lemma_concept_position(es, j);
    if i < j {
        lemma_concept_positions_ordered(es, i, j);
    } else {
        lemma_concept_positions_ordered(es, j, i);
    }
    let ki = concepts_of(es.take(i)).len() as int;
    let kj = concepts_of(es.take(j)).len() as int;
    assert(cs[ki] == a && cs[kj] == b && ki != kj);
    assert(equivalence_axioms(cs).contains(inclusion(cs[ki], cs[kj])));
}

/// Every two operands at positions `i < j` of a list of disjoint classes,
/// however far apart, have a conjunction, the earlier one on the left,
/// included in `owl:Nothing`.
pub proof fn law_disjointness_complete(es: Seq<ExprView>, i: int, j: int, a: ConceptView, b: ConceptView)
    requires
        0 <= i < j < es.len(),
        concept_of(es[i]) == Some(a),
        concept_of(es[j]) == Some(b),
    ensures
        translation(ComponentView::DisjointClasses(es)).contains(
            AxiomView::ConceptInclusion(
                ConceptView::Conjunction(Box::new(a), Box::new(b)),
                ConceptView::Atomic(bottom_id()),
            ),
        ),
{
    let cs = concepts_of(es);
    lemma_concept_position(es, i);
    lemma_concept_position(es, j);
    lemma_concept_positions_ordered(es, i, j);
    let ki = concepts_of(es.take(i)).len() as int;
    let kj = concepts_of(es.take(j)).len() as int;
    assert(cs[ki] == a && cs[kj] == b && ki < kj);
    assert(crate::translate::disjointness_axioms(cs).contains(
        inclusion(crate::translate::conjunction(cs[ki], cs[kj]), nothing()),
    ));
}

/// Every two named properties at distinct positions of a list of equivalent
/// properties, however long the list, are included in one another.
pub proof fn law_equivalent_properties_complete(ps: Seq<PropertyView>, i: int, j: int, a: Seq<char>, b: Seq<char>)
    requires
        0 <= i < ps.len(),
        0 <= j < ps.len(),
        i != j,
        ps[i] == PropertyView::Named(a),
        ps[j] == PropertyView::Named(b),
    ensures
        translation(ComponentView::EquivalentObjectProperties(ps)).contains(
            AxiomView::RoleInclusion(a, b),
        ),
{
    assert(crate::translate::is_named(ps[i]) && crate::translate::is_named(ps[j]));
    assert(equivalent_property_axioms(ps).contains(
        AxiomView::RoleInclusion(crate::order::property_iri(ps[i]), crate::order::property_iri(ps[j])),
    ));
}


/// Every concept of a list comes from an operand: the one at the position
/// that has as many operands with a concept before it.
proof fn lemma_concept_source(es: Seq<ExprView>, k: int)
    requires
        0 <= k < concepts_of(es).len(),
    ensures
        exists|i: int|
            0 <= i < es.len() && concept_of(es[i]) == Some(concepts_of(es)[k]) && #[trigger] concepts_of(
                es.take(i),
            ).len() == k,
    decreases es.len(),
{
    let rest = es.drop_last();
    let i = es.len() - 1;
    assert(es.take(i) =~= rest);
    if k < concepts_of(rest).len() {
        lemma_concept_source(rest, k);
        let i0 = choose|i0: int|
            0 <= i0 < rest.len() && concept_of(rest[i0]) == Some(concepts_of(rest)[k])
                && #[trigger] concepts_of(rest.take(i0)).len() == k;
        assert(rest.take(i0) =~= es.take(i0));
        match concept_of(es.last()) {
            Some(c) => {
                assert(concepts_of(es) == concepts_of(rest).push(c));
            },
            None => {},
        }
        assert(concept_of(es[i0]) == Some(concepts_of(es)[k]) && concepts_of(es.take(i0)).len()
            == k);
    } else {
        match concept_of(es.last()) {
            Some(c) => {
                assert(concepts_of(es) == concepts_of(rest).push(c));
                assert(concept_of(es[i]) == Some(concepts_of(es)[k]) && concepts_of(es.take(i)).len()
                    == k);
            },
            None => {},
        }
    }
}

/// A list of equivalent classes yields only inclusions between the concepts
/// of two operands at distinct positions, never with `owl:Nothing` on the
/// left.
pub proof fn law_equivalence_sound(es: Seq<ExprView>, ax: AxiomView)
    requires
        translation(ComponentView::EquivalentClasses(es)).contains(ax),
    ensures
        exists|i: int, j: int|
            0 <= i < es.len() && 0 <= j < es.len() && i != j && concept_of(#[trigger] es[i]) is Some
                && concept_of(#[trigger] es[j]) is Some && concept_of(es[i]).unwrap()
                != ConceptView::Atomic(bottom_id()) && ax == AxiomView::ConceptInclusion(
                concept_of(es[i]).unwrap(),
                concept_of(es[j]).unwrap(),
            ),
{
    let cs = concepts_of(es);
    let (ki, kj) = choose|ki: int, kj: int|
        0 <= ki < cs.len() && 0 <= kj < cs.len() && ki != kj && cs[ki] != nothing() && ax
            == inclusion(#[trigger] cs[ki], #[trigger] cs[kj]);
    lemma_concept_source(es, ki);
    lemma_concept_source(es, kj);
    let i = choose|i: int|
        0 <= i < es.len() && concept_of(es[i]) == Some(cs[ki]) && #[trigger] concepts_of(
            es.take(i),
        ).len() == ki;
    let j = choose|j: int|
        0 <= j < es.len() && concept_of(es[j]) == Some(cs[kj]) && #[trigger] concepts_of(
            es.take(j),
        ).len() == kj;
    assert(i != j);
}

/// A list of disjoint classes yields only the inclusions in `owl:Nothing`
/// of the conjunction of the concepts of two operands at positions
/// `i < j`, the earlier one on the left.
pub proof fn law_disjointness_sound(es: Seq<ExprView>, ax: AxiomView)
    requires
        translation(ComponentView::DisjointClasses(es)).contains(ax),
    ensures
        exists|i: int, j: int|
            0 <= i < j < es.len() && concept_of(#[trigger] es[i]) is Some && concept_of(
                #[trigger] es[j],
            ) is Some && ax == AxiomView::ConceptInclusion(
                ConceptView::Conjunction(
                    Box::new(concept_of(es[i]).unwrap()),
                    Box::new(concept_of(es[j]).unwrap()),
                ),
                ConceptView::Atomic(bottom_id()),
            ),
{
    let cs = concepts_of(es);
    let (ki, kj) = choose|ki: int, kj: int|
        0 <= ki < kj < cs.len() && ax == inclusion(
            crate::translate::conjunction(#[trigger] cs[ki], #[trigger] cs[kj]),
            nothing(),
        );
    lemma_concept_source(es, ki);
    lemma_concept_source(es, kj);
    let i = choose|i: int|
        0 <= i < es.len() && concept_of(es[i]) == Some(cs[ki]) && #[trigger] concepts_of(
            es.take(i),
        ).len() == ki;
    let j = choose|j: int|
        0 <= j < es.len() && concept_of(es[j]) == Some(cs[kj]) && #[trigger] concepts_of(
            es.take(j),
        ).len() == kj;
    if j < i {
        lemma_concept_positions_ordered(es, j, i);
    }
    assert(i != j);
    assert(i < j);
}

/// A list of equivalent properties yields only the inclusions between two
/// named properties at distinct positions.
pub proof fn law_equivalent_properties_sound(ps: Seq<PropertyView>, ax: AxiomView)
    requires
        translation(ComponentView::EquivalentObjectProperties(ps)).contains(ax),
    ensures
        exists|i: int, j: int|
            0 <= i < ps.len() && 0 <= j < ps.len() && i != j && #[trigger] ps[i] is Named
                && #[trigger] ps[j] is Named && ax == AxiomView::RoleInclusion(
                ps[i]->Named_0,
                ps[j]->Named_0,
            ),
{
    let (i, j) = choose|i: int, j: int|
        0 <= i < ps.len() && 0 <= j < ps.len() && i != j && crate::translate::is_named(
            #[trigger] ps[i],
        ) && crate::translate::is_named(#[trigger] ps[j]) && ax == AxiomView::RoleInclusion(
            crate::order::property_iri(ps[i]),
            crate::order::property_iri(ps[j]),
        );
    let a = crate::order::property_iri(ps[i]);
    let b = crate::order::property_iri(ps[j]);
    assert(ps[i] == PropertyView::Named(a) && ps[j] == PropertyView::Named(b));
}

/// A chain of three or more named properties is cut at the role that stands
/// for the composition of its first two: those two compose to it, and the
/// chain that begins with it in their place yields the rest.
pub proof fn law_chain_cut(ps: Seq<Seq<char>>, s: Seq<char>)
    requires
        ps.len() >= 3,
    ensures
        ({
            let named = ps.map_values(|p: Seq<char>| PropertyView::Named(p));
            let c = "http://whelk.geneontology.org/composition/"@ + ps[0] + ":"@ + ps[1];
            let shorter = seq![PropertyView::Named(c)] + named.skip(2);
            translation(
                ComponentView::SubObjectPropertyOf(
                    SubPropertyView::Chain(named),
                    PropertyView::Named(s),
                ),
            ) == translation(
                ComponentView::SubObjectPropertyOf(
                    SubPropertyView::Chain(shorter),
                    PropertyView::Named(s),
                ),
            ).insert(AxiomView::RoleComposition(ps[0], ps[1], c))
        }),
{
    let named = ps.map_values(|p: Seq<char>| PropertyView::Named(p));
    let c = "http://whelk.geneontology.org/composition/"@ + ps[0] + ":"@ + ps[1];
    let shorter = seq![PropertyView::Named(c)] + named.skip(2);
    assert(crate::translate::all_named(named));
    assert(crate::translate::all_named(shorter)) by {
        assert forall|i: int| 0 <= i < shorter.len() implies crate::translate::is_named(
            #[trigger] shorter[i],
        ) by {
            if i > 0 {
                assert(shorter[i] == named[i + 1]);
            }
        }
    }
    let ids = crate::translate::property_iris(named);
    assert(ids =~= ps);
    assert(crate::model::composition_id(ps[0], ps[1]) == c);
    assert(crate::translate::property_iris(shorter) =~= seq![c] + ids.skip(2));
    let rest = crate::translate::chain_axioms(seq![c] + ids.skip(2), s);
    assert(crate::translate::chain_axioms(ids, s) =~= rest.insert(
        AxiomView::RoleComposition(ps[0], ps[1], c),
    ));
}

/// A chain with an inverse property, or included in an inverse property,
/// yields nothing.
pub proof fn law_chain_with_inverse(ps: Seq<PropertyView>, k: int, sup: PropertyView)
    requires
        0 <= k < ps.len(),
        ps[k] is Inverse || sup is Inverse,
    ensures
        translation(ComponentView::SubObjectPropertyOf(SubPropertyView::Chain(ps), sup)) == Set::<
            AxiomView,
        >::empty(),
{
    if sup is Named {
        assert(!crate::translate::is_named(ps[k]));
    }
}

/// A single named property included in a named property is a role
/// inclusion; with an inverse on either side it yields nothing.
pub proof fn law_property_inclusion(sub: PropertyView, sup: PropertyView)
    ensures
        translation(ComponentView::SubObjectPropertyOf(SubPropertyView::Single(sub), sup)) == (
        match (sub, sup) {
            (PropertyView::Named(p), PropertyView::Named(q)) => Set::<AxiomView>::empty().insert(
                AxiomView::RoleInclusion(p, q),
            ),
            _ => Set::<AxiomView>::empty(),
        }),
{
}

/// A declared class is included in `owl:Thing`; a declared individual's
/// nominal too.
pub proof fn law_declarations(iri: Seq<char>)
    ensures
        translation(ComponentView::DeclareClass(iri)) == Set::<AxiomView>::empty().insert(
            AxiomView::ConceptInclusion(ConceptView::Atomic(iri), ConceptView::Atomic(top_id())),
        ),
        translation(ComponentView::DeclareNamedIndividual(iri)) == Set::<AxiomView>::empty().insert(
            AxiomView::ConceptInclusion(ConceptView::Nominal(iri), ConceptView::Atomic(top_id())),
        ),
{
}

/// A subclass axiom is the inclusion of the concept of its subclass in the
/// concept of its superclass, and nothing when either stands for none.
pub proof fn law_subclass(x: ExprView, y: ExprView)
    ensures
        (concept_of(x) is Some && concept_of(y) is Some) ==> translation(
            ComponentView::SubClassOf(x, y),
        ) == Set::<AxiomView>::empty().insert(
            AxiomView::ConceptInclusion(concept_of(x).unwrap(), concept_of(y).unwrap()),
        ),
        (concept_of(x) is None || concept_of(y) is None) ==> translation(
            ComponentView::SubClassOf(x, y),
        ) == Set::<AxiomView>::empty(),
{
}

/// A class assertion on a named individual is the inclusion of its nominal
/// in the concept of the class expression; on an anonymous individual, or
/// with a class expression that stands for none, it yields nothing.
pub proof fn law_class_assertion(ce: ExprView, i: IndividualView)
    ensures
        (concept_of(ce) is Some && i is Named) ==> translation(ComponentView::ClassAssertion(ce, i))
            == Set::<AxiomView>::empty().insert(
            AxiomView::ConceptInclusion(ConceptView::Nominal(i->Named_0), concept_of(ce).unwrap()),
        ),
        (concept_of(ce) is None || i is Anonymous) ==> translation(
            ComponentView::ClassAssertion(ce, i),
        ) == Set::<AxiomView>::empty(),
{
}

/// A property assertion between named individuals is the inclusion of the
/// subject's nominal in the restriction of the property to the target's
/// nominal; with an anonymous individual it yields nothing.
pub proof fn law_property_assertion(p: Seq<char>, from: IndividualView, to: IndividualView)
    ensures
        (from is Named && to is Named) ==> translation(
            ComponentView::ObjectPropertyAssertion(PropertyView::Named(p), from, to),
        ) == Set::<AxiomView>::empty().insert(
            AxiomView::ConceptInclusion(
                ConceptView::Nominal(from->Named_0),
                ConceptView::Existential(p, Box::new(ConceptView::Nominal(to->Named_0))),
            ),
        ),
        (from is Anonymous || to is Anonymous) ==> translation(
            ComponentView::ObjectPropertyAssertion(PropertyView::Named(p), from, to),
        ) == Set::<AxiomView>::empty(),
{
}

/// The classes, complements and restrictions of class expressions: a class
/// stands for its atomic concept, a complement for the complement of its
/// operand's concept, a restriction on an inverse property, a union or any
/// other constructor for none.
pub proof fn law_class_expressions(iri: Seq<char>, x: ExprView, r: Seq<char>, es: Seq<ExprView>)
    ensures
        concept_of(ExprView::Class(iri)) == Some(ConceptView::Atomic(iri)),
        concept_of(ExprView::Complement(Box::new(x))) == (match concept_of(x) {
            Some(c) => Some(ConceptView::Complement(Box::new(c))),
            None => None,
        }),
        concept_of(ExprView::SomeValuesFrom(PropertyView::Inverse(r), Box::new(x))) is None,
        concept_of(ExprView::Union(es)) is None,
        concept_of(ExprView::Unsupported) is None,
{
}

/// The intersection of two operands that stand for concepts is their
/// conjunction, with the operand that comes first in the order of class
/// expressions on the left, whichever order they are given in.
pub proof fn law_intersection_of_two(x: ExprView, y: ExprView, a: ConceptView, b: ConceptView)
    requires
        concept_of(x) == Some(a),
        concept_of(y) == Some(b),
        crate::order::expression_order(x, y) < 0,
    ensures
        concept_of(ExprView::Intersection(seq![x, y])) == Some(
            ConceptView::Conjunction(Box::new(a), Box::new(b)),
        ),
        concept_of(ExprView::Intersection(seq![y, x])) == Some(
            ConceptView::Conjunction(Box::new(a), Box::new(b)),
        ),
{
    let d = descending();
    lemma_descending_total();
    let s = seq![x, y];
    let sorted = seq![y, x];
    s.lemma_sort_by_ensures(d);
    crate::order::lemma_expression_antisym_pub(x, y);
    assert(vstd::relations::sorted_by(sorted, d));
    broadcast use group_to_multiset_ensures;

    assert(sorted.to_multiset() =~= s.to_multiset()) by {
        assert(s =~= seq![x].push(y));
        assert(sorted =~= seq![y].push(x));
        assert(seq![x] =~= Seq::<ExprView>::empty().push(x));
        assert(seq![y] =~= Seq::<ExprView>::empty().push(y));
    }
    lemma_sorted_unique(s.sort_by(d), sorted, d);
    assert(s.sort_by(d) == sorted);
    let arranged = arranged_concepts(s);
    assert(arranged.len() == 2);
    assert(arranged[0] == concept_of(sorted[0]));
    assert(arranged[1] == concept_of(sorted[1]));
    assert(arranged[0] == Some(b) && arranged[1] == Some(a));
    assert(forall|i: int| 0 <= i < arranged.len() ==> arranged[i] is Some);
    assert(unwrap_all(arranged) =~= seq![b, a]);
    assert(seq![b, a].drop_last() =~= seq![b]);
    assert(conjunction_of(seq![b]) == Some(b));
    assert(conjunction_of(seq![b, a]) == Some(ConceptView::Conjunction(Box::new(a), Box::new(b))));
    assert(concept_of(ExprView::Intersection(s)) == conjunction_of(unwrap_all(arranged)));
    law_intersection_operand_order(seq![y, x], s);
}

/// An ontology of one component yields what the component yields, and an
/// empty one yields nothing; with the union law this fixes the translation
/// of every ontology.
pub proof fn law_ontology_parts(c: ComponentView)
    ensures
        ontology_translation(seq![c]) == translation(c),
        ontology_translation(Seq::<ComponentView>::empty()) == Set::<AxiomView>::empty(),
{
    assert(ontology_translation(seq![c]) =~= translation(c)) by {
        assert forall|ax: AxiomView| translation(c).contains(ax) implies ontology_translation(
            seq![c],
        ).contains(ax) by {
            assert(translation(seq![c][0]).contains(ax));
        }
    }
    assert(ontology_translation(Seq::<ComponentView>::empty()) =~= Set::<AxiomView>::empty());
}

/// The conjunction of a list with one more operand at its end nests that
/// operand on the left of the conjunction of the others.
pub proof fn law_conjunction_push(ops: Seq<ConceptView>, x: ConceptView)
    ensures
        conjunction_of(seq![x]) == Some(x),
        conjunction_of(Seq::<ConceptView>::empty()) is None,
        ops.len() > 0 ==> conjunction_of(ops.push(x)) == Some(
            ConceptView::Conjunction(Box::new(x), Box::new(conjunction_of(ops).unwrap())),
        ),
{
    assert(ops.push(x).drop_last() =~= ops);
}

/// The domain of an inverse property, and any component of a kind the
/// reasoner does not take, yield nothing.
pub proof fn law_components_without_axioms(p: Seq<char>, ce: ExprView)
    ensures
        translation(ComponentView::ObjectPropertyDomain(PropertyView::Inverse(p), ce)) == Set::<
            AxiomView,
        >::empty(),
        translation(ComponentView::Other) == Set::<AxiomView>::empty(),
{
}

/// An empty chain yields nothing, whatever it is included in.
pub proof fn law_empty_chain(sup: PropertyView)
    ensures
        translation(
            ComponentView::SubObjectPropertyOf(
                SubPropertyView::Chain(Seq::<PropertyView>::empty()),
                sup,
            ),
        ) == Set::<AxiomView>::empty(),
{
    if let PropertyView::Named(q) = sup {
        assert(crate::translate::all_named(Seq::<PropertyView>::empty()));
        assert(crate::translate::property_iris(Seq::<PropertyView>::empty()).len() == 0);
    }
}

/// Where every operand of a list stands for a concept, the concepts of the
/// list are those of its operands, one for one.
proof fn lemma_concepts_of_defined(es: Seq<ExprView>)
    requires
        forall|i: int| 0 <= i < es.len() ==> (#[trigger] concept_of(es[i])) is Some,
    ensures
        concepts_of(es).len() == es.len(),
        forall|i: int|
            0 <= i < es.len() ==> concepts_of(es)[i] == (#[trigger] concept_of(es[i])).unwrap(),
    decreases es.len(),
{
    if es.len() > 0 {
        let rest = es.drop_last();
        assert forall|i: int| 0 <= i < rest.len() implies (#[trigger] concept_of(rest[i])) is Some by {
            assert(rest[i] == es[i]);
        }
        lemma_concepts_of_defined(rest);
        assert(concept_of(es[es.len() - 1]) is Some);
        assert(concepts_of(es) == concepts_of(rest).push(concept_of(es.last()).unwrap()));
        assert forall|i: int| 0 <= i < es.len() implies concepts_of(es)[i] == (#[trigger] concept_of(
            es[i],
        )).unwrap() by {
            if i < rest.len() {
                assert(rest[i] == es[i]);
            }
        }
    }
}

/// An intersection whose operands all stand for concepts, and come greatest
/// first in the order of class expressions, is the conjunction of their
/// concepts in that order, the last one outermost; by the law on operand
/// order, any other order of the same operands stands for the same concept.
pub proof fn law_intersection_sorted(es: Seq<ExprView>)
    requires
        vstd::relations::sorted_by(es, descending()),
        forall|i: int| 0 <= i < es.len() ==> (#[trigger] concept_of(es[i])) is Some,
    ensures
        concept_of(ExprView::Intersection(es)) == conjunction_of(concepts_of(es)),
{
    let d = descending();
    lemma_descending_total();
    es.lemma_sort_by_ensures(d);
    lemma_sorted_unique(es.sort_by(d), es, d);
    assert(es.sort_by(d) == es);
    lemma_concepts_of_defined(es);
    let arranged = arranged_concepts(es);
    assert(arranged.len() == es.len());
    assert forall|i: int| 0 <= i < arranged.len() implies (#[trigger] arranged[i]) == concept_of(
        es[i],
    ) by {}
    assert(forall|i: int| 0 <= i < arranged.len() ==> (#[trigger] arranged[i]) is Some);
    assert(unwrap_all(arranged) =~= concepts_of(es));
}

} // verus!
