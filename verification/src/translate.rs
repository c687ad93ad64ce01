//! Translation of OWL axioms into the reasoner's axioms.
use std::rc::Rc;
use vstd::prelude::*;
use crate::axiom_set::{axiom_set, empty_axioms, insert_axiom, union_axioms, unit_axiom};
use crate::iri::build_iri;
use crate::model::{
    Axiom, AxiomView, Concept, ConceptView, bottom, bottom_id, composition_id,
    composition_role_id, concepts_equal, share, top, top_id,
};
use crate::order::{descending, lemma_descending_total, references_view, sort_descending};
use crate::owl::{
    ClassExpression, Component, ComponentView, ExprView, Individual, IndividualView,
    ObjectPropertyExpression, PropertyView, SubObjectPropertyExpression, SubPropertyView,
    expressions_view, properties_view,
};
use crate::pairs::{index_pairs, index_pairs_spec, lemma_index_pairs, pair_of};

verus! {

// ---------------------------------------------------------------------------
// What the translation yields.

/// The top concept, `owl:Thing`.
pub open spec fn thing() -> ConceptView {
    ConceptView::Atomic(top_id())
}

/// The bottom concept, `owl:Nothing`.
pub open spec fn nothing() -> ConceptView {
    ConceptView::Atomic(bottom_id())
}

pub open spec fn inclusion(sub: ConceptView, sup: ConceptView) -> AxiomView {
    AxiomView::ConceptInclusion(sub, sup)
}

pub open spec fn conjunction(left: ConceptView, right: ConceptView) -> ConceptView {
    ConceptView::Conjunction(Box::new(left), Box::new(right))
}

pub open spec fn existential(role: Seq<char>, filler: ConceptView) -> ConceptView {
    ConceptView::Existential(role, Box::new(filler))
}

/// The conjunction of `operands`, nested to the right with the last operand
/// outermost: `[a, b, c]` gives `c ⊓ (b ⊓ a)`. A single operand stands
/// alone; there is no conjunction of no operands.
pub open spec fn conjunction_of(operands: Seq<ConceptView>) -> Option<ConceptView>
    decreases operands.len(),
{
    if operands.len() == 0 {
        None
    } else if operands.len() == 1 {
        Some(operands[0])
    } else {
        Some(conjunction(operands.last(), conjunction_of(operands.drop_last()).unwrap()))
    }
}

/// The concept that a class expression stands for, where it stands for one:
/// classes, existential restrictions on a named property, complements, and
/// intersections, whose operands are arranged greatest first before they
/// are nested into a conjunction. Every other constructor, and every
/// expression that holds one, stands for none.
pub open spec fn concept_of(e: ExprView) -> Option<ConceptView>
    decreases e, 1nat,
{
    match e {
        ExprView::Class(iri) => Some(ConceptView::Atomic(iri)),
        ExprView::SomeValuesFrom(PropertyView::Named(role), filler) => match concept_of(*filler) {
            Some(c) => Some(existential(role, c)),
            None => None,
        },
        ExprView::Intersection(operands) => {
            let arranged = arranged_concepts(operands);
            if forall|i: int| 0 <= i < arranged.len() ==> arranged[i] is Some {
                conjunction_of(unwrap_all(arranged))
            } else {
                None
            }
        },
        ExprView::Complement(inner) => match concept_of(*inner) {
            Some(c) => Some(ConceptView::Complement(Box::new(c))),
            None => None,
        },
        _ => None,
    }
}

/// What the operands of an intersection stand for, greatest operand first.
pub open spec fn arranged_concepts(operands: Seq<ExprView>) -> Seq<Option<ConceptView>>
    decreases operands, 0nat,
{
    let sorted = operands.sort_by(descending());
    Seq::new(
        sorted.len(),
        |i: int|
            if 0 <= i < sorted.len() {
                proof {
                    lemma_descending_total();
                    operands.lemma_sort_by_ensures(descending());
                    assert(sorted.contains(sorted[i]));
                    let j = choose|j: int| 0 <= j < operands.len() && operands[j] == sorted[i];
                    assert(decreases_to!(operands => operands[j]));
                }
                concept_of(sorted[i])
            } else {
                None
            },
    )
}

pub open spec fn unwrap_all(s: Seq<Option<ConceptView>>) -> Seq<ConceptView> {
    s.map_values(|c: Option<ConceptView>| c.unwrap())
}

/// The concepts of those expressions that stand for one, in order.
pub open spec fn concepts_of(es: Seq<ExprView>) -> Seq<ConceptView>
    decreases es.len(),
{
    if es.len() == 0 {
        Seq::empty()
    } else {
        let rest = concepts_of(es.drop_last());
        match concept_of(es.last()) {
            Some(c) => rest.push(c),
            None => rest,
        }
    }
}

pub open spec fn concept_option_view(o: Option<Rc<Concept>>) -> Option<ConceptView> {
    match o {
        Some(c) => Some(c@),
        None => None,
    }
}

pub open spec fn concepts_view(s: Seq<Rc<Concept>>) -> Seq<ConceptView> {
    s.map_values(|c: Rc<Concept>| c@)
}

// ---------------------------------------------------------------------------
// The axioms that an OWL component stands for.

/// `cs[i] ⊑ cs[j]` for every two positions `i != j` with `cs[i]` not the
/// bottom concept: each of a list of equivalent classes is included in every
/// other.
pub open spec fn equivalence_axioms(cs: Seq<ConceptView>) -> Set<AxiomView> {
    Set::new(
        |ax: AxiomView|
            exists|i: int, j: int|
                0 <= i < cs.len() && 0 <= j < cs.len() && i != j && cs[i] != nothing() && ax
                    == inclusion(#[trigger] cs[i], #[trigger] cs[j]),
    )
}

/// `cs[i] ⊓ cs[j] ⊑ ⊥` for every two positions `i < j`.
pub open spec fn disjointness_axioms(cs: Seq<ConceptView>) -> Set<AxiomView> {
    Set::new(
        |ax: AxiomView|
            exists|i: int, j: int|
                0 <= i < j < cs.len() && ax == inclusion(
                    conjunction(#[trigger] cs[i], #[trigger] cs[j]),
                    nothing(),
                ),
    )
}

pub open spec fn is_named(p: PropertyView) -> bool {
    p is Named
}

pub open spec fn all_named(chain: Seq<PropertyView>) -> bool {
    forall|i: int| 0 <= i < chain.len() ==> is_named(#[trigger] chain[i])
}

pub open spec fn property_iris(chain: Seq<PropertyView>) -> Seq<Seq<char>> {
    chain.map_values(|p: PropertyView| crate::order::property_iri(p))
}

/// The axioms of the chain `ids[0] ∘ ids[1] ∘ ... ⊑ sup`: a single role is a
/// role inclusion, two roles a role composition, and a longer chain is cut
/// into the composition of its first two roles, named by `composition_id`,
/// and the shorter chain that begins with that name.
pub open spec fn chain_axioms(ids: Seq<Seq<char>>, sup: Seq<char>) -> Set<AxiomView>
    decreases ids.len(),
{
    if ids.len() == 0 {
        Set::empty()
    } else if ids.len() == 1 {
        set![AxiomView::RoleInclusion(ids[0], sup)]
    } else if ids.len() == 2 {
        set![AxiomView::RoleComposition(ids[0], ids[1], sup)]
    } else {
        let c = composition_id(ids[0], ids[1]);
        set![AxiomView::RoleComposition(ids[0], ids[1], c)].union(
            chain_axioms(seq![c] + ids.skip(2), sup),
        )
    }
}

/// The axioms of an object property inclusion: only named properties, and
/// chains of named properties, are translated.
pub open spec fn property_axioms(sub: SubPropertyView, sup: PropertyView) -> Set<AxiomView> {
    match (sub, sup) {
        (SubPropertyView::Single(PropertyView::Named(p)), PropertyView::Named(q)) => set![
            AxiomView::RoleInclusion(p, q),
        ],
        (SubPropertyView::Chain(chain), PropertyView::Named(q)) => if all_named(chain) {
            chain_axioms(property_iris(chain), q)
        } else {
            Set::empty()
        },
        _ => Set::empty(),
    }
}

/// Each of a list of equivalent named properties is included in every other.
pub open spec fn equivalent_property_axioms(ps: Seq<PropertyView>) -> Set<AxiomView> {
    Set::new(
        |ax: AxiomView|
            exists|i: int, j: int|
                0 <= i < ps.len() && 0 <= j < ps.len() && i != j && is_named(#[trigger] ps[i])
                    && is_named(#[trigger] ps[j]) && ax == AxiomView::RoleInclusion(
                    crate::order::property_iri(ps[i]),
                    crate::order::property_iri(ps[j]),
                ),
    )
}

pub open spec fn nominal(iri: Seq<char>) -> ConceptView {
    ConceptView::Nominal(iri)
}

/// The axioms of the reasoner that an OWL component stands for.
pub open spec fn translation(c: ComponentView) -> Set<AxiomView> {
    match c {
        ComponentView::DeclareClass(iri) => set![inclusion(ConceptView::Atomic(iri), thing())],
        ComponentView::DeclareNamedIndividual(iri) => set![inclusion(nominal(iri), thing())],
        ComponentView::SubClassOf(sub, sup) => match (concept_of(sub), concept_of(sup)) {
            (Some(a), Some(b)) => set![inclusion(a, b)],
            _ => Set::empty(),
        },
        ComponentView::EquivalentClasses(es) => equivalence_axioms(concepts_of(es)),
        ComponentView::DisjointClasses(es) => disjointness_axioms(concepts_of(es)),
        ComponentView::DisjointUnion(iri, es) => equivalence_axioms(
            concepts_of(seq![ExprView::Class(iri), ExprView::Union(es)]),
        ).union(disjointness_axioms(concepts_of(es))),
        ComponentView::SubObjectPropertyOf(sub, sup) => property_axioms(sub, sup),
        ComponentView::EquivalentObjectProperties(ps) => equivalent_property_axioms(ps),
        ComponentView::ObjectPropertyDomain(PropertyView::Named(p), ce) => match concept_of(ce) {
            Some(c) => set![inclusion(existential(p, thing()), c)],
            None => Set::empty(),
        },
        ComponentView::TransitiveObjectProperty(PropertyView::Named(p)) => set![
            AxiomView::RoleComposition(p, p, p),
        ],
        ComponentView::ClassAssertion(ce, IndividualView::Named(i)) => match concept_of(ce) {
            Some(c) => set![inclusion(nominal(i), c)],
            None => Set::empty(),
        },
        ComponentView::ObjectPropertyAssertion(
            PropertyView::Named(p),
            IndividualView::Named(s),
            IndividualView::Named(t),
        ) => set![inclusion(nominal(s), existential(p, nominal(t)))],
        ComponentView::ObjectPropertyAssertion(
            PropertyView::Inverse(p),
            IndividualView::Named(s),
            IndividualView::Named(t),
        ) => set![inclusion(nominal(t), existential(p, nominal(s)))],
        _ => Set::empty(),
    }
}

/// The axioms that the components of an ontology stand for, together.
pub open spec fn ontology_translation(cs: Seq<ComponentView>) -> Set<AxiomView> {
    Set::new(
        |ax: AxiomView| exists|i: int| 0 <= i < cs.len() && #[trigger] translation(cs[i]).contains(ax),
    )
}

pub open spec fn components_view(s: Seq<Component>) -> Seq<ComponentView> {
    s.map_values(|c: Component| c@)
}

// ---------------------------------------------------------------------------
// The concept of a class expression.

/// Creates the component `subclass ⊑ superclass`.
pub fn concept_inclusion(subclass: &Rc<Concept>, superclass: &Rc<Concept>) -> (r: Rc<Axiom>)
    ensures
        r@ == inclusion(subclass@, superclass@),
{
    Rc::new(Axiom::ConceptInclusion { subclass: share(subclass), superclass: share(superclass) })
}

/// Nests the operands into a conjunction, the last operand outermost.
pub fn expand_conjunction(operands: Vec<Rc<Concept>>) -> (r: Option<Rc<Concept>>)
    ensures
        concept_option_view(r) == conjunction_of(concepts_view(operands@)),
        r is Some <==> operands.len() > 0,
    decreases operands.len(),
{
    let mut operands = operands;
    let ghost ops = concepts_view(operands@);
    match operands.len() {
        0 => None,
        1 => operands.pop(),
        2 => {
            let left = operands.pop().unwrap();
            let right = operands.pop().unwrap();
            assert(conjunction_of(ops.drop_last()) == Some(ops[0]));
            Some(Rc::new(Concept::Conjunction { left, right }))
        },
        _ => {
            let left = operands.pop().unwrap();
            assert(concepts_view(operands@) =~= ops.drop_last());
            match expand_conjunction(operands) {
                Some(right) => Some(Rc::new(Concept::Conjunction { left, right })),
                None => None,
            }
        },
    }
}

/// The concept that a class expression stands for, if it stands for one.
#[verifier::loop_isolation(false)]
pub fn convert_expression(expression: &ClassExpression) -> (r: Option<Rc<Concept>>)
    ensures
        concept_option_view(r) == concept_of(expression@),
    decreases expression,
{
    match expression {
        ClassExpression::Class(iri) => {
            let id = iri.clone();
            Some(Rc::new(Concept::AtomicConcept { id }))
        },
        ClassExpression::ObjectSomeValuesFrom {
            ope: ObjectPropertyExpression::ObjectProperty(prop),
            bce: cls,
        } => match convert_expression(cls) {
            Some(c) => Some(
                Rc::new(Concept::ExistentialRestriction { role: prop.clone(), concept: c }),
            ),
            None => None,
        },
        ClassExpression::ObjectIntersectionOf(expressions) => {
            let ghost operands = expressions_view(expressions@);
            let mut refs: Vec<&ClassExpression> = Vec::new();
            let mut i: usize = 0;
            while i < expressions.len()
                invariant
                    i <= expressions.len(),
                    refs.len() == i,
                    forall|k: int| 0 <= k < i ==> *#[trigger] refs@[k] == expressions@[k],
                decreases expressions.len() - i,
            {
                refs.push(&expressions[i]);
                i = i + 1;
            }
            assert(references_view(refs@) =~= operands);
            let sorted = sort_descending(&refs);
            let ghost sorted_view = operands.sort_by(descending());
            let mut converted: Vec<Rc<Concept>> = Vec::new();
            let mut i: usize = 0;
            while i < sorted.len()
                invariant
                    i <= sorted.len(),
                    references_view(sorted@) == sorted_view,
                    forall|k: int| 0 <= k < sorted.len() ==> refs@.contains(#[trigger] sorted@[k]),
                    forall|k: int| 0 <= k < refs.len() ==> *#[trigger] refs@[k] == expressions@[k],
                    converted.len() == i,
                    forall|k: int|
                        0 <= k < i ==> arranged_concepts(operands)[k] == Some(
                            #[trigger] converted@[k]@,
                        ),
                    arranged_concepts(operands).len() == sorted.len(),
                decreases sorted.len() - i,
            {
                proof {
                    assert(refs@.contains(sorted@[i as int]));
                    let j = choose|j: int| 0 <= j < refs.len() && refs@[j] == sorted@[i as int];
                    assert(*sorted@[i as int] == expressions@[j]);
                }
                match convert_expression(sorted[i]) {
                    Some(c) => converted.push(c),
                    None => {
                        assert(sorted_view[i as int] == sorted@[i as int]@);
                        assert(arranged_concepts(operands)[i as int] is None);
                        return None;
                    },
                }
                i = i + 1;
            }
            assert forall|k: int| 0 <= k < arranged_concepts(operands).len() implies (
            #[trigger] arranged_concepts(operands)[k]) is Some by {
                assert(arranged_concepts(operands)[k] == Some(converted@[k]@));
            }
            assert(unwrap_all(arranged_concepts(operands)) =~= concepts_view(converted@));
            assert(expression@ == ExprView::Intersection(operands));
            expand_conjunction(converted)
        },
        ClassExpression::ObjectComplementOf(cls) => match convert_expression(cls) {
            Some(concept) => Some(Rc::new(Concept::Complement { concept })),
            None => None,
        },
        _ => None,
    }
}

// ---------------------------------------------------------------------------
// Copies of OWL expressions, for the axioms that the translation builds.

fn copy_property(p: &ObjectPropertyExpression) -> (r: ObjectPropertyExpression)
    ensures
        r@ == p@,
{
    match p {
        ObjectPropertyExpression::ObjectProperty(iri) => ObjectPropertyExpression::ObjectProperty(
            iri.clone(),
        ),
        ObjectPropertyExpression::InverseObjectProperty(iri) =>
            ObjectPropertyExpression::InverseObjectProperty(iri.clone()),
    }
}

fn copy_properties(ps: &Vec<ObjectPropertyExpression>) -> (r: Vec<ObjectPropertyExpression>)
    ensures
        properties_view(r@) == properties_view(ps@),
{
    let mut r: Vec<ObjectPropertyExpression> = Vec::new();
    let mut i: usize = 0;
    while i < ps.len()
        invariant
            i <= ps.len(),
            r.len() == i,
            forall|k: int| 0 <= k < i ==> (#[trigger] r@[k])@ == ps@[k]@,
        decreases ps.len() - i,
    {
        r.push(copy_property(&ps[i]));
        i = i + 1;
    }
    assert(properties_view(r@) =~= properties_view(ps@));
    r
}

#[verifier::loop_isolation(false)]
fn copy_expression(e: &ClassExpression) -> (r: ClassExpression)
    ensures
        r@ == e@,
    decreases e, 1nat,
{
    match e {
        ClassExpression::Class(iri) => ClassExpression::Class(iri.clone()),
        ClassExpression::ObjectIntersectionOf(es) => ClassExpression::ObjectIntersectionOf(
            copy_expressions(es),
        ),
        ClassExpression::ObjectUnionOf(es) => ClassExpression::ObjectUnionOf(copy_expressions(es)),
        ClassExpression::ObjectComplementOf(inner) => ClassExpression::ObjectComplementOf(
            Box::new(copy_expression(inner)),
        ),
        ClassExpression::ObjectSomeValuesFrom { ope, bce } => ClassExpression::ObjectSomeValuesFrom {
            ope: copy_property(ope),
            bce: Box::new(copy_expression(bce)),
        },
        ClassExpression::Unsupported => ClassExpression::Unsupported,
    }
}

#[verifier::loop_isolation(false)]
fn copy_expressions(es: &Vec<ClassExpression>) -> (r: Vec<ClassExpression>)
    ensures
        expressions_view(r@) == expressions_view(es@),
    decreases es, 0nat,
{
    let mut r: Vec<ClassExpression> = Vec::new();
    let mut i: usize = 0;
    while i < es.len()
        invariant
            i <= es.len(),
            r.len() == i,
            forall|k: int| 0 <= k < i ==> (#[trigger] r@[k])@ == es@[k]@,
        decreases es.len() - i,
    {
        r.push(copy_expression(&es[i]));
        i = i + 1;
    }
    assert(expressions_view(r@) =~= expressions_view(es@));
    r
}

/// Whether every property of a chain is named (none is an inverse).
fn chain_is_named(props: &Vec<ObjectPropertyExpression>) -> (r: bool)
    ensures
        r == all_named(properties_view(props@)),
{
    let mut i: usize = 0;
    while i < props.len()
        invariant
            i <= props.len(),
            forall|k: int| 0 <= k < i ==> is_named(#[trigger] properties_view(props@)[k]),
        decreases props.len() - i,
    {
        match &props[i] {
            ObjectPropertyExpression::ObjectProperty(_) => {},
            ObjectPropertyExpression::InverseObjectProperty(_) => {
                assert(!is_named(properties_view(props@)[i as int]));
                return false;
            },
        }
        i = i + 1;
    }
    true
}

/// The concepts of those expressions that stand for one, in order.
fn convert_present(expressions: &Vec<ClassExpression>) -> (r: Vec<Rc<Concept>>)
    ensures
        concepts_view(r@) == concepts_of(expressions_view(expressions@)),
{
    let ghost es = expressions_view(expressions@);
    let mut r: Vec<Rc<Concept>> = Vec::new();
    let mut i: usize = 0;
    assert(es.take(0) =~= Seq::<ExprView>::empty());
    assert(concepts_view(r@) =~= concepts_of(es.take(0)));
    while i < expressions.len()
        invariant
            i <= expressions.len(),
            es == expressions_view(expressions@),
            concepts_view(r@) == concepts_of(es.take(i as int)),
        decreases expressions.len() - i,
    {
        assert(es.take(i + 1).drop_last() =~= es.take(i as int));
        assert(es.take(i + 1).last() == expressions@[i as int]@);
        match convert_expression(&expressions[i]) {
            Some(c) => {
                r.push(c);
                assert(concepts_view(r@) =~= concepts_of(es.take(i as int)).push(c@));
            },
            None => {},
        }
        i = i + 1;
    }
    assert(es.take(expressions.len() as int) =~= es);
    r
}

// ---------------------------------------------------------------------------
// Translation.

/// The top and bottom concepts, made once and shared by the axioms.
pub struct OWLGlobals {
    pub thing: Rc<Concept>,
    pub nothing: Rc<Concept>,
}

impl OWLGlobals {
    pub open spec fn well_formed(&self) -> bool {
        &&& self.thing@ == thing()
        &&& self.nothing@ == nothing()
    }
}

/// Makes the top and bottom concepts.
pub fn make_globals() -> (g: OWLGlobals)
    ensures
        g.well_formed(),
{
    OWLGlobals {
        thing: Rc::new(Concept::AtomicConcept { id: top() }),
        nothing: Rc::new(Concept::AtomicConcept { id: bottom() }),
    }
}

/// Whether the axioms that two equivalent classes at positions `p[0]`,
/// `p[1]` stand for are in `s`.
spec fn equivalence_pair_in(cs: Seq<ConceptView>, p: Seq<usize>, s: Set<AxiomView>) -> bool {
    &&& cs[p[0] as int] != nothing() ==> s.contains(inclusion(cs[p[0] as int], cs[p[1] as int]))
    &&& cs[p[1] as int] != nothing() ==> s.contains(inclusion(cs[p[1] as int], cs[p[0] as int]))
}

/// The axioms of a list of equivalent classes, by their concepts.
fn equivalent_classes_axioms(converted: &Vec<Rc<Concept>>, globals: &OWLGlobals) -> (r:
    im::HashSet<Rc<Axiom>>)
    requires
        globals.well_formed(),
    ensures
        axiom_set(r) == equivalence_axioms(concepts_view(converted@)),
{
    let ghost cs = concepts_view(converted@);
    let pairs = index_pairs(converted.len());
    let ghost ps = index_pairs_spec(converted.len() as nat);
    proof {
        lemma_index_pairs(converted.len() as nat);
    }
    let mut axioms = empty_axioms();
    let mut k: usize = 0;
    while k < pairs.len()
        invariant
            k <= pairs.len(),
            globals.well_formed(),
            cs == concepts_view(converted@),
            ps == index_pairs_spec(converted.len() as nat),
            pairs@.len() == ps.len(),
            forall|m: int| 0 <= m < pairs@.len() ==> #[trigger] pairs@[m]@ == ps[m],
            forall|m: int|
                0 <= m < ps.len() ==> {
                    let p = #[trigger] ps[m];
                    &&& p.len() == 2
                    &&& p[0] < p[1] < converted.len()
                },
            axiom_set(axioms).subset_of(equivalence_axioms(cs)),
            forall|m: int| 0 <= m < k ==> equivalence_pair_in(cs, #[trigger] ps[m], axiom_set(axioms)),
        decreases pairs.len() - k,
    {
        assert(pairs@[k as int]@ == ps[k as int]);
        let a = pairs[k][0];
        let b = pairs[k][1];
        let ghost before = axiom_set(axioms);
        let first = &converted[a];
        let second = &converted[b];
        if !concepts_equal(first, &globals.nothing) {
            insert_axiom(&mut axioms, concept_inclusion(first, second));
            assert(equivalence_axioms(cs).contains(inclusion(cs[a as int], cs[b as int])));
        }
        if !concepts_equal(second, &globals.nothing) {
            insert_axiom(&mut axioms, concept_inclusion(second, first));
            assert(equivalence_axioms(cs).contains(inclusion(cs[b as int], cs[a as int])));
        }
        assert forall|m: int| 0 <= m < k + 1 implies equivalence_pair_in(
            cs,
            #[trigger] ps[m],
            axiom_set(axioms),
        ) by {
            if m < k {
                assert(equivalence_pair_in(cs, ps[m], before));
            }
        }
        k = k + 1;
    }
    assert forall|ax: AxiomView| #[trigger] equivalence_axioms(cs).contains(ax) implies axiom_set(
        axioms,
    ).contains(ax) by {
        let (i, j) = choose|i: int, j: int|
            0 <= i < cs.len() && 0 <= j < cs.len() && i != j && cs[i] != nothing() && ax
                == inclusion(#[trigger] cs[i], #[trigger] cs[j]);
        if i < j {
            assert(ps.contains(pair_of(i, j)));
            let m = choose|m: int| 0 <= m < ps.len() && ps[m] == pair_of(i, j);
            assert(equivalence_pair_in(cs, ps[m], axiom_set(axioms)));
        } else {
            assert(ps.contains(pair_of(j, i)));
            let m = choose|m: int| 0 <= m < ps.len() && ps[m] == pair_of(j, i);
            assert(equivalence_pair_in(cs, ps[m], axiom_set(axioms)));
        }
    }
    assert(axiom_set(axioms) =~= equivalence_axioms(cs));
    axioms
}

/// The axioms of a list of disjoint classes, by their concepts.
fn disjoint_classes_axioms(converted: &Vec<Rc<Concept>>, globals: &OWLGlobals) -> (r:
    im::HashSet<Rc<Axiom>>)
    requires
        globals.well_formed(),
    ensures
        axiom_set(r) == disjointness_axioms(concepts_view(converted@)),
{
    let ghost cs = concepts_view(converted@);
    let pairs = index_pairs(converted.len());
    let ghost ps = index_pairs_spec(converted.len() as nat);
    proof {
        lemma_index_pairs(converted.len() as nat);
    }
    let mut axioms = empty_axioms();
    let mut k: usize = 0;
    while k < pairs.len()
        invariant
            k <= pairs.len(),
            globals.well_formed(),
            cs == concepts_view(converted@),
            ps == index_pairs_spec(converted.len() as nat),
            pairs@.len() == ps.len(),
            forall|m: int| 0 <= m < pairs@.len() ==> #[trigger] pairs@[m]@ == ps[m],
            forall|m: int|
                0 <= m < ps.len() ==> {
                    let p = #[trigger] ps[m];
                    &&& p.len() == 2
                    &&& p[0] < p[1] < converted.len()
                },
            axiom_set(axioms).subset_of(disjointness_axioms(cs)),
            forall|m: int|
                0 <= m < k ==> axiom_set(axioms).contains(
                    inclusion(
                        conjunction(cs[(#[trigger] ps[m])[0] as int], cs[ps[m][1] as int]),
                        nothing(),
                    ),
                ),
        decreases pairs.len() - k,
    {
        assert(pairs@[k as int]@ == ps[k as int]);
        let a = pairs[k][0];
        let b = pairs[k][1];
        let first = &converted[a];
        let second = &converted[b];
        let both = Rc::new(Concept::Conjunction { left: share(first), right: share(second) });
        insert_axiom(&mut axioms, concept_inclusion(&both, &globals.nothing));
        assert(disjointness_axioms(cs).contains(
            inclusion(conjunction(cs[a as int], cs[b as int]), nothing()),
        ));
        k = k + 1;
    }
    assert forall|ax: AxiomView| #[trigger] disjointness_axioms(cs).contains(ax) implies axiom_set(
        axioms,
    ).contains(ax) by {
        let (i, j) = choose|i: int, j: int|
            0 <= i < j < cs.len() && ax == inclusion(
                conjunction(#[trigger] cs[i], #[trigger] cs[j]),
                nothing(),
            );
        assert(ps.contains(pair_of(i, j)));
        let m = choose|m: int| 0 <= m < ps.len() && ps[m] == pair_of(i, j);
        assert(ps[m][0] == i && ps[m][1] == j);
    }
    assert(axiom_set(axioms) =~= disjointness_axioms(cs));
    axioms
}

/// How deep the translation of an component reaches into the axioms that it
/// builds: it only builds axioms of a smaller rank.
pub open spec fn component_rank(c: Component) -> nat {
    match c {
        Component::DisjointUnion(_, _) => 1,
        Component::SubObjectPropertyOf { sub, sup: _ } => match sub {
            SubObjectPropertyExpression::ObjectPropertyChain(chain) => chain@.len() + 2,
            SubObjectPropertyExpression::ObjectPropertyExpression(_) => 1,
        },
        Component::EquivalentObjectProperties(_) => 2,
        Component::TransitiveObjectProperty(_) => 5,
        _ => 0,
    }
}

/// Whether the axioms that two equivalent properties at positions `p[0]`,
/// `p[1]` stand for are in `s`.
spec fn property_pair_in(ps: Seq<PropertyView>, p: Seq<usize>, s: Set<AxiomView>) -> bool {
    &&& property_axioms(SubPropertyView::Single(ps[p[0] as int]), ps[p[1] as int]).subset_of(s)
    &&& property_axioms(SubPropertyView::Single(ps[p[1] as int]), ps[p[0] as int]).subset_of(s)
}

fn translate_axiom_internal(component: &Component, globals: &OWLGlobals) -> (r: im::HashSet<Rc<Axiom>>)
    requires
        globals.well_formed(),
    ensures
        axiom_set(r) == translation(component@),
    decreases component_rank(*component), 1nat,
{
    match component {
        Component::DeclareClass(iri) => {
            let subclass = Rc::new(Concept::AtomicConcept { id: iri.clone() });
            unit_axiom(concept_inclusion(&subclass, &globals.thing))
        },
        Component::DeclareNamedIndividual(iri) => {
            let subclass = Rc::new(Concept::Nominal { individual: iri.clone() });
            unit_axiom(concept_inclusion(&subclass, &globals.thing))
        },
        Component::SubClassOf { sub, sup } => match (convert_expression(sub), convert_expression(sup)) {
            (Some(subclass), Some(superclass)) => unit_axiom(concept_inclusion(&subclass, &superclass)),
            _ => empty_axioms(),
        },
        Component::EquivalentClasses(expressions) => {
            let converted = convert_present(expressions);
            equivalent_classes_axioms(&converted, globals)
        },
        Component::DisjointClasses(operands) => {
            let converted = convert_present(operands);
            disjoint_classes_axioms(&converted, globals)
        },
        Component::DisjointUnion(cls, expressions) => {
            let union = ClassExpression::ObjectUnionOf(copy_expressions(expressions));
            let operands = vec![ClassExpression::Class(cls.clone()), union];
            assert(expressions_view(operands@) =~= seq![
                ExprView::Class(cls@),
                ExprView::Union(expressions_view(expressions@)),
            ]);
            let equivalence = Component::EquivalentClasses(operands);
            let disjointness = Component::DisjointClasses(copy_expressions(expressions));
            union_axioms(
                translate_axiom_internal(&equivalence, globals),
                translate_axiom_internal(&disjointness, globals),
            )
        },
        Component::SubObjectPropertyOf {
            sub: SubObjectPropertyExpression::ObjectPropertyExpression(
                ObjectPropertyExpression::ObjectProperty(sub),
            ),
            sup: ObjectPropertyExpression::ObjectProperty(sup),
        } => unit_axiom(
            Rc::new(Axiom::RoleInclusion { subproperty: sub.clone(), superproperty: sup.clone() }),
        ),
        Component::SubObjectPropertyOf {
            sub: SubObjectPropertyExpression::ObjectPropertyChain(props),
            sup: ObjectPropertyExpression::ObjectProperty(sup),
        } => {
            translate_chain(props, sup, globals)
        },
        Component::EquivalentObjectProperties(props) => {
            let ghost ps = properties_view(props@);
            let pairs = index_pairs(props.len());
            let ghost pp = index_pairs_spec(props.len() as nat);
            proof {
                lemma_index_pairs(props.len() as nat);
            }
            let mut axioms = empty_axioms();
            let mut k: usize = 0;
            while k < pairs.len()
                invariant
                    k <= pairs.len(),
                    globals.well_formed(),
                    *component == Component::EquivalentObjectProperties(*props),
                    ps == properties_view(props@),
                    pp == index_pairs_spec(props.len() as nat),
                    pairs@.len() == pp.len(),
                    forall|m: int| 0 <= m < pairs@.len() ==> #[trigger] pairs@[m]@ == pp[m],
                    forall|m: int|
                        0 <= m < pp.len() ==> {
                            let p = #[trigger] pp[m];
                            &&& p.len() == 2
                            &&& p[0] < p[1] < props.len()
                        },
                    axiom_set(axioms).subset_of(equivalent_property_axioms(ps)),
                    forall|m: int| 0 <= m < k ==> property_pair_in(ps, #[trigger] pp[m], axiom_set(axioms)),
                decreases pairs.len() - k,
            {
                assert(pairs@[k as int]@ == pp[k as int]);
                let a = pairs[k][0];
                let b = pairs[k][1];
                let ghost before = axiom_set(axioms);
                let first_second = Component::SubObjectPropertyOf {
                    sub: SubObjectPropertyExpression::ObjectPropertyExpression(copy_property(&props[a])),
                    sup: copy_property(&props[b]),
                };
                let second_first = Component::SubObjectPropertyOf {
                    sub: SubObjectPropertyExpression::ObjectPropertyExpression(copy_property(&props[b])),
                    sup: copy_property(&props[a]),
                };
                let both = union_axioms(
                    translate_axiom_internal(&first_second, globals),
                    translate_axiom_internal(&second_first, globals),
                );
                proof {
                    let ab = property_axioms(SubPropertyView::Single(ps[a as int]), ps[b as int]);
                    let ba = property_axioms(SubPropertyView::Single(ps[b as int]), ps[a as int]);
                    assert(ab.subset_of(equivalent_property_axioms(ps))) by {
                        if is_named(ps[a as int]) && is_named(ps[b as int]) {
                            assert(equivalent_property_axioms(ps).contains(
                                AxiomView::RoleInclusion(
                                    crate::order::property_iri(ps[a as int]),
                                    crate::order::property_iri(ps[b as int]),
                                ),
                            ));
                        }
                    }
                    assert(ba.subset_of(equivalent_property_axioms(ps))) by {
                        if is_named(ps[a as int]) && is_named(ps[b as int]) {
                            assert(equivalent_property_axioms(ps).contains(
                                AxiomView::RoleInclusion(
                                    crate::order::property_iri(ps[b as int]),
                                    crate::order::property_iri(ps[a as int]),
                                ),
                            ));
                        }
                    }
                }
                axioms = union_axioms(axioms, both);
                assert forall|m: int| 0 <= m < k + 1 implies property_pair_in(
                    ps,
                    #[trigger] pp[m],
                    axiom_set(axioms),
                ) by {
                    if m < k {
                        assert(property_pair_in(ps, pp[m], before));
                    }
                }
                k = k + 1;
            }
            assert forall|ax: AxiomView| #[trigger] equivalent_property_axioms(ps).contains(ax) implies axiom_set(
                axioms,
            ).contains(ax) by {
                let (i, j) = choose|i: int, j: int|
                    0 <= i < ps.len() && 0 <= j < ps.len() && i != j && is_named(#[trigger] ps[i])
                        && is_named(#[trigger] ps[j]) && ax == AxiomView::RoleInclusion(
                        crate::order::property_iri(ps[i]),
                        crate::order::property_iri(ps[j]),
                    );
                if i < j {
                    assert(pp.contains(pair_of(i, j)));
                    let m = choose|m: int| 0 <= m < pp.len() && pp[m] == pair_of(i, j);
                    assert(property_pair_in(ps, pp[m], axiom_set(axioms)));
                    assert(property_axioms(SubPropertyView::Single(ps[i]), ps[j]).contains(ax));
                } else {
                    assert(pp.contains(pair_of(j, i)));
                    let m = choose|m: int| 0 <= m < pp.len() && pp[m] == pair_of(j, i);
                    assert(property_pair_in(ps, pp[m], axiom_set(axioms)));
                    assert(property_axioms(SubPropertyView::Single(ps[i]), ps[j]).contains(ax));
                }
            }
            assert(axiom_set(axioms) =~= equivalent_property_axioms(ps));
            axioms
        },
        Component::ObjectPropertyDomain {
            ope: ObjectPropertyExpression::ObjectProperty(prop),
            ce: cls,
        } => match convert_expression(cls) {
            Some(c) => {
                let restriction = Rc::new(
                    Concept::ExistentialRestriction { role: prop.clone(), concept: share(&globals.thing) },
                );
                unit_axiom(concept_inclusion(&restriction, &c))
            },
            None => empty_axioms(),
        },
        Component::TransitiveObjectProperty(prop) => {
            let props = vec![copy_property(prop), copy_property(prop)];
            assert(properties_view(props@) =~= seq![prop@, prop@]);
            assert(property_iris(seq![prop@, prop@]) =~= seq![
                crate::order::property_iri(prop@),
                crate::order::property_iri(prop@),
            ]);
            let chain = Component::SubObjectPropertyOf {
                sub: SubObjectPropertyExpression::ObjectPropertyChain(props),
                sup: copy_property(prop),
            };
            translate_axiom_internal(&chain, globals)
        },
        Component::ClassAssertion { ce: cls, i: Individual::Named(ind) } => match convert_expression(cls) {
            Some(superclass) => {
                let subclass = Rc::new(Concept::Nominal { individual: ind.clone() });
                unit_axiom(concept_inclusion(&subclass, &superclass))
            },
            None => empty_axioms(),
        },
        Component::ObjectPropertyAssertion {
            ope: property_expression,
            from: Individual::Named(axiom_subject),
            to: Individual::Named(axiom_target),
        } => {
            let (subject, prop, target) = match property_expression {
                ObjectPropertyExpression::ObjectProperty(prop) => (axiom_subject, prop, axiom_target),
                ObjectPropertyExpression::InverseObjectProperty(prop) => (axiom_target, prop, axiom_subject),
            };
            let subclass = Rc::new(Concept::Nominal { individual: subject.clone() });
            let target_nominal = Rc::new(Concept::Nominal { individual: target.clone() });
            assert(target_nominal@ == nominal(target@));
            let superclass = Rc::new(
                Concept::ExistentialRestriction { role: prop.clone(), concept: target_nominal },
            );
            unit_axiom(concept_inclusion(&subclass, &superclass))
        },
        _ => empty_axioms(),
    }
}

/// The axioms of the inclusion of a property chain in the named property
/// `sup`.
fn translate_chain(props: &Vec<ObjectPropertyExpression>, sup: &String, globals: &OWLGlobals) -> (r:
    im::HashSet<Rc<Axiom>>)
    requires
        globals.well_formed(),
    ensures
        axiom_set(r) == property_axioms(
            SubPropertyView::Chain(properties_view(props@)),
            PropertyView::Named(sup@),
        ),
    decreases props@.len() + 2, 0nat,
{
    let ghost chain = properties_view(props@);
    let ghost ids = property_iris(chain);
    if chain_is_named(props) {
        let props_len = props.len();
        if props_len == 0 {
            empty_axioms()
        } else if props_len == 1 {
            let single = Component::SubObjectPropertyOf {
                sub: SubObjectPropertyExpression::ObjectPropertyExpression(copy_property(&props[0])),
                sup: ObjectPropertyExpression::ObjectProperty(sup.clone()),
            };
            assert(is_named(chain[0]));
            translate_axiom_internal(&single, globals)
        } else {
            assert(is_named(chain[0]) && is_named(chain[1]));
            match (&props[0], &props[1]) {
                (
                    ObjectPropertyExpression::ObjectProperty(first_id),
                    ObjectPropertyExpression::ObjectProperty(second_id),
                ) => {
                    if props_len < 3 {
                        unit_axiom(
                            Rc::new(
                                Axiom::RoleComposition {
                                    first: first_id.clone(),
                                    second: second_id.clone(),
                                    superproperty: sup.clone(),
                                },
                            ),
                        )
                    } else {
                        let composition_property_id = composition_role_id(first_id, second_id);
                        let comp_iri = build_iri(composition_property_id);
                        let ghost c = comp_iri@;
                        let composition_property = ObjectPropertyExpression::ObjectProperty(comp_iri);
                        let beginning = vec![
                            ObjectPropertyExpression::ObjectProperty(first_id.clone()),
                            ObjectPropertyExpression::ObjectProperty(second_id.clone()),
                        ];
                        assert(properties_view(beginning@) =~= seq![chain[0], chain[1]]);
                        assert(property_iris(seq![chain[0], chain[1]]) =~= seq![ids[0], ids[1]]);
                        let beginning_chain = translate_axiom_internal(
                            &Component::SubObjectPropertyOf {
                                sub: SubObjectPropertyExpression::ObjectPropertyChain(beginning),
                                sup: copy_property(&composition_property),
                            },
                            globals,
                        );
                        let mut new_chain = copy_properties(props);
                        new_chain.remove(0);
                        new_chain.remove(0);
                        new_chain.insert(0, composition_property);
                        let ghost rest = properties_view(new_chain@);
                        assert(rest =~= seq![PropertyView::Named(c)] + chain.skip(2));
                        assert forall|i: int| 0 <= i < rest.len() implies is_named(#[trigger] rest[i]) by {
                            if i > 0 {
                                assert(rest[i] == chain[i + 1]);
                            }
                        }
                        assert(property_iris(rest) =~= seq![c] + ids.skip(2));
                        let rest_of_chain = translate_axiom_internal(
                            &Component::SubObjectPropertyOf {
                                sub: SubObjectPropertyExpression::ObjectPropertyChain(new_chain),
                                sup: ObjectPropertyExpression::ObjectProperty(sup.clone()),
                            },
                            globals,
                        );
                        union_axioms(beginning_chain, rest_of_chain)
                    }
                },
                _ => empty_axioms(),
            }
        }
    } else {
        empty_axioms()
    }
}

/// The axioms of the reasoner that one OWL axiom stands for.
pub fn translate_axiom(component: &Component) -> (r: im::HashSet<Rc<Axiom>>)
    ensures
        axiom_set(r) == translation(component@),
{
    translate_axiom_internal(component, &make_globals())
}

/// The axioms of the reasoner that the axioms of an ontology stand for.
pub fn translate_ontology(ontology: &Vec<Component>) -> (r: im::HashSet<Rc<Axiom>>)
    ensures
        axiom_set(r) == ontology_translation(components_view(ontology@)),
{
    let globals = make_globals();
    let ghost cs = components_view(ontology@);
    let mut axioms = empty_axioms();
    let mut i: usize = 0;
    while i < ontology.len()
        invariant
            i <= ontology.len(),
            globals.well_formed(),
            cs == components_view(ontology@),
            axiom_set(axioms) == ontology_translation(cs.take(i as int)),
        decreases ontology.len() - i,
    {
        let translated = translate_axiom_internal(&ontology[i], &globals);
        let ghost before = axiom_set(axioms);
        axioms = union_axioms(axioms, translated);
        proof {
            let prefix = cs.take(i + 1);
            assert forall|ax: AxiomView| #[trigger] ontology_translation(prefix).contains(ax) <==> axiom_set(
                axioms,
            ).contains(ax) by {
                if ontology_translation(prefix).contains(ax) {
                    let k = choose|k: int| 0 <= k < prefix.len() && #[trigger] translation(prefix[k]).contains(ax);
                    if k < i {
                        assert(cs.take(i as int)[k] == prefix[k]);
                        assert(ontology_translation(cs.take(i as int)).contains(ax));
                    }
                }
                if before.contains(ax) {
                    let k = choose|k: int| 0 <= k < i && #[trigger] translation(cs.take(i as int)[k]).contains(ax);
                    assert(prefix[k] == cs.take(i as int)[k]);
                }
                if axiom_set(translated).contains(ax) {
                    assert(prefix[i as int] == ontology@[i as int]@);
                }
            }
            assert(ontology_translation(prefix) =~= axiom_set(axioms));
        }
        i = i + 1;
    }
    assert(cs.take(ontology.len() as int) =~= cs);
    axioms
}

} // verus!
