use std::rc::Rc;

use whelk::model::{Axiom, Concept};
use whelk::owl::{
    ClassExpression, Component, Individual, ObjectPropertyExpression, SubObjectPropertyExpression,
};
use whelk::translate::{
    concept_inclusion, convert_expression, expand_conjunction, make_globals, translate_axiom,
    translate_ontology,
};

const THING: &str = "http://www.w3.org/2002/07/owl#Thing";
const NOTHING: &str = "http://www.w3.org/2002/07/owl#Nothing";
const PREFIX: &str = "http://whelk.geneontology.org/composition/";

fn iri(name: &str) -> String {
    format!("http://example.org/{}", name)
}

fn class(name: &str) -> ClassExpression {
    ClassExpression::Class(iri(name))
}

fn named(name: &str) -> ObjectPropertyExpression {
    ObjectPropertyExpression::ObjectProperty(iri(name))
}

fn inverse(name: &str) -> ObjectPropertyExpression {
    ObjectPropertyExpression::InverseObjectProperty(iri(name))
}

fn some(property: ObjectPropertyExpression, filler: ClassExpression) -> ClassExpression {
    ClassExpression::ObjectSomeValuesFrom { ope: property, bce: Box::new(filler) }
}

fn atomic(name: &str) -> Rc<Concept> {
    Rc::new(Concept::AtomicConcept { id: iri(name) })
}

fn atomic_id(id: &str) -> Rc<Concept> {
    Rc::new(Concept::AtomicConcept { id: id.to_string() })
}

fn nominal(name: &str) -> Rc<Concept> {
    Rc::new(Concept::Nominal { individual: iri(name) })
}

fn and(left: Rc<Concept>, right: Rc<Concept>) -> Rc<Concept> {
    Rc::new(Concept::Conjunction { left, right })
}

fn some_of(role: &str, concept: Rc<Concept>) -> Rc<Concept> {
    Rc::new(Concept::ExistentialRestriction { role: iri(role), concept })
}

fn sub(subclass: Rc<Concept>, superclass: Rc<Concept>) -> Rc<Axiom> {
    Rc::new(Axiom::ConceptInclusion { subclass, superclass })
}

fn role_sub(a: &str, b: &str) -> Rc<Axiom> {
    Rc::new(Axiom::RoleInclusion { subproperty: iri(a), superproperty: iri(b) })
}

fn role_comp(first: &str, second: &str, sup: &str) -> Rc<Axiom> {
    Rc::new(Axiom::RoleComposition {
        first: first.to_string(),
        second: second.to_string(),
        superproperty: sup.to_string(),
    })
}

fn set_of(axioms: Vec<Rc<Axiom>>) -> im::HashSet<Rc<Axiom>> {
    axioms.into_iter().collect()
}

fn chain(props: Vec<ObjectPropertyExpression>, sup: ObjectPropertyExpression) -> Component {
    Component::SubObjectPropertyOf {
        sub: SubObjectPropertyExpression::ObjectPropertyChain(props),
        sup,
    }
}

// --- the concept of a class expression ---------------------------------

#[test]
fn class_stands_for_atomic_concept() {
    assert_eq!(convert_expression(&class("A")), Some(atomic("A")));
}

#[test]
fn existential_on_named_property() {
    assert_eq!(
        convert_expression(&some(named("r"), class("B"))),
        Some(some_of("r", atomic("B")))
    );
}

#[test]
fn existential_on_inverse_property_stands_for_nothing() {
    assert_eq!(convert_expression(&some(inverse("r"), class("B"))), None);
}

#[test]
fn complement_of_class() {
    assert_eq!(
        convert_expression(&ClassExpression::ObjectComplementOf(Box::new(class("A")))),
        Some(Rc::new(Concept::Complement { concept: atomic("A") }))
    );
}

#[test]
fn union_and_unsupported_stand_for_nothing() {
    assert_eq!(
        convert_expression(&ClassExpression::ObjectUnionOf(vec![class("A"), class("B")])),
        None
    );
    assert_eq!(convert_expression(&ClassExpression::Unsupported), None);
    assert_eq!(
        convert_expression(&ClassExpression::ObjectComplementOf(Box::new(
            ClassExpression::Unsupported
        ))),
        None
    );
}

#[test]
fn intersection_of_two_classes_nests_smaller_on_the_left() {
    let expected = Some(and(atomic("A"), atomic("B")));
    assert_eq!(
        convert_expression(&ClassExpression::ObjectIntersectionOf(vec![class("A"), class("B")])),
        expected
    );
    assert_eq!(
        convert_expression(&ClassExpression::ObjectIntersectionOf(vec![class("B"), class("A")])),
        expected
    );
}

#[test]
fn intersection_of_three_classes() {
    let expected = Some(and(atomic("A"), and(atomic("B"), atomic("C"))));
    for operands in [
        vec![class("A"), class("B"), class("C")],
        vec![class("C"), class("A"), class("B")],
        vec![class("B"), class("C"), class("A")],
    ] {
        assert_eq!(convert_expression(&ClassExpression::ObjectIntersectionOf(operands)), expected);
    }
}

#[test]
fn intersection_orders_classes_before_restrictions() {
    let expected = Some(and(atomic("Z"), some_of("r", atomic("A"))));
    assert_eq!(
        convert_expression(&ClassExpression::ObjectIntersectionOf(vec![
            some(named("r"), class("A")),
            class("Z"),
        ])),
        expected
    );
    assert_eq!(
        convert_expression(&ClassExpression::ObjectIntersectionOf(vec![
            class("Z"),
            some(named("r"), class("A")),
        ])),
        expected
    );
}

#[test]
fn intersection_orders_iris_by_characters_with_prefix_first() {
    // "AB" comes after its prefix "A"; sorted greatest first, the prefix ends up on the left.
    let expected = Some(and(atomic("A"), atomic("AB")));
    assert_eq!(
        convert_expression(&ClassExpression::ObjectIntersectionOf(vec![class("AB"), class("A")])),
        expected
    );
}

#[test]
fn intersection_of_one_is_the_operand() {
    assert_eq!(
        convert_expression(&ClassExpression::ObjectIntersectionOf(vec![class("A")])),
        Some(atomic("A"))
    );
}

#[test]
fn empty_intersection_stands_for_nothing() {
    assert_eq!(convert_expression(&ClassExpression::ObjectIntersectionOf(vec![])), None);
}

#[test]
fn intersection_with_unsupported_operand_stands_for_nothing() {
    assert_eq!(
        convert_expression(&ClassExpression::ObjectIntersectionOf(vec![
            class("A"),
            ClassExpression::ObjectUnionOf(vec![class("B")]),
        ])),
        None
    );
}

#[test]
fn nested_intersection() {
    let inner = ClassExpression::ObjectIntersectionOf(vec![class("C"), class("D")]);
    // A class comes before an intersection, so it ends up on the left.
    let expected = Some(and(atomic("A"), and(atomic("C"), atomic("D"))));
    assert_eq!(
        convert_expression(&ClassExpression::ObjectIntersectionOf(vec![inner, class("A")])),
        expected
    );
}

// --- conjunction and axiom builders --------------------------------------

#[test]
fn expand_conjunction_cases() {
    assert_eq!(expand_conjunction(vec![]), None);
    assert_eq!(expand_conjunction(vec![atomic("A")]), Some(atomic("A")));
    assert_eq!(expand_conjunction(vec![atomic("A"), atomic("B")]), Some(and(atomic("B"), atomic("A"))));
    assert_eq!(
        expand_conjunction(vec![atomic("A"), atomic("B"), atomic("C")]),
        Some(and(atomic("C"), and(atomic("B"), atomic("A"))))
    );
}

#[test]
fn globals_are_thing_and_nothing() {
    let globals = make_globals();
    assert_eq!(globals.thing, atomic_id(THING));
    assert_eq!(globals.nothing, atomic_id(NOTHING));
}

#[test]
fn concept_inclusion_builds_inclusion() {
    assert_eq!(concept_inclusion(&atomic("A"), &atomic("B")), sub(atomic("A"), atomic("B")));
}

// --- axioms --------------------------------------------------------------

#[test]
fn declared_class_is_included_in_thing() {
    assert_eq!(
        translate_axiom(&Component::DeclareClass(iri("A"))),
        set_of(vec![sub(atomic("A"), atomic_id(THING))])
    );
}

#[test]
fn declared_individual_is_included_in_thing() {
    assert_eq!(
        translate_axiom(&Component::DeclareNamedIndividual(iri("i"))),
        set_of(vec![sub(nominal("i"), atomic_id(THING))])
    );
}

#[test]
fn subclass_of() {
    let component = Component::SubClassOf { sub: class("A"), sup: some(named("r"), class("B")) };
    assert_eq!(translate_axiom(&component), set_of(vec![sub(atomic("A"), some_of("r", atomic("B")))]));
}

#[test]
fn subclass_of_unsupported_is_dropped() {
    let component = Component::SubClassOf {
        sub: class("A"),
        sup: ClassExpression::ObjectUnionOf(vec![class("B"), class("C")]),
    };
    assert!(translate_axiom(&component).is_empty());
}

#[test]
fn equivalent_classes_include_each_other() {
    let component = Component::EquivalentClasses(vec![class("A"), class("B"), class("C")]);
    let expected = set_of(vec![
        sub(atomic("A"), atomic("B")),
        sub(atomic("B"), atomic("A")),
        sub(atomic("A"), atomic("C")),
        sub(atomic("C"), atomic("A")),
        sub(atomic("B"), atomic("C")),
        sub(atomic("C"), atomic("B")),
    ]);
    assert_eq!(translate_axiom(&component), expected);
}

#[test]
fn equivalent_to_nothing_never_puts_nothing_on_the_left() {
    let component = Component::EquivalentClasses(vec![
        class("A"),
        ClassExpression::Class(NOTHING.to_string()),
    ]);
    assert_eq!(translate_axiom(&component), set_of(vec![sub(atomic("A"), atomic_id(NOTHING))]));
}

#[test]
fn equivalent_classes_drop_unsupported_operands() {
    let component = Component::EquivalentClasses(vec![
        class("A"),
        ClassExpression::Unsupported,
        class("B"),
    ]);
    assert_eq!(
        translate_axiom(&component),
        set_of(vec![sub(atomic("A"), atomic("B")), sub(atomic("B"), atomic("A"))])
    );
}

#[test]
fn equivalent_classes_of_one_yield_nothing() {
    assert!(translate_axiom(&Component::EquivalentClasses(vec![class("A")])).is_empty());
}

#[test]
fn disjoint_classes_pairwise() {
    let component = Component::DisjointClasses(vec![class("A"), class("B"), class("C")]);
    let bottom = atomic_id(NOTHING);
    let expected = set_of(vec![
        sub(and(atomic("A"), atomic("B")), bottom.clone()),
        sub(and(atomic("A"), atomic("C")), bottom.clone()),
        sub(and(atomic("B"), atomic("C")), bottom),
    ]);
    assert_eq!(translate_axiom(&component), expected);
}

#[test]
fn disjoint_union_is_disjointness_of_operands() {
    let component = Component::DisjointUnion(iri("C"), vec![class("A"), class("B")]);
    assert_eq!(
        translate_axiom(&component),
        set_of(vec![sub(and(atomic("A"), atomic("B")), atomic_id(NOTHING))])
    );
    assert_eq!(
        translate_axiom(&component),
        translate_axiom(&Component::DisjointClasses(vec![class("A"), class("B")]))
    );
}

#[test]
fn named_property_inclusion() {
    let component = Component::SubObjectPropertyOf {
        sub: SubObjectPropertyExpression::ObjectPropertyExpression(named("p")),
        sup: named("q"),
    };
    assert_eq!(translate_axiom(&component), set_of(vec![role_sub("p", "q")]));
}

#[test]
fn inverse_property_inclusion_is_dropped() {
    let component = Component::SubObjectPropertyOf {
        sub: SubObjectPropertyExpression::ObjectPropertyExpression(inverse("p")),
        sup: named("q"),
    };
    assert!(translate_axiom(&component).is_empty());
    let component = Component::SubObjectPropertyOf {
        sub: SubObjectPropertyExpression::ObjectPropertyExpression(named("p")),
        sup: inverse("q"),
    };
    assert!(translate_axiom(&component).is_empty());
}

#[test]
fn chain_of_none_and_of_one() {
    assert!(translate_axiom(&chain(vec![], named("s"))).is_empty());
    assert_eq!(translate_axiom(&chain(vec![named("p")], named("s"))), set_of(vec![role_sub("p", "s")]));
}

#[test]
fn chain_of_two_is_a_composition() {
    assert_eq!(
        translate_axiom(&chain(vec![named("p"), named("q")], named("s"))),
        set_of(vec![role_comp(&iri("p"), &iri("q"), &iri("s"))])
    );
}

#[test]
fn chain_of_three_is_cut_at_a_composition_role() {
    let c = format!("{}{}:{}", PREFIX, iri("p"), iri("q"));
    assert_eq!(
        translate_axiom(&chain(vec![named("p"), named("q"), named("r")], named("s"))),
        set_of(vec![
            role_comp(&iri("p"), &iri("q"), &c),
            role_comp(&c, &iri("r"), &iri("s")),
        ])
    );
}

#[test]
fn chain_of_four() {
    let c1 = format!("{}{}:{}", PREFIX, iri("p"), iri("q"));
    let c2 = format!("{}{}:{}", PREFIX, c1, iri("r"));
    assert_eq!(
        translate_axiom(&chain(vec![named("p"), named("q"), named("r"), named("t")], named("s"))),
        set_of(vec![
            role_comp(&iri("p"), &iri("q"), &c1),
            role_comp(&c1, &iri("r"), &c2),
            role_comp(&c2, &iri("t"), &iri("s")),
        ])
    );
}

#[test]
fn chain_with_inverse_is_dropped() {
    assert!(translate_axiom(&chain(vec![named("p"), inverse("q")], named("s"))).is_empty());
    assert!(translate_axiom(&chain(vec![named("p"), named("q")], inverse("s"))).is_empty());
}

#[test]
fn equivalent_properties_include_each_other() {
    let component = Component::EquivalentObjectProperties(vec![named("p"), named("q"), inverse("r")]);
    assert_eq!(translate_axiom(&component), set_of(vec![role_sub("p", "q"), role_sub("q", "p")]));
}

#[test]
fn property_domain() {
    let component = Component::ObjectPropertyDomain { ope: named("r"), ce: class("A") };
    assert_eq!(
        translate_axiom(&component),
        set_of(vec![sub(some_of("r", atomic_id(THING)), atomic("A"))])
    );
    let component = Component::ObjectPropertyDomain { ope: inverse("r"), ce: class("A") };
    assert!(translate_axiom(&component).is_empty());
    let component = Component::ObjectPropertyDomain { ope: named("r"), ce: ClassExpression::Unsupported };
    assert!(translate_axiom(&component).is_empty());
}

#[test]
fn transitive_property() {
    assert_eq!(
        translate_axiom(&Component::TransitiveObjectProperty(named("r"))),
        set_of(vec![role_comp(&iri("r"), &iri("r"), &iri("r"))])
    );
    assert!(translate_axiom(&Component::TransitiveObjectProperty(inverse("r"))).is_empty());
}

#[test]
fn class_assertion() {
    let component = Component::ClassAssertion { ce: class("A"), i: Individual::Named(iri("i")) };
    assert_eq!(translate_axiom(&component), set_of(vec![sub(nominal("i"), atomic("A"))]));
    let component = Component::ClassAssertion {
        ce: class("A"),
        i: Individual::Anonymous("_:b0".to_string()),
    };
    assert!(translate_axiom(&component).is_empty());
}

#[test]
fn property_assertion() {
    let component = Component::ObjectPropertyAssertion {
        ope: named("r"),
        from: Individual::Named(iri("a")),
        to: Individual::Named(iri("b")),
    };
    assert_eq!(
        translate_axiom(&component),
        set_of(vec![sub(nominal("a"), some_of("r", nominal("b")))])
    );
    let component = Component::ObjectPropertyAssertion {
        ope: inverse("r"),
        from: Individual::Named(iri("a")),
        to: Individual::Named(iri("b")),
    };
    assert_eq!(
        translate_axiom(&component),
        set_of(vec![sub(nominal("b"), some_of("r", nominal("a")))])
    );
    let component = Component::ObjectPropertyAssertion {
        ope: named("r"),
        from: Individual::Anonymous("_:b0".to_string()),
        to: Individual::Named(iri("b")),
    };
    assert!(translate_axiom(&component).is_empty());
}

#[test]
fn other_axioms_yield_nothing() {
    assert!(translate_axiom(&Component::Other).is_empty());
}

// --- ontologies ----------------------------------------------------------

#[test]
fn ontology_is_the_union_of_its_axioms() {
    let ontology = vec![
        Component::DeclareClass(iri("A")),
        Component::SubClassOf { sub: class("A"), sup: class("B") },
        Component::EquivalentClasses(vec![class("A"), class("B")]),
        Component::Other,
    ];
    let expected = set_of(vec![
        sub(atomic("A"), atomic_id(THING)),
        sub(atomic("A"), atomic("B")),
        sub(atomic("B"), atomic("A")),
    ]);
    let translated = translate_ontology(&ontology);
    // `A ⊑ B` comes from two axioms and is held once.
    assert_eq!(translated.len(), 3);
    assert_eq!(translated, expected);
}

#[test]
fn empty_ontology_yields_nothing() {
    assert!(translate_ontology(&vec![]).is_empty());
}

#[test]
fn ontology_union_law_on_values() {
    let a = vec![Component::DeclareClass(iri("A")), Component::TransitiveObjectProperty(named("r"))];
    let b = vec![Component::DeclareNamedIndividual(iri("i"))];
    let both = vec![
        Component::DeclareClass(iri("A")),
        Component::TransitiveObjectProperty(named("r")),
        Component::DeclareNamedIndividual(iri("i")),
    ];
    assert_eq!(translate_ontology(&both), translate_ontology(&a).union(translate_ontology(&b)));
}

// --- laws on values ------------------------------------------------------

#[test]
fn law_inverse_assertion_on_values() {
    let inverse_form = Component::ObjectPropertyAssertion {
        ope: inverse("r"),
        from: Individual::Named(iri("a")),
        to: Individual::Named(iri("b")),
    };
    let named_form = Component::ObjectPropertyAssertion {
        ope: named("r"),
        from: Individual::Named(iri("b")),
        to: Individual::Named(iri("a")),
    };
    assert_eq!(translate_axiom(&inverse_form), translate_axiom(&named_form));
}

#[test]
fn law_transitive_is_chain_on_values() {
    assert_eq!(
        translate_axiom(&Component::TransitiveObjectProperty(named("r"))),
        translate_axiom(&chain(vec![named("r"), named("r")], named("r")))
    );
}

#[test]
fn law_domain_is_subclass_on_values() {
    let domain = Component::ObjectPropertyDomain { ope: named("r"), ce: class("A") };
    let subclass = Component::SubClassOf {
        sub: some(named("r"), ClassExpression::Class(THING.to_string())),
        sup: class("A"),
    };
    assert_eq!(translate_axiom(&domain), translate_axiom(&subclass));
}

#[test]
fn law_two_equivalent_classes_on_values() {
    let equivalence = Component::EquivalentClasses(vec![class("A"), some(named("r"), class("B"))]);
    let forward = Component::SubClassOf { sub: class("A"), sup: some(named("r"), class("B")) };
    let backward = Component::SubClassOf { sub: some(named("r"), class("B")), sup: class("A") };
    assert_eq!(
        translate_axiom(&equivalence),
        translate_axiom(&forward).union(translate_axiom(&backward))
    );
}

#[test]
fn law_equivalent_properties_symmetric_on_values() {
    let translated =
        translate_axiom(&Component::EquivalentObjectProperties(vec![named("p"), named("q"), named("r")]));
    for a in ["p", "q", "r"] {
        for b in ["p", "q", "r"] {
            if a != b {
                assert!(translated.contains(&role_sub(a, b)));
                assert!(translated.contains(&role_sub(b, a)));
            }
        }
    }
    assert_eq!(translated.len(), 6);
}
