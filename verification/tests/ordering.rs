use whelk::model::{composition_role_id, concepts_equal, Concept};
use whelk::order::{compare_expressions, compare_iris, compare_properties, sort_descending};
use whelk::owl::{ClassExpression, ObjectPropertyExpression};
use std::rc::Rc;

fn class(name: &str) -> ClassExpression {
    ClassExpression::Class(name.to_string())
}

#[test]
fn iris_compare_by_characters() {
    assert_eq!(compare_iris(&"a".to_string(), &"b".to_string()), -1);
    assert_eq!(compare_iris(&"b".to_string(), &"a".to_string()), 1);
    assert_eq!(compare_iris(&"ab".to_string(), &"ab".to_string()), 0);
    assert_eq!(compare_iris(&"a".to_string(), &"ab".to_string()), -1);
    assert_eq!(compare_iris(&"".to_string(), &"".to_string()), 0);
    assert_eq!(compare_iris(&"é".to_string(), &"z".to_string()), 1);
}

#[test]
fn named_properties_come_before_inverses() {
    let p = ObjectPropertyExpression::ObjectProperty("z".to_string());
    let q = ObjectPropertyExpression::InverseObjectProperty("a".to_string());
    assert_eq!(compare_properties(&p, &q), -1);
    assert_eq!(compare_properties(&q, &p), 1);
}

#[test]
fn expressions_compare_by_constructor_then_fields() {
    let some = ClassExpression::ObjectSomeValuesFrom {
        ope: ObjectPropertyExpression::ObjectProperty("r".to_string()),
        bce: Box::new(class("a")),
    };
    let intersection = ClassExpression::ObjectIntersectionOf(vec![class("a"), class("b")]);
    let shorter = ClassExpression::ObjectIntersectionOf(vec![class("a")]);
    assert_eq!(compare_expressions(&class("z"), &some), -1);
    assert_eq!(compare_expressions(&some, &intersection), 1);
    assert_eq!(compare_expressions(&shorter, &intersection), -1);
    assert_eq!(compare_expressions(&intersection, &intersection), 0);
    assert_eq!(compare_expressions(&ClassExpression::Unsupported, &ClassExpression::Unsupported), 0);
}

#[test]
fn sorting_puts_greatest_first() {
    let a = class("a");
    let b = class("b");
    let c = class("c");
    let items = vec![&b, &a, &c];
    let sorted = sort_descending(&items);
    let names: Vec<&ClassExpression> = sorted;
    assert_eq!(compare_expressions(names[0], &c), 0);
    assert_eq!(compare_expressions(names[1], &b), 0);
    assert_eq!(compare_expressions(names[2], &a), 0);
}

#[test]
fn composition_role_names() {
    assert_eq!(
        composition_role_id(&"p".to_string(), &"q".to_string()),
        "http://whelk.geneontology.org/composition/p:q"
    );
}

#[test]
fn structural_equality_of_concepts() {
    let a = Concept::Conjunction {
        left: Rc::new(Concept::AtomicConcept { id: "a".to_string() }),
        right: Rc::new(Concept::Nominal { individual: "i".to_string() }),
    };
    let b = Concept::Conjunction {
        left: Rc::new(Concept::AtomicConcept { id: "a".to_string() }),
        right: Rc::new(Concept::Nominal { individual: "i".to_string() }),
    };
    let c = Concept::Complement { concept: Rc::new(Concept::AtomicConcept { id: "a".to_string() }) };
    assert!(concepts_equal(&a, &b));
    assert!(!concepts_equal(&a, &c));
}
