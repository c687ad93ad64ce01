//! The OWL 2 axioms and class expressions that the translation reads.
//!
//! Every IRI is held as its string. Constructs that the translation does not
//! read are collapsed into `Unsupported` (class expressions) or `Other`
//! (axioms): the translation answers them with nothing.
use vstd::prelude::*;

verus! {

/// An object property, or the inverse of one.
#[derive(Clone, Debug)]
pub enum ObjectPropertyExpression {
    ObjectProperty(String),
    InverseObjectProperty(String),
}

/// The mathematical value of an [`ObjectPropertyExpression`].
pub enum PropertyView {
    Named(Seq<char>),
    Inverse(Seq<char>),
}

impl View for ObjectPropertyExpression {
    type V = PropertyView;

    open spec fn view(&self) -> PropertyView {
        match self {
            ObjectPropertyExpression::ObjectProperty(iri) => PropertyView::Named(iri@),
            ObjectPropertyExpression::InverseObjectProperty(iri) => PropertyView::Inverse(iri@),
        }
    }
}

/// The left-hand side of an object property inclusion: a chain of
/// properties, or a single one.
#[derive(Clone, Debug)]
pub enum SubObjectPropertyExpression {
    ObjectPropertyChain(Vec<ObjectPropertyExpression>),
    ObjectPropertyExpression(ObjectPropertyExpression),
}

pub enum SubPropertyView {
    Chain(Seq<PropertyView>),
    Single(PropertyView),
}

pub open spec fn properties_view(s: Seq<ObjectPropertyExpression>) -> Seq<PropertyView> {
    s.map_values(|p: ObjectPropertyExpression| p@)
}

impl View for SubObjectPropertyExpression {
    type V = SubPropertyView;

    open spec fn view(&self) -> SubPropertyView {
        match self {
            SubObjectPropertyExpression::ObjectPropertyChain(chain) => SubPropertyView::Chain(
                properties_view(chain@),
            ),
            SubObjectPropertyExpression::ObjectPropertyExpression(p) => SubPropertyView::Single(p@),
        }
    }
}

/// An individual: anonymous (a blank node id) or named by an IRI.
#[derive(Clone, Debug)]
pub enum Individual {
    Anonymous(String),
    Named(String),
}

pub enum IndividualView {
    Anonymous(Seq<char>),
    Named(Seq<char>),
}

impl View for Individual {
    type V = IndividualView;

    open spec fn view(&self) -> IndividualView {
        match self {
            Individual::Anonymous(id) => IndividualView::Anonymous(id@),
            Individual::Named(iri) => IndividualView::Named(iri@),
        }
    }
}

/// A class expression. The variants stand in the order of OWL's own
/// class expression type, which the ordering of `order.rs` follows;
/// `Unsupported` stands for every constructor that the translation does not
/// read (enumerations, universal and cardinality restrictions, data
/// restrictions, ...).
#[derive(Debug)]
pub enum ClassExpression {
    Class(String),
    ObjectIntersectionOf(Vec<ClassExpression>),
    ObjectUnionOf(Vec<ClassExpression>),
    ObjectComplementOf(Box<ClassExpression>),
    ObjectSomeValuesFrom { ope: ObjectPropertyExpression, bce: Box<ClassExpression> },
    Unsupported,
}

/// The mathematical value of a [`ClassExpression`].
pub enum ExprView {
    Class(Seq<char>),
    Intersection(Seq<ExprView>),
    Union(Seq<ExprView>),
    Complement(Box<ExprView>),
    SomeValuesFrom(PropertyView, Box<ExprView>),
    Unsupported,
}

pub open spec fn expression_view(e: ClassExpression) -> ExprView
    decreases e, 1nat,
{
    match e {
        ClassExpression::Class(iri) => ExprView::Class(iri@),
        ClassExpression::ObjectIntersectionOf(es) => ExprView::Intersection(expressions_view(es@)),
        ClassExpression::ObjectUnionOf(es) => ExprView::Union(expressions_view(es@)),
        ClassExpression::ObjectComplementOf(inner) => ExprView::Complement(
            Box::new(expression_view(*inner)),
        ),
        ClassExpression::ObjectSomeValuesFrom { ope, bce } => ExprView::SomeValuesFrom(
            ope@,
            Box::new(expression_view(*bce)),
        ),
        ClassExpression::Unsupported => ExprView::Unsupported,
    }
}

pub open spec fn expressions_view(s: Seq<ClassExpression>) -> Seq<ExprView>
    decreases s, 0nat,
{
    Seq::new(
        s.len(),
        |i: int|
            if 0 <= i < s.len() {
                expression_view(s[i])
            } else {
                ExprView::Unsupported
            },
    )
}

impl View for ClassExpression {
    type V = ExprView;

    open spec fn view(&self) -> ExprView {
        expression_view(*self)
    }
}

/// The axioms of an ontology, as far as the translation reads them.
#[derive(Debug)]
pub enum Component {
    DeclareClass(String),
    DeclareNamedIndividual(String),
    SubClassOf { sub: ClassExpression, sup: ClassExpression },
    EquivalentClasses(Vec<ClassExpression>),
    DisjointClasses(Vec<ClassExpression>),
    DisjointUnion(String, Vec<ClassExpression>),
    SubObjectPropertyOf { sub: SubObjectPropertyExpression, sup: ObjectPropertyExpression },
    EquivalentObjectProperties(Vec<ObjectPropertyExpression>),
    ObjectPropertyDomain { ope: ObjectPropertyExpression, ce: ClassExpression },
    TransitiveObjectProperty(ObjectPropertyExpression),
    ClassAssertion { ce: ClassExpression, i: Individual },
    ObjectPropertyAssertion {
        ope: ObjectPropertyExpression,
        from: Individual,
        to: Individual,
    },
    Other,
}

/// The mathematical value of a [`Component`].
pub enum ComponentView {
    DeclareClass(Seq<char>),
    DeclareNamedIndividual(Seq<char>),
    SubClassOf(ExprView, ExprView),
    EquivalentClasses(Seq<ExprView>),
    DisjointClasses(Seq<ExprView>),
    DisjointUnion(Seq<char>, Seq<ExprView>),
    SubObjectPropertyOf(SubPropertyView, PropertyView),
    EquivalentObjectProperties(Seq<PropertyView>),
    ObjectPropertyDomain(PropertyView, ExprView),
    TransitiveObjectProperty(PropertyView),
    ClassAssertion(ExprView, IndividualView),
    ObjectPropertyAssertion(PropertyView, IndividualView, IndividualView),
    Other,
}

impl View for Component {
    type V = ComponentView;

    open spec fn view(&self) -> ComponentView {
        match self {
            Component::DeclareClass(iri) => ComponentView::DeclareClass(iri@),
            Component::DeclareNamedIndividual(iri) => ComponentView::DeclareNamedIndividual(iri@),
            Component::SubClassOf { sub, sup } => ComponentView::SubClassOf(sub@, sup@),
            Component::EquivalentClasses(es) => ComponentView::EquivalentClasses(
                expressions_view(es@),
            ),
            Component::DisjointClasses(es) => ComponentView::DisjointClasses(
                expressions_view(es@),
            ),
            Component::DisjointUnion(iri, es) => ComponentView::DisjointUnion(
                iri@,
                expressions_view(es@),
            ),
            Component::SubObjectPropertyOf { sub, sup } => ComponentView::SubObjectPropertyOf(
                sub@,
                sup@,
            ),
            Component::EquivalentObjectProperties(ps) => ComponentView::EquivalentObjectProperties(
                properties_view(ps@),
            ),
            Component::ObjectPropertyDomain { ope, ce } => ComponentView::ObjectPropertyDomain(
                ope@,
                ce@,
            ),
            Component::TransitiveObjectProperty(p) => ComponentView::TransitiveObjectProperty(p@),
            Component::ClassAssertion { ce, i } => ComponentView::ClassAssertion(ce@, i@),
            Component::ObjectPropertyAssertion { ope, from, to } =>
                ComponentView::ObjectPropertyAssertion(ope@, from@, to@),
            Component::Other => ComponentView::Other,
        }
    }
}

} // verus!
