//! The reasoner's own language: concepts, and the axioms built from them.
use std::rc::Rc;
use vstd::prelude::*;

verus! {

/// A concept. Roles and individuals are named by their IRIs.
#[derive(Clone, Debug, PartialEq, Eq, Hash)]
pub enum Concept {
    AtomicConcept { id: String },
    Nominal { individual: String },
    Conjunction { left: Rc<Concept>, right: Rc<Concept> },
    ExistentialRestriction { role: String, concept: Rc<Concept> },
    Complement { concept: Rc<Concept> },
}

/// The mathematical value of a [`Concept`].
pub enum ConceptView {
    Atomic(Seq<char>),
    Nominal(Seq<char>),
    Conjunction(Box<ConceptView>, Box<ConceptView>),
    Existential(Seq<char>, Box<ConceptView>),
    Complement(Box<ConceptView>),
}

pub open spec fn concept_view(c: Concept) -> ConceptView
    decreases c,
{
    match c {
        Concept::AtomicConcept { id } => ConceptView::Atomic(id@),
        Concept::Nominal { individual } => ConceptView::Nominal(individual@),
        Concept::Conjunction { left, right } => ConceptView::Conjunction(
            Box::new(concept_view(*left)),
            Box::new(concept_view(*right)),
        ),
        Concept::ExistentialRestriction { role, concept } => ConceptView::Existential(
            role@,
            Box::new(concept_view(*concept)),
        ),
        Concept::Complement { concept } => ConceptView::Complement(
            Box::new(concept_view(*concept)),
        ),
    }
}

impl View for Concept {
    type V = ConceptView;

    open spec fn view(&self) -> ConceptView {
        concept_view(*self)
    }
}

/// An axiom of the reasoner: a concept inclusion, a role inclusion, or a
/// role composition `first ∘ second ⊑ superproperty`.
#[derive(Clone, Debug, PartialEq, Eq, Hash)]
pub enum Axiom {
    ConceptInclusion { subclass: Rc<Concept>, superclass: Rc<Concept> },
    RoleInclusion { subproperty: String, superproperty: String },
    RoleComposition { first: String, second: String, superproperty: String },
}

/// The mathematical value of an [`Axiom`].
pub enum AxiomView {
    ConceptInclusion(ConceptView, ConceptView),
    RoleInclusion(Seq<char>, Seq<char>),
    RoleComposition(Seq<char>, Seq<char>, Seq<char>),
}

impl View for Axiom {
    type V = AxiomView;

    open spec fn view(&self) -> AxiomView {
        match self {
            Axiom::ConceptInclusion { subclass, superclass } => AxiomView::ConceptInclusion(
                subclass@,
                superclass@,
            ),
            Axiom::RoleInclusion { subproperty, superproperty } => AxiomView::RoleInclusion(
                subproperty@,
                superproperty@,
            ),
            Axiom::RoleComposition { first, second, superproperty } => AxiomView::RoleComposition(
                first@,
                second@,
                superproperty@,
            ),
        }
    }
}

/// The IRI of the top concept, `owl:Thing`.
pub open spec fn top_id() -> Seq<char> {
    "http://www.w3.org/2002/07/owl#Thing"@
}

/// The IRI of the bottom concept, `owl:Nothing`.
pub open spec fn bottom_id() -> Seq<char> {
    "http://www.w3.org/2002/07/owl#Nothing"@
}

/// The prefix of the IRIs of the roles that stand for a composition of two
/// roles in a long property chain.
pub open spec fn composition_prefix() -> Seq<char> {
    "http://whelk.geneontology.org/composition/"@
}

/// The IRI of the role that stands for the composition of `first` and
/// `second`: the prefix, `first`, a colon, `second`.
pub open spec fn composition_id(first: Seq<char>, second: Seq<char>) -> Seq<char> {
    composition_prefix() + first + ":"@ + second
}

pub fn top() -> (r: String)
    ensures
        r@ == top_id(),
{
    String::from_str("http://www.w3.org/2002/07/owl#Thing")
}

pub fn bottom() -> (r: String)
    ensures
        r@ == bottom_id(),
{
    String::from_str("http://www.w3.org/2002/07/owl#Nothing")
}

pub fn composition_role_prefix() -> (r: String)
    ensures
        r@ == composition_prefix(),
{
    String::from_str("http://whelk.geneontology.org/composition/")
}

/// Builds the IRI of the role that stands for `first ∘ second`.
pub fn composition_role_id(first: &String, second: &String) -> (r: String)
    ensures
        r@ == composition_id(first@, second@),
{
    let mut id = composition_role_prefix();
    id.append(first.as_str());
    id.append(":");
    id.append(second.as_str());
    id
}

/// Another pointer to the same concept (`Rc::clone`): the pointed-to concept
/// is the same one.
#[verifier::external_body]
pub(crate) fn share(c: &Rc<Concept>) -> (r: Rc<Concept>)
    ensures
        *r == **c,
{
    Rc::clone(c)
}

/// Structural equality of concepts.
pub fn concepts_equal(a: &Concept, b: &Concept) -> (r: bool)
    ensures
        r == (a@ == b@),
    decreases a,
{
    match (a, b) {
        (Concept::AtomicConcept { id: x }, Concept::AtomicConcept { id: y }) => *x == *y,
        (Concept::Nominal { individual: x }, Concept::Nominal { individual: y }) => *x == *y,
        (
            Concept::Conjunction { left: l1, right: r1 },
            Concept::Conjunction { left: l2, right: r2 },
        ) => concepts_equal(l1, l2) && concepts_equal(r1, r2),
        (
            Concept::ExistentialRestriction { role: p, concept: c1 },
            Concept::ExistentialRestriction { role: q, concept: c2 },
        ) => *p == *q && concepts_equal(c1, c2),
        (Concept::Complement { concept: c1 }, Concept::Complement { concept: c2 }) =>
            concepts_equal(c1, c2),
        _ => false,
    }
}

} // verus!
