//! The set of axioms that a translation yields: an `im::HashSet`.
//!
//! The set compares axioms by their derived `Eq`, which compares the IRIs'
//! characters and the concepts' structure: two axioms are the same element
//! exactly when their views are equal. The contracts below are stated over
//! those views.
use std::rc::Rc;
use vstd::prelude::*;
use crate::model::{Axiom, AxiomView};

verus! {

#[verifier::external_type_specification]
#[verifier::external_body]
#[verifier::reject_recursive_types(A)]
#[verifier::reject_recursive_types(S)]
pub struct ExImHashSet<A, S>(im::HashSet<A, S>);

/// The axioms that a set holds, each taken by its view.
pub uninterp spec fn axiom_set(s: im::HashSet<Rc<Axiom>>) -> Set<AxiomView>;

/// `im::HashSet::new`: a set that holds nothing.
#[verifier::external_body]
pub(crate) fn empty_axioms() -> (r: im::HashSet<Rc<Axiom>>)
    ensures
        axiom_set(r) == Set::<AxiomView>::empty(),
{
    im::HashSet::new()
}

/// `im::HashSet::unit`: a set that holds `a` alone.
#[verifier::external_body]
pub(crate) fn unit_axiom(a: Rc<Axiom>) -> (r: im::HashSet<Rc<Axiom>>)
    ensures
        axiom_set(r) == Set::<AxiomView>::empty().insert(a@),
{
    im::HashSet::unit(a)
}

/// `im::HashSet::insert`: `a` joins what the set held.
#[verifier::external_body]
pub(crate) fn insert_axiom(s: &mut im::HashSet<Rc<Axiom>>, a: Rc<Axiom>)
    ensures
        axiom_set(*final(s)) == axiom_set(*old(s)).insert(a@),
{
    s.insert(a);
}

/// `im::HashSet::union`: the set holds what either set held.
#[verifier::external_body]
pub(crate) fn union_axioms(a: im::HashSet<Rc<Axiom>>, b: im::HashSet<Rc<Axiom>>) -> (r: im::HashSet<Rc<Axiom>>)
    ensures
        axiom_set(r) == axiom_set(a).union(axiom_set(b)),
{
    a.union(b)
}

} // verus!
