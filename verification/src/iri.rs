//! IRIs made with horned-owl.
use horned_owl::model::Build;
use vstd::prelude::*;

verus! {

/// `Build::iri` of horned-owl, read back through the IRI's `Display`: the
/// IRI holds the string that it was built from, and displays it unchanged.
#[verifier::external_body]
pub(crate) fn build_iri(s: String) -> (r: String)
    ensures
        r@ == s@,
{
    Build::new_rc().iri(s).to_string()
}

} // verus!
