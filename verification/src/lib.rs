pub mod axiom_set;
pub mod iri;
pub mod model;
pub mod order;
pub mod owl;
pub mod pairs;
pub mod translate;
pub mod laws;
