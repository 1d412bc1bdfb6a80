use vstd::prelude::*;

pub mod audit;
pub mod blocks;
pub mod claims;
pub mod bump;
pub mod course;
pub mod cycle;
pub mod coverage;
pub mod course_page;
pub mod remap;
pub mod glossary_page;
pub mod harness;
pub mod highlight;
pub mod index;
pub mod links;
pub mod load;
pub mod markdown;
pub mod narrative_page;
pub mod paths;
pub mod plan;
pub mod refs;
pub mod schema;
pub mod site;
pub mod stats;
pub mod store;
pub mod store_edit;
pub mod summary;
pub mod text;
pub mod vendor;
pub mod wasm;

verus! {

} // verus!
