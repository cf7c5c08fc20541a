//! The IRIs of the vocabulary that the taxonomies are built from.

use vstd::prelude::*;

verus! {

/// `rdf:type`.
pub const RDF_TYPE: &'static str = "http://www.w3.org/1999/02/22-rdf-syntax-ns#type";

/// `rdf:Property`, the root of the taxonomy of properties.
pub const RDF_PROPERTY: &'static str = "http://www.w3.org/1999/02/22-rdf-syntax-ns#Property";

/// `rdfs:subClassOf`.
pub const RDFS_SUB_CLASS_OF: &'static str = "http://www.w3.org/2000/01/rdf-schema#subClassOf";

/// `rdfs:subPropertyOf`.
pub const RDFS_SUB_PROPERTY_OF: &'static str = "http://www.w3.org/2000/01/rdf-schema#subPropertyOf";

/// `rdfs:domain`.
pub const RDFS_DOMAIN: &'static str = "http://www.w3.org/2000/01/rdf-schema#domain";

/// `rdfs:range`.
pub const RDFS_RANGE: &'static str = "http://www.w3.org/2000/01/rdf-schema#range";

/// `owl:Class`, the root of the taxonomy of classes.
pub const OWL_CLASS: &'static str = "http://www.w3.org/2002/07/owl#Class";

/// The sub-organization predicate of the university benchmark, which
/// counts as a sub-class relation.
pub const LUBM_SUB_ORGANIZATION: &'static str =
    "http://swat.cse.lehigh.edu/onto/univ-bench.owl#subOrganizationOf";

} // verus!
