//! URI construction for RDF namespace terms: `{base_uri}{type}/{id}`.

use vstd::prelude::*;
use crate::datatype_class::{classify_datatype, spec_classify_datatype, DatatypeClass};
use crate::text::concat;

verus! {

/// Construct a resource instance URI.
pub fn resource_uri(base_uri: &str, resource_id: &str) -> (r: String)
    ensures
        r@ == base_uri@ + "resource/"@ + resource_id@,
{
    let p = resource_prefix(base_uri);
    concat(p.as_str(), resource_id)
}

/// Construct a concept URI.
pub fn concept_uri(base_uri: &str, concept_id: &str) -> (r: String)
    ensures
        r@ == base_uri@ + "concept/"@ + concept_id@,
{
    let p = concept_prefix(base_uri);
    concat(p.as_str(), concept_id)
}

/// Construct a node (property) URI from an alias.
pub fn node_uri(base_uri: &str, alias: &str) -> (r: String)
    ensures
        r@ == base_uri@ + "node/"@ + alias@,
{
    let p = concat(base_uri, "node/");
    concat(p.as_str(), alias)
}

/// Construct a graph (class) URI.
pub fn graph_uri(base_uri: &str, graph_id: &str) -> (r: String)
    ensures
        r@ == base_uri@ + "graph/"@ + graph_id@,
{
    let p = concat(base_uri, "graph/");
    concat(p.as_str(), graph_id)
}

/// Construct a collection (concept scheme) URI.
pub fn collection_uri(base_uri: &str, collection_id: &str) -> (r: String)
    ensures
        r@ == base_uri@ + "collection/"@ + collection_id@,
{
    let p = concat(base_uri, "collection/");
    concat(p.as_str(), collection_id)
}

/// The `{base_uri}resource/` prefix.
pub fn resource_prefix(base_uri: &str) -> (r: String)
    ensures
        r@ == base_uri@ + "resource/"@,
{
    concat(base_uri, "resource/")
}

/// The `{base_uri}concept/` prefix.
pub fn concept_prefix(base_uri: &str) -> (r: String)
    ensures
        r@ == base_uri@ + "concept/"@,
{
    concat(base_uri, "concept/")
}

/// The prefix under which values of a datatype are interned.
pub open spec fn spec_prefix_for_datatype(base_uri: Seq<char>, datatype: Seq<char>) -> Seq<char> {
    match spec_classify_datatype(datatype) {
        Some(DatatypeClass::ResourceInstance) => base_uri + "resource/"@,
        Some(DatatypeClass::Concept) => base_uri + "concept/"@,
        _ => base_uri + "value/"@,
    }
}

/// The URI prefix for interning dictionary values of the given datatype.
pub fn prefix_for_datatype(base_uri: &str, datatype: &str) -> (r: String)
    ensures
        r@ == spec_prefix_for_datatype(base_uri@, datatype@),
{
    match classify_datatype(datatype) {
        Some(DatatypeClass::ResourceInstance) => resource_prefix(base_uri),
        Some(DatatypeClass::Concept) => concept_prefix(base_uri),
        _ => concat(base_uri, "value/"),
    }
}

/// A base URI ending in `/`: the URI itself when it does, else with `/`
/// added.
pub fn normalize_base_uri(base_uri: &str) -> (r: String)
    ensures
        r@ == (if base_uri@.len() > 0 && base_uri@.last() == '/' {
            base_uri@
        } else {
            base_uri@ + "/"@
        }),
{
    let mut last_slash = false;
    let ghost mut n: int = 0;
    for c in it: base_uri.chars()
        invariant
            it.seq() == base_uri@,
            n == it.index(),
            last_slash == (n > 0 && base_uri@[n - 1] == '/'),
    {
        proof {
            assert(base_uri@[n] == c);
            n = n + 1;
        }
        last_slash = c == '/';
    }
    if last_slash {
        base_uri.to_string()
    } else {
        concat(base_uri, "/")
    }
}

} // verus!
