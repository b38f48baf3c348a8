//! Classification of Arches datatype identifiers.

use vstd::prelude::*;
use crate::text::str_eq;

verus! {

/// High-level classification of an Arches datatype.
#[derive(Debug, Clone, Copy, PartialEq, Eq, Structural)]
pub enum DatatypeClass {
    LocalizedString,
    PlainString,
    Number,
    Date,
    Boolean,
    Url,
    Concept,
    ResourceInstance,
    DomainValue,
    GeoJson,
    Semantic,
}

/// The class of a datatype identifier; `None` for unknown identifiers.
pub open spec fn spec_classify_datatype(d: Seq<char>) -> Option<DatatypeClass> {
    if d == "string"@ {
        Some(DatatypeClass::LocalizedString)
    } else if d == "non-localized-string"@ {
        Some(DatatypeClass::PlainString)
    } else if d == "number"@ {
        Some(DatatypeClass::Number)
    } else if d == "date"@ || d == "edtf"@ {
        Some(DatatypeClass::Date)
    } else if d == "boolean"@ {
        Some(DatatypeClass::Boolean)
    } else if d == "url"@ {
        Some(DatatypeClass::Url)
    } else if d == "concept"@ || d == "concept-value"@ || d == "concept-list"@ {
        Some(DatatypeClass::Concept)
    } else if d == "resource-instance"@ || d == "resource-instance-list"@ {
        Some(DatatypeClass::ResourceInstance)
    } else if d == "domain-value"@ || d == "domain-value-list"@ {
        Some(DatatypeClass::DomainValue)
    } else if d == "geojson-feature-collection"@ {
        Some(DatatypeClass::GeoJson)
    } else if d == "semantic"@ {
        Some(DatatypeClass::Semantic)
    } else {
        None
    }
}

/// Classify an Arches datatype string into a `DatatypeClass`.
///
/// Returns `None` for unknown datatypes.
pub fn classify_datatype(datatype: &str) -> (r: Option<DatatypeClass>)
    ensures
        r == spec_classify_datatype(datatype@),
{
    if str_eq(datatype, "string") {
        Some(DatatypeClass::LocalizedString)
    } else if str_eq(datatype, "non-localized-string") {
        Some(DatatypeClass::PlainString)
    } else if str_eq(datatype, "number") {
        Some(DatatypeClass::Number)
    } else if str_eq(datatype, "date") || str_eq(datatype, "edtf") {
        Some(DatatypeClass::Date)
    } else if str_eq(datatype, "boolean") {
        Some(DatatypeClass::Boolean)
    } else if str_eq(datatype, "url") {
        Some(DatatypeClass::Url)
    } else if str_eq(datatype, "concept") || str_eq(datatype, "concept-value") || str_eq(
        datatype,
        "concept-list",
    ) {
        Some(DatatypeClass::Concept)
    } else if str_eq(datatype, "resource-instance") || str_eq(datatype, "resource-instance-list") {
        Some(DatatypeClass::ResourceInstance)
    } else if str_eq(datatype, "domain-value") || str_eq(datatype, "domain-value-list") {
        Some(DatatypeClass::DomainValue)
    } else if str_eq(datatype, "geojson-feature-collection") {
        Some(DatatypeClass::GeoJson)
    } else if str_eq(datatype, "semantic") {
        Some(DatatypeClass::Semantic)
    } else {
        None
    }
}

impl DatatypeClass {
    /// Whether this datatype is an OWL ObjectProperty (a link to another
    /// entity) rather than a DatatypeProperty (a literal value).
    pub open spec fn spec_is_object_property(self) -> bool {
        self == DatatypeClass::Concept || self == DatatypeClass::ResourceInstance
    }

    pub fn is_object_property(&self) -> (r: bool)
        ensures
            r == self.spec_is_object_property(),
    {
        match self {
            DatatypeClass::Concept => true,
            DatatypeClass::ResourceInstance => true,
            _ => false,
        }
    }
}

} // verus!
