//! Page-based static index for SPARQL-style queries over heritage data:
//! binary file formats, dictionary encoding, quantisation and summary
//! routing, each with its contract proved.

pub mod codec;

pub mod sort;
pub mod text;
pub mod datatype_class;
pub mod uri;
pub mod quantize;
pub mod calendar;
pub mod hilbert_inverse;
pub mod page_file;
pub mod tile_content_file;
pub mod concept_intervals;
pub mod summary_quads;
pub mod dictionary;
pub mod resource_map;
pub mod concept_tree;
pub mod concept_build;
pub mod page_cache;
pub mod decimal;
pub mod hilbert;
pub mod page_assignment;
pub mod value_extract;
pub mod rdf_export;
pub mod tile_source;
pub mod resource_listing;
pub mod query_results;
pub mod range_response;

pub use concept_intervals::{ConceptInterval, ConceptIntervalIndex};
pub use concept_tree::{CollectionHeader, ConceptEntry, ConceptInfo, ConceptTree};
pub use dictionary::{detect_prefixes, Dictionary, IndexedDictionary};
pub use page_cache::{FetchPlan, PageCache, PageFetchSpec};
pub use page_file::{
    binary_search_object, full_header_size, parse_page_header, parse_records,
    parse_resource_meta, range_search_object, serialize_resource_meta, write_page_file,
    PageHeader, PredicateBlock, PredicateEntry, ResourceMeta,
};
pub use quantize::{
    dequantize_date, quantize_bool, quantize_date, quantize_dictionary_id,
    quantize_type_for_datatype, PageRecord, QuantizeType,
};
pub use rdf_export::{
    collection_to_triples, graph_schema_to_triples, resource_to_triples, triples_to_ntriples,
    Term, Triple, TripleError,
};
pub use resource_map::ResourceMap;
pub use summary_quads::{serialize_summary, SummaryBuilder, SummaryIndex, SummaryQuad};
pub use tile_content_file::{
    parse_tile_content_header, tile_full_header_size, write_tile_content_file, TileContentEntry,
    TileContentHeader,
};
