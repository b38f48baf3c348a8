use ros_madair::rdf_export::{
    collection_to_triples, collection_to_triples_json, graph_schema_to_triples, lang_literal, literal, resource_to_triples,
    string_literal, triples_to_ntriples, uri, GraphNode, GraphSchema, ResourceTile, Term,
    TileValue, Triple, TripleError, RDF_TYPE,
};
use ros_madair::value_extract::JsonValue;

fn node(id: &str, alias: &str, datatype: &str, name: &str) -> GraphNode {
    GraphNode {
        node_id: id.into(),
        alias: Some(alias.into()),
        datatype: datatype.into(),
        name: name.into(),
    }
}

fn make_test_graph() -> GraphSchema {
    GraphSchema {
        graph_id: "graph-001".into(),
        name_en: "Heritage Place".into(),
        nodes: vec![
            node("node-1", "name_value", "string", "Name"),
            node("node-2", "year_built", "number", "Year Built"),
        ],
    }
}

fn value(node_id: &str, v: JsonValue) -> TileValue {
    TileValue { node_id: node_id.into(), value: v, wkt: None }
}

fn make_test_tiles() -> Vec<ResourceTile> {
    vec![
        ResourceTile {
            data: vec![value(
                "node-1",
                JsonValue::Object(vec![("en".into(), JsonValue::Str("Belfast Castle".into()))]),
            )],
        },
        ResourceTile {
            data: vec![value("node-2", JsonValue::Number { text: "1870".into(), integral: true })],
        },
    ]
}

fn named(t: &Term) -> Option<&str> {
    match t {
        Term::NamedNode(u) => Some(u.as_str()),
        _ => None,
    }
}

#[test]
fn test_resource_to_triples_basic() {
    let graph = make_test_graph();
    let tiles = make_test_tiles();
    let base = "https://example.org/";

    let triples = resource_to_triples(&graph, "res-001", &tiles, base).unwrap();
    assert!(triples.len() >= 3, "Expected at least 3 triples, got {}", triples.len());

    assert!(triples.iter().any(|t| named(&t.predicate) == Some(RDF_TYPE)
        && named(&t.object) == Some("https://example.org/graph/graph-001")));
    assert!(triples
        .iter()
        .any(|t| named(&t.predicate).map_or(false, |u| u.ends_with("node/name_value"))));
    assert!(triples
        .iter()
        .any(|t| named(&t.predicate).map_or(false, |u| u.ends_with("node/year_built"))));
}

#[test]
fn test_ntriples_output() {
    let triple = Triple::new(
        uri("http://example.org/s"),
        uri("http://example.org/p"),
        lang_literal("hello \"world\"", "en"),
    );
    assert_eq!(
        triple.to_ntriples(),
        "<http://example.org/s> <http://example.org/p> \"hello \\\"world\\\"\"@en ."
    );
}

#[test]
fn rdf_resource_triples_exact() {
    let graph = make_test_graph();
    let triples = resource_to_triples(&graph, "res-001", &make_test_tiles(), "https://e.org/").unwrap();
    let text = triples_to_ntriples(&triples);
    assert_eq!(
        text,
        "<https://e.org/resource/res-001> <http://www.w3.org/1999/02/22-rdf-syntax-ns#type> <https://e.org/graph/graph-001> .\n\
<https://e.org/resource/res-001> <https://e.org/node/name_value> \"Belfast Castle\"@en .\n\
<https://e.org/resource/res-001> <https://e.org/node/year_built> \"1870\"^^<http://www.w3.org/2001/XMLSchema#integer> ."
    );
}

#[test]
fn rdf_resource_skips_null_unknown_and_semantic() {
    let mut graph = make_test_graph();
    graph.nodes.push(node("node-3", "group", "semantic", "Group"));
    graph.nodes.push(GraphNode { node_id: "node-4".into(), alias: None, datatype: "string".into(), name: "N".into() });
    let tiles = vec![ResourceTile {
        data: vec![
            value("node-1", JsonValue::Null),
            value("node-9", JsonValue::Str("x".into())),
            value("node-3", JsonValue::Str("x".into())),
            value("node-4", JsonValue::Str("x".into())),
        ],
    }];
    let triples = resource_to_triples(&graph, "r", &tiles, "b/").unwrap();
    assert_eq!(triples.len(), 1);
}

#[test]
fn rdf_value_classes() {
    let graph = GraphSchema {
        graph_id: "g".into(),
        name_en: "".into(),
        nodes: vec![
            node("c", "kind", "concept", "Kind"),
            node("r", "rel", "resource-instance-list", "Rel"),
            node("b", "flag", "boolean", "Flag"),
            node("d", "when", "date", "When"),
            node("u", "link", "url", "Link"),
            node("g", "geo", "geojson-feature-collection", "Geo"),
            node("v", "dv", "domain-value-list", "Dv"),
            node("n", "num", "number", "Num"),
        ],
    };
    let tiles = vec![ResourceTile {
        data: vec![
            value("c", JsonValue::Array(vec![JsonValue::Str("c1".into())])),
            value("r", JsonValue::Array(vec![JsonValue::Object(vec![("resourceId".into(), JsonValue::Str("r9".into()))])])),
            value("b", JsonValue::Bool(false)),
            value("d", JsonValue::Str("2020-01-02".into())),
            value("u", JsonValue::Object(vec![("url".into(), JsonValue::Str("https://x".into()))])),
            TileValue { node_id: "g".into(), value: JsonValue::Object(vec![]), wkt: Some("POINT (1 2)".into()) },
            value("v", JsonValue::Array(vec![JsonValue::Str("a".into()), JsonValue::Bool(true)])),
            value("n", JsonValue::Number { text: "2.5".into(), integral: false }),
        ],
    }];
    let t = resource_to_triples(&graph, "x", &tiles, "B/").unwrap();
    assert_eq!(t.len(), 9);
    assert_eq!(t[1].object, uri("B/concept/c1"));
    assert_eq!(t[2].object, uri("B/resource/r9"));
    assert_eq!(t[3].object, literal("false", "http://www.w3.org/2001/XMLSchema#boolean"));
    assert_eq!(t[4].object, literal("2020-01-02", "http://www.w3.org/2001/XMLSchema#date"));
    assert_eq!(t[5].object, uri("https://x"));
    assert_eq!(t[6].predicate, uri("http://www.opengis.net/ont/geosparql#asWKT"));
    assert_eq!(t[6].object, literal("POINT (1 2)", "http://www.opengis.net/ont/geosparql#wktLiteral"));
    assert_eq!(t[7].object, string_literal("a"));
    assert_eq!(t[8].object, literal("2.5", "http://www.w3.org/2001/XMLSchema#decimal"));
}

#[test]
fn rdf_term_escaping() {
    let t = literal("a\\b\nc\rd\"", "dt");
    assert_eq!(t.to_ntriples(), "\"a\\\\b\\nc\\rd\\\"\"^^<dt>");
    let plain = Term::Literal { value: "x".into(), datatype: None, language: None };
    assert_eq!(plain.to_ntriples(), "\"x\"");
    assert_eq!(triples_to_ntriples(&[]), "");
}

#[test]
fn rdf_graph_schema_declarations() {
    let mut graph = make_test_graph();
    graph.nodes.push(node("node-3", "kind", "concept", "Kind"));
    graph.nodes.push(node("node-4", "group", "semantic", "Group"));
    graph.nodes.push(node("node-5", "dv", "domain-value", "Dv"));
    let t = graph_schema_to_triples(&graph, "B/").unwrap();
    // class + label, 4 each for name/year/kind, 3 for the domain value node
    assert_eq!(t.len(), 2 + 4 + 4 + 4 + 3);
    assert_eq!(t[0], Triple::new(uri("B/graph/graph-001"), uri(RDF_TYPE), uri("http://www.w3.org/2002/07/owl#Class")));
    assert_eq!(t[1].object, lang_literal("Heritage Place", "en"));
    assert_eq!(t[10].object, uri("http://www.w3.org/2002/07/owl#ObjectProperty"));
    assert_eq!(t[13].object, uri("http://www.w3.org/2004/02/skos/core#Concept"));
    graph.name_en = String::new();
    assert_eq!(graph_schema_to_triples(&graph, "B/").unwrap().len(), 1 + 4 + 4 + 4 + 3);
}

#[test]
fn rdf_collection_to_skos() {
    let concepts = vec![
        JsonValue::Object(vec![
            ("id".into(), JsonValue::Str("c1".into())),
            ("prefLabels".into(), JsonValue::Object(vec![("en".into(), JsonValue::Str("Castle".into()))])),
            ("altLabels".into(), JsonValue::Object(vec![("en".into(), JsonValue::Array(vec![JsonValue::Str("Fort".into())]))])),
            ("scopeNote".into(), JsonValue::Object(vec![("en".into(), JsonValue::Str("A note".into()))])),
            ("narrower".into(), JsonValue::Array(vec![JsonValue::Str("c2".into())])),
        ]),
        JsonValue::Object(vec![
            ("id".into(), JsonValue::Str("c2".into())),
            ("prefLabel".into(), JsonValue::Str("Keep".into())),
            ("broader".into(), JsonValue::Array(vec![JsonValue::Str("c1".into())])),
        ]),
    ];
    let t = collection_to_triples("col", &concepts, "B/").unwrap();
    let text = triples_to_ntriples(&t);
    let lines: Vec<&str> = text.lines().collect();
    assert_eq!(lines.len(), 1 + 7 + 4);
    assert_eq!(lines[0], "<B/collection/col> <http://www.w3.org/1999/02/22-rdf-syntax-ns#type> <http://www.w3.org/2004/02/skos/core#ConceptScheme> .");
    assert_eq!(lines[7], "<B/collection/col> <http://www.w3.org/2004/02/skos/core#hasTopConcept> <B/concept/c1> .");
    assert_eq!(lines[10], "<B/concept/c2> <http://www.w3.org/2004/02/skos/core#prefLabel> \"Keep\"^^<http://www.w3.org/2001/XMLSchema#string> .");
    assert_eq!(lines[11], "<B/concept/c2> <http://www.w3.org/2004/02/skos/core#broader> <B/concept/c1> .");
}

#[test]
fn rdf_collection_missing_id_is_an_error() {
    let concepts = vec![JsonValue::Object(vec![("label".into(), JsonValue::Str("x".into()))])];
    match collection_to_triples("col", &concepts, "B/") {
        Err(TripleError::MissingField(f)) => assert_eq!(f, "concept id"),
        _ => panic!("expected a missing field error"),
    }
}

#[test]
fn rdf_collection_from_json_text() {
    let json = r#"[{"id": "c1", "prefLabel": "Keep", "narrower": ["c2"]}, {"id": "c2", "prefLabel": "Sub"}]"#;
    let t = collection_to_triples_json("col", json, "B/").unwrap();
    let text = triples_to_ntriples(&t);
    assert!(text.starts_with("<B/collection/col> <http://www.w3.org/1999/02/22-rdf-syntax-ns#type>"));
    assert!(text.contains("<B/concept/c1> <http://www.w3.org/2004/02/skos/core#narrower> <B/concept/c2> ."));
    assert!(text.contains("\"Sub\""));
}

#[test]
fn rdf_collection_json_errors() {
    assert!(matches!(collection_to_triples_json("col", "not json", "B/"), Err(TripleError::JsonError(_))));
    assert!(matches!(collection_to_triples_json("col", r#"{"id": "c1"}"#, "B/"), Err(TripleError::JsonError(_))));
    assert!(matches!(
        collection_to_triples_json("col", r#"[{"label": "x"}]"#, "B/"),
        Err(TripleError::MissingField(_))
    ));
    assert_eq!(collection_to_triples_json("col", "[]", "B/").unwrap().len(), 1);
}
