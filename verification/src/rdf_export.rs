//! RDF triples for graph schemas, resource tiles and SKOS collections, and
//! their N-Triples text.

use vstd::prelude::*;
use crate::datatype_class::{classify_datatype, spec_classify_datatype, DatatypeClass};
use crate::uri::{collection_uri, concept_uri, graph_uri, node_uri, resource_prefix, resource_uri};
use crate::value_extract::{
    parse_json, parsed_json,
    as_str, extract_localized_strings, extract_reference_ids, extract_url, get, get_member,
    lang_text_view, localized_strings, reference_ids, str_member, url_of, JsonValue, LangText,
};

verus! {

pub const RDF_TYPE: &'static str = "http://www.w3.org/1999/02/22-rdf-syntax-ns#type";
pub const RDFS_LABEL: &'static str = "http://www.w3.org/2000/01/rdf-schema#label";
pub const RDFS_DOMAIN: &'static str = "http://www.w3.org/2000/01/rdf-schema#domain";
pub const RDFS_RANGE: &'static str = "http://www.w3.org/2000/01/rdf-schema#range";
pub const OWL_CLASS: &'static str = "http://www.w3.org/2002/07/owl#Class";
pub const OWL_DATATYPE_PROPERTY: &'static str = "http://www.w3.org/2002/07/owl#DatatypeProperty";
pub const OWL_OBJECT_PROPERTY: &'static str = "http://www.w3.org/2002/07/owl#ObjectProperty";
pub const GEO_AS_WKT: &'static str = "http://www.opengis.net/ont/geosparql#asWKT";
pub const GEO_WKT_LITERAL: &'static str = "http://www.opengis.net/ont/geosparql#wktLiteral";
pub const XSD_STRING: &'static str = "http://www.w3.org/2001/XMLSchema#string";
pub const XSD_INTEGER: &'static str = "http://www.w3.org/2001/XMLSchema#integer";
pub const XSD_DECIMAL: &'static str = "http://www.w3.org/2001/XMLSchema#decimal";
pub const XSD_BOOLEAN: &'static str = "http://www.w3.org/2001/XMLSchema#boolean";
pub const XSD_DATE: &'static str = "http://www.w3.org/2001/XMLSchema#date";
pub const SKOS_PREF_LABEL: &'static str = "http://www.w3.org/2004/02/skos/core#prefLabel";
pub const SKOS_BROADER: &'static str = "http://www.w3.org/2004/02/skos/core#broader";
pub const SKOS_NARROWER: &'static str = "http://www.w3.org/2004/02/skos/core#narrower";
pub const SKOS_IN_SCHEME: &'static str = "http://www.w3.org/2004/02/skos/core#inScheme";
pub const SKOS_HAS_TOP_CONCEPT: &'static str = "http://www.w3.org/2004/02/skos/core#hasTopConcept";
pub const SKOS_CONCEPT: &'static str = "http://www.w3.org/2004/02/skos/core#Concept";
pub const SKOS_CONCEPT_SCHEME: &'static str = "http://www.w3.org/2004/02/skos/core#ConceptScheme";
pub const SKOS_ALT_LABEL: &'static str = "http://www.w3.org/2004/02/skos/core#altLabel";
pub const SKOS_SCOPE_NOTE: &'static str = "http://www.w3.org/2004/02/skos/core#scopeNote";

/// Errors of triple generation.
#[derive(Debug)]
pub enum TripleError {
    JsonError(String),
    MissingField(String),
    InvalidData(String),
    GeoError(String),
}

/// An RDF term: a named node (URI) or a literal.
#[derive(Debug, Clone, PartialEq, Eq, Hash)]
pub enum Term {
    NamedNode(String),
    Literal { value: String, datatype: Option<String>, language: Option<String> },
}

/// An RDF triple.
#[derive(Debug, Clone, PartialEq, Eq)]
pub struct Triple {
    pub subject: Term,
    pub predicate: Term,
    pub object: Term,
}

/// A term as text: a URI, or a literal's text, datatype and language.
pub enum TermModel {
    Named(Seq<char>),
    Lit(Seq<char>, Option<Seq<char>>, Option<Seq<char>>),
}

pub type TripleModel = (TermModel, TermModel, TermModel);

pub open spec fn opt_view(o: Option<String>) -> Option<Seq<char>> {
    match o {
        Some(s) => Some(s@),
        None => None,
    }
}

impl View for Term {
    type V = TermModel;

    open spec fn view(&self) -> TermModel {
        match self {
            Term::NamedNode(u) => TermModel::Named(u@),
            Term::Literal { value, datatype, language } => TermModel::Lit(
                value@,
                opt_view(*datatype),
                opt_view(*language),
            ),
        }
    }
}

impl View for Triple {
    type V = TripleModel;

    open spec fn view(&self) -> TripleModel {
        (self.subject@, self.predicate@, self.object@)
    }
}

/// The models of a sequence of triples.
pub open spec fn triples_view(v: Seq<Triple>) -> Seq<TripleModel> {
    v.map_values(|t: Triple| t@)
}

/// The N-Triples escape of one character of a literal.
pub open spec fn escape_char(c: char) -> Seq<char> {
    if c == '\\' {
        seq!['\\', '\\']
    } else if c == '"' {
        seq!['\\', '"']
    } else if c == '\n' {
        seq!['\\', 'n']
    } else if c == '\r' {
        seq!['\\', 'r']
    } else {
        seq![c]
    }
}

/// A literal's text with backslash, quote, newline and carriage return
/// escaped.
pub open spec fn escape(s: Seq<char>) -> Seq<char>
    decreases s.len(),
{
    if s.len() == 0 {
        Seq::empty()
    } else {
        escape(s.drop_last()) + escape_char(s.last())
    }
}

/// A term in N-Triples syntax.
pub open spec fn term_text(t: TermModel) -> Seq<char> {
    match t {
        TermModel::Named(u) => seq!['<'] + u + seq!['>'],
        TermModel::Lit(v, dt, lang) => {
            let quoted = seq!['"'] + escape(v) + seq!['"'];
            match lang {
                Some(l) => quoted + seq!['@'] + l,
                None => match dt {
                    Some(d) => quoted + seq!['^', '^', '<'] + d + seq!['>'],
                    None => quoted,
                },
            }
        },
    }
}

/// A triple as one N-Triples line (without the line break).
pub open spec fn triple_text(t: TripleModel) -> Seq<char> {
    term_text(t.0) + seq![' '] + term_text(t.1) + seq![' '] + term_text(t.2) + seq![' ', '.']
}

/// Triples as N-Triples lines joined by line breaks.
pub open spec fn ntriples_text(ts: Seq<TripleModel>) -> Seq<char>
    decreases ts.len(),
{
    if ts.len() == 0 {
        Seq::empty()
    } else if ts.len() == 1 {
        triple_text(ts[0])
    } else {
        ntriples_text(ts.drop_last()) + seq!['\n'] + triple_text(ts.last())
    }
}

/// Append one character to a string.
///
/// Calls `String::push`, which appends the character at the end.
#[verifier::external_body]
fn push_char(s: &mut String, c: char)
    ensures
        final(s)@ == old(s)@.push(c),
{
    s.push(c);
}

/// Append a string to a string.
fn push_str(s: &mut String, t: &str)
    ensures
        final(s)@ == old(s)@ + t@,
{
    s.append(t);
}

/// Append the escape of `v` to `out`.
fn push_escaped(out: &mut String, v: &str)
    ensures
        final(out)@ == old(out)@ + escape(v@),
{
    let ghost start = out@;
    let ghost mut done: Seq<char> = Seq::empty();
    for c in it: v.chars()
        invariant
            it.seq() == v@,
            done.len() == it.index(),
            forall|j: int| 0 <= j < done.len() ==> done[j] == v@[j],
            out@ == start + escape(done),
    {
        proof {
            assert(it.seq()[it.index() as int] == c);
        }
        let ghost before = out@;
        if c == '\\' {
            push_char(out, '\\');
            push_char(out, '\\');
        } else if c == '"' {
            push_char(out, '\\');
            push_char(out, '"');
        } else if c == '\n' {
            push_char(out, '\\');
            push_char(out, 'n');
        } else if c == '\r' {
            push_char(out, '\\');
            push_char(out, 'r');
        } else {
            push_char(out, c);
        }
        proof {
            let nd = done.push(c);
            assert(nd.drop_last() =~= done);
            assert(out@ =~= before + escape_char(c));
            assert(out@ =~= start + escape(nd));
            done = nd;
        }
    }
    proof {
        assert(done =~= v@);
    }
}

/// Append a term in N-Triples syntax to `out`.
fn push_term(out: &mut String, t: &Term)
    ensures
        final(out)@ == old(out)@ + term_text(t@),
{
    let ghost start = out@;
    match t {
        Term::NamedNode(u) => {
            push_char(out, '<');
            push_str(out, u.as_str());
            push_char(out, '>');
            assert(out@ =~= start + term_text(t@));
        },
        Term::Literal { value, datatype, language } => {
            push_char(out, '"');
            push_escaped(out, value.as_str());
            push_char(out, '"');
            let ghost quoted = seq!['"'] + escape(value@) + seq!['"'];
            assert(out@ =~= start + quoted);
            match language {
                Some(l) => {
                    push_char(out, '@');
                    push_str(out, l.as_str());
                },
                None => match datatype {
                    Some(d) => {
                        push_char(out, '^');
                        push_char(out, '^');
                        push_char(out, '<');
                        push_str(out, d.as_str());
                        push_char(out, '>');
                    },
                    None => {},
                },
            }
            assert(out@ =~= start + term_text(t@));
        },
    }
}

impl Term {
    /// The term in N-Triples syntax: `<uri>`, or a quoted, escaped literal
    /// followed by `@lang` or `^^<datatype>`.
    pub fn to_ntriples(&self) -> (r: String)
        ensures
            r@ == term_text(self@),
    {
        let mut out = String::new();
        push_term(&mut out, self);
        out
    }
}

/// A copy of a term.
fn copy_term(t: &Term) -> (r: Term)
    ensures
        r@ == t@,
{
    match t {
        Term::NamedNode(u) => Term::NamedNode(u.clone()),
        Term::Literal { value, datatype, language } => {
            let d = match datatype {
                Some(x) => Some(x.clone()),
                None => None,
            };
            let l = match language {
                Some(x) => Some(x.clone()),
                None => None,
            };
            Term::Literal { value: value.clone(), datatype: d, language: l }
        },
    }
}

/// Append one triple line to `out`.
fn push_triple(out: &mut String, t: &Triple)
    ensures
        final(out)@ == old(out)@ + triple_text(t@),
{
    let ghost start = out@;
    push_term(out, &t.subject);
    push_char(out, ' ');
    push_term(out, &t.predicate);
    push_char(out, ' ');
    push_term(out, &t.object);
    push_char(out, ' ');
    push_char(out, '.');
    assert(out@ =~= start + triple_text(t@));
}

impl Triple {
    pub fn new(subject: Term, predicate: Term, object: Term) -> (r: Triple)
        ensures
            r@ == (subject@, predicate@, object@),
    {
        Triple { subject, predicate, object }
    }

    /// The triple as an N-Triples line: subject, predicate, object and `.`,
    /// separated by spaces.
    pub fn to_ntriples(&self) -> (r: String)
        ensures
            r@ == triple_text(self@),
    {
        let mut out = String::new();
        push_triple(&mut out, self);
        out
    }
}

/// Write triples as N-Triples lines joined by line breaks.
pub fn triples_to_ntriples(triples: &[Triple]) -> (r: String)
    ensures
        r@ == ntriples_text(triples_view(triples@)),
{
    let mut out = String::new();
    let mut i: usize = 0;
    while i < triples.len()
        invariant
            i <= triples@.len(),
            out@ == ntriples_text(triples_view(triples@.take(i as int))),
        decreases triples@.len() - i,
    {
        let ghost before = out@;
        if i > 0 {
            push_char(&mut out, '\n');
        }
        push_triple(&mut out, &triples[i]);
        proof {
            let tk = triples_view(triples@.take(i + 1));
            assert(triples_view(triples@.take(i + 1)).drop_last() =~= triples_view(
                triples@.take(i as int),
            ));
            assert(tk.last() == triples@[i as int]@);
            if i == 0 {
                assert(tk.len() == 1);
                assert(out@ =~= ntriples_text(tk));
            } else {
                assert(out@ =~= ntriples_text(tk));
            }
        }
        i = i + 1;
    }
    assert(triples@.take(triples@.len() as int) =~= triples@);
    out
}

/// A named node.
pub fn uri(s: &str) -> (r: Term)
    ensures
        r@ == TermModel::Named(s@),
{
    Term::NamedNode(s.to_owned())
}

/// A literal with a datatype.
pub fn literal(value: &str, datatype: &str) -> (r: Term)
    ensures
        r@ == TermModel::Lit(value@, Some(datatype@), None),
{
    Term::Literal { value: value.to_owned(), datatype: Some(datatype.to_owned()), language: None }
}

/// A literal with a language tag.
pub fn lang_literal(value: &str, lang: &str) -> (r: Term)
    ensures
        r@ == TermModel::Lit(value@, None, Some(lang@)),
{
    Term::Literal { value: value.to_owned(), datatype: None, language: Some(lang.to_owned()) }
}

/// An `xsd:string` literal.
pub fn string_literal(value: &str) -> (r: Term)
    ensures
        r@ == TermModel::Lit(value@, Some(XSD_STRING@), None),
{
    literal(value, XSD_STRING)
}

/// The `rdfs:range` of a property of the given datatype.
pub open spec fn spec_datatype_to_range(datatype: Seq<char>, base_uri: Seq<char>) -> Option<Seq<char>> {
    match spec_classify_datatype(datatype) {
        Some(DatatypeClass::LocalizedString) | Some(DatatypeClass::PlainString) | Some(
            DatatypeClass::Url,
        ) => Some(XSD_STRING@),
        Some(DatatypeClass::Number) => Some(XSD_DECIMAL@),
        Some(DatatypeClass::Date) => Some(XSD_DATE@),
        Some(DatatypeClass::Boolean) => Some(XSD_BOOLEAN@),
        Some(DatatypeClass::GeoJson) => Some(GEO_WKT_LITERAL@),
        Some(DatatypeClass::Concept) => Some(SKOS_CONCEPT@),
        Some(DatatypeClass::ResourceInstance) => Some(base_uri + "resource/"@),
        _ => None,
    }
}

/// The `rdfs:range` URI of a property of the given datatype; `None` for
/// domain values, semantic nodes and unknown datatypes.
pub fn datatype_to_range(datatype: &str, base_uri: &str) -> (r: Option<String>)
    ensures
        opt_view(r) == spec_datatype_to_range(datatype@, base_uri@),
{
    match classify_datatype(datatype) {
        Some(DatatypeClass::LocalizedString) | Some(DatatypeClass::PlainString) | Some(
            DatatypeClass::Url,
        ) => Some(XSD_STRING.to_owned()),
        Some(DatatypeClass::Number) => Some(XSD_DECIMAL.to_owned()),
        Some(DatatypeClass::Date) => Some(XSD_DATE.to_owned()),
        Some(DatatypeClass::Boolean) => Some(XSD_BOOLEAN.to_owned()),
        Some(DatatypeClass::GeoJson) => Some(GEO_WKT_LITERAL.to_owned()),
        Some(DatatypeClass::Concept) => Some(SKOS_CONCEPT.to_owned()),
        Some(DatatypeClass::ResourceInstance) => Some(resource_prefix(base_uri)),
        _ => None,
    }
}


// ---------------------------------------------------------------------------
// Emitting triples
// ---------------------------------------------------------------------------

/// Append a triple to `out`.
fn emit(out: &mut Vec<Triple>, s: Term, p: Term, o: Term)
    ensures
        triples_view(final(out)@) == triples_view(old(out)@).push((s@, p@, o@)),
{
    let ghost start = out@;
    let ghost m = (s@, p@, o@);
    out.push(Triple { subject: s, predicate: p, object: o });
    assert(triples_view(out@) =~= triples_view(start).push(m));
}

/// The object a string item stands for: an `xsd:string` literal (`kind`
/// 0), a literal in language `extra` (`kind` 1), or the concept `id` under
/// the base URI `extra` (otherwise).
pub open spec fn str_object(kind: u8, extra: Seq<char>, t: Seq<char>) -> TermModel {
    if kind == 0 {
        TermModel::Lit(t, Some(XSD_STRING@), None)
    } else if kind == 1 {
        TermModel::Lit(t, None, Some(extra))
    } else {
        TermModel::Named(extra + "concept/"@ + t)
    }
}

/// One triple for each string item of an array, in order.
pub open spec fn str_items(
    s: TermModel,
    p: TermModel,
    items: Seq<JsonValue>,
    kind: u8,
    extra: Seq<char>,
) -> Seq<TripleModel>
    decreases items.len(),
{
    if items.len() == 0 {
        Seq::empty()
    } else {
        str_items(s, p, items.drop_last(), kind, extra) + match as_str(items.last()) {
            Some(t) => seq![(s, p, str_object(kind, extra, t))],
            None => Seq::empty(),
        }
    }
}

fn make_str_object(kind: u8, extra: &str, t: &str) -> (r: Term)
    ensures
        r@ == str_object(kind, extra@, t@),
{
    if kind == 0 {
        string_literal(t)
    } else if kind == 1 {
        lang_literal(t, extra)
    } else {
        uri(concept_uri(extra, t).as_str())
    }
}

fn push_str_items(
    out: &mut Vec<Triple>,
    s: &Term,
    p: &Term,
    items: &Vec<JsonValue>,
    kind: u8,
    extra: &str,
)
    ensures
        triples_view(final(out)@) == triples_view(old(out)@) + str_items(
            s@,
            p@,
            items@,
            kind,
            extra@,
        ),
{
    let ghost start = triples_view(out@);
    let mut i: usize = 0;
    assert(str_items(s@, p@, items@.take(0), kind, extra@) =~= Seq::<TripleModel>::empty());
    assert(start + Seq::<TripleModel>::empty() =~= start);
    while i < items.len()
        invariant
            i <= items@.len(),
            triples_view(out@) == start + str_items(s@, p@, items@.take(i as int), kind, extra@),
        decreases items@.len() - i,
    {
        let ghost before = triples_view(out@);
        if let JsonValue::Str(t) = &items[i] {
            let o = make_str_object(kind, extra, t.as_str());
            emit(out, copy_term(s), copy_term(p), o);
        }
        proof {
            assert(items@.take(i + 1).drop_last() =~= items@.take(i as int));
            assert(items@.take(i + 1).last() == items@[i as int]);
            assert(triples_view(out@) =~= start + str_items(
                s@,
                p@,
                items@.take(i + 1),
                kind,
                extra@,
            ));
        }
        i = i + 1;
    }
    assert(items@.take(items@.len() as int) =~= items@);
}

/// The object of a language-tagged text: a literal in its language, or an
/// `xsd:string` literal when it has none.
pub open spec fn lang_object(lt: LangText) -> TermModel {
    match lt.0 {
        Some(l) => TermModel::Lit(lt.1, None, Some(l)),
        None => TermModel::Lit(lt.1, Some(XSD_STRING@), None),
    }
}

/// One triple for each language-tagged text, in order.
pub open spec fn lang_triples(s: TermModel, p: TermModel, ls: Seq<LangText>) -> Seq<TripleModel> {
    ls.map_values(|lt: LangText| (s, p, lang_object(lt)))
}

fn push_langs(out: &mut Vec<Triple>, s: &Term, p: &Term, value: &JsonValue)
    ensures
        triples_view(final(out)@) == triples_view(old(out)@) + lang_triples(
            s@,
            p@,
            localized_strings(*value),
        ),
{
    let pairs = extract_localized_strings(value);
    let ghost start = triples_view(out@);
    let ghost ls = pairs@.map_values(|q: (Option<String>, String)| lang_text_view(q));
    let mut i: usize = 0;
    while i < pairs.len()
        invariant
            i <= pairs@.len(),
            ls == pairs@.map_values(|q: (Option<String>, String)| lang_text_view(q)),
            ls == localized_strings(*value),
            triples_view(out@) == start + lang_triples(s@, p@, ls.take(i as int)),
        decreases pairs@.len() - i,
    {
        let o = match &pairs[i].0 {
            Some(l) => lang_literal(pairs[i].1.as_str(), l.as_str()),
            None => string_literal(pairs[i].1.as_str()),
        };
        proof {
            assert(ls[i as int] == lang_text_view(pairs@[i as int]));
        }
        emit(out, copy_term(s), copy_term(p), o);
        proof {
            assert(lang_triples(s@, p@, ls.take(i + 1)) =~= lang_triples(s@, p@, ls.take(i as int))
                .push((s@, p@, lang_object(ls[i as int]))));
            assert(triples_view(out@) =~= start + lang_triples(s@, p@, ls.take(i + 1)));
        }
        i = i + 1;
    }
    assert(ls.take(ls.len() as int) =~= ls);
}

/// One named-node triple for each id, under `prefix`.
pub open spec fn id_triples(
    s: TermModel,
    p: TermModel,
    prefix: Seq<char>,
    ids: Seq<Seq<char>>,
) -> Seq<TripleModel> {
    ids.map_values(|id: Seq<char>| (s, p, TermModel::Named(prefix + id)))
}

/// Append one triple per reference id of `value`, linking to concepts
/// (`concepts`) or to resources.
fn push_ids(
    out: &mut Vec<Triple>,
    s: &Term,
    p: &Term,
    value: &JsonValue,
    base_uri: &str,
    concepts: bool,
)
    ensures
        triples_view(final(out)@) == triples_view(old(out)@) + id_triples(
            s@,
            p@,
            base_uri@ + if concepts { "concept/"@ } else { "resource/"@ },
            reference_ids(*value),
        ),
{
    let ids = extract_reference_ids(value);
    let ghost start = triples_view(out@);
    let ghost prefix = base_uri@ + if concepts { "concept/"@ } else { "resource/"@ };
    let ghost idv = ids@.map_values(|x: String| x@);
    let mut i: usize = 0;
    while i < ids.len()
        invariant
            i <= ids@.len(),
            idv == ids@.map_values(|x: String| x@),
            idv == reference_ids(*value),
            prefix == base_uri@ + if concepts { "concept/"@ } else { "resource/"@ },
            triples_view(out@) == start + id_triples(s@, p@, prefix, idv.take(i as int)),
        decreases ids@.len() - i,
    {
        let target = if concepts {
            concept_uri(base_uri, ids[i].as_str())
        } else {
            resource_uri(base_uri, ids[i].as_str())
        };
        let o = uri(target.as_str());
        proof {
            assert(idv[i as int] == ids@[i as int]@);
        }
        emit(out, copy_term(s), copy_term(p), o);
        proof {
            assert(id_triples(s@, p@, prefix, idv.take(i + 1)) =~= id_triples(
                s@,
                p@,
                prefix,
                idv.take(i as int),
            ).push((s@, p@, TermModel::Named(prefix + idv[i as int]))));
            assert(triples_view(out@) =~= start + id_triples(s@, p@, prefix, idv.take(i + 1)));
        }
        i = i + 1;
    }
    assert(idv.take(idv.len() as int) =~= idv);
}


// ---------------------------------------------------------------------------
// Graph schemas and resource tiles
// ---------------------------------------------------------------------------

/// A node of a resource model graph, as far as triple generation reads it.
pub struct GraphNode {
    pub node_id: String,
    pub alias: Option<String>,
    pub datatype: String,
    pub name: String,
}

/// A resource model graph: its id, English name and nodes.
pub struct GraphSchema {
    pub graph_id: String,
    pub name_en: String,
    pub nodes: Vec<GraphNode>,
}

/// One value of a tile: the node it belongs to, the JSON value, and, for
/// a GeoJSON value that converts, its WKT text.
pub struct TileValue {
    pub node_id: String,
    pub value: JsonValue,
    pub wkt: Option<String>,
}

/// A tile of a resource: its values in the order they are visited.
pub struct ResourceTile {
    pub data: Vec<TileValue>,
}

/// The node with the given id; the last one where several share it (the
/// graph's node index keeps the last).
pub open spec fn node_by_id(nodes: Seq<GraphNode>, id: Seq<char>) -> Option<GraphNode>
    decreases nodes.len(),
{
    if nodes.len() == 0 {
        None
    } else if nodes.last().node_id@ == id {
        Some(nodes.last())
    } else {
        node_by_id(nodes.drop_last(), id)
    }
}

fn find_node<'a>(nodes: &'a Vec<GraphNode>, id: &str) -> (r: Option<&'a GraphNode>)
    ensures
        match r {
            Some(n) => node_by_id(nodes@, id@) == Some(*n),
            None => node_by_id(nodes@, id@) is None,
        },
{
    let mut i: usize = nodes.len();
    assert(nodes@.take(nodes@.len() as int) =~= nodes@);
    while i > 0
        invariant
            i <= nodes@.len(),
            node_by_id(nodes@, id@) == node_by_id(nodes@.take(i as int), id@),
        decreases i,
    {
        assert(nodes@.take(i as int).last() == nodes@[i - 1]);
        if crate::text::str_eq(nodes[i - 1].node_id.as_str(), id) {
            return Some(&nodes[i - 1]);
        }
        assert(nodes@.take(i as int).drop_last() =~= nodes@.take(i - 1));
        i = i - 1;
    }
    None
}

/// The alias of a node that has a non-empty one.
pub open spec fn usable_alias(n: GraphNode) -> Option<Seq<char>> {
    match n.alias {
        Some(a) => if a@.len() > 0 { Some(a@) } else { None },
        None => None,
    }
}

/// The triples of one value whose node has datatype class `dc`, with
/// subject `s` and property `p`.
pub open spec fn value_triples(
    s: TermModel,
    p: TermModel,
    dc: Option<DatatypeClass>,
    v: JsonValue,
    wkt: Option<String>,
    base: Seq<char>,
) -> Seq<TripleModel> {
    match dc {
        Some(DatatypeClass::LocalizedString) => lang_triples(s, p, localized_strings(v)),
        Some(DatatypeClass::PlainString) | None => match as_str(v) {
            Some(t) => seq![(s, p, TermModel::Lit(t, Some(XSD_STRING@), None))],
            None => Seq::empty(),
        },
        Some(DatatypeClass::Number) => match v {
            JsonValue::Number { text, integral } => seq![
                (
                    s,
                    p,
                    TermModel::Lit(
                        text@,
                        Some(if integral { XSD_INTEGER@ } else { XSD_DECIMAL@ }),
                        None,
                    ),
                ),
            ],
            JsonValue::Str(t) => seq![(s, p, TermModel::Lit(t@, Some(XSD_DECIMAL@), None))],
            _ => Seq::empty(),
        },
        Some(DatatypeClass::Date) => match as_str(v) {
            Some(t) => seq![(s, p, TermModel::Lit(t, Some(XSD_DATE@), None))],
            None => Seq::empty(),
        },
        Some(DatatypeClass::Boolean) => match v {
            JsonValue::Bool(b) => seq![
                (
                    s,
                    p,
                    TermModel::Lit(if b { "true"@ } else { "false"@ }, Some(XSD_BOOLEAN@), None),
                ),
            ],
            _ => Seq::empty(),
        },
        Some(DatatypeClass::Url) => match url_of(v) {
            Some(u) => seq![(s, p, TermModel::Named(u))],
            None => Seq::empty(),
        },
        Some(DatatypeClass::Concept) => id_triples(s, p, base + "concept/"@, reference_ids(v)),
        Some(DatatypeClass::ResourceInstance) => id_triples(
            s,
            p,
            base + "resource/"@,
            reference_ids(v),
        ),
        Some(DatatypeClass::GeoJson) => match wkt {
            Some(w) => seq![
                (
                    s,
                    TermModel::Named(GEO_AS_WKT@),
                    TermModel::Lit(w@, Some(GEO_WKT_LITERAL@), None),
                ),
            ],
            None => Seq::empty(),
        },
        Some(DatatypeClass::DomainValue) => match v {
            JsonValue::Str(t) => seq![(s, p, TermModel::Lit(t@, Some(XSD_STRING@), None))],
            JsonValue::Array(items) => str_items(s, p, items@, 0, Seq::empty()),
            _ => Seq::empty(),
        },
        Some(DatatypeClass::Semantic) => Seq::empty(),
    }
}

/// The triples of one tile value of the resource `s`: none for a null
/// value, an unknown node, a node without alias or a semantic node.
pub open spec fn entry_triples(
    g: GraphSchema,
    s: TermModel,
    e: TileValue,
    base: Seq<char>,
) -> Seq<TripleModel> {
    if e.value is Null {
        Seq::empty()
    } else {
        match node_by_id(g.nodes@, e.node_id@) {
            None => Seq::empty(),
            Some(n) => match usable_alias(n) {
                None => Seq::empty(),
                Some(a) => {
                    let dc = spec_classify_datatype(n.datatype@);
                    if dc == Some(DatatypeClass::Semantic) {
                        Seq::empty()
                    } else {
                        value_triples(
                            s,
                            TermModel::Named(base + "node/"@ + a),
                            dc,
                            e.value,
                            e.wkt,
                            base,
                        )
                    }
                },
            },
        }
    }
}

fn push_value(
    out: &mut Vec<Triple>,
    s: &Term,
    p: &Term,
    dc: Option<DatatypeClass>,
    e: &TileValue,
    base_uri: &str,
)
    ensures
        triples_view(final(out)@) == triples_view(old(out)@) + value_triples(
            s@,
            p@,
            dc,
            e.value,
            e.wkt,
            base_uri@,
        ),
{
    let ghost start = triples_view(out@);
    let value = &e.value;
    match dc {
        Some(DatatypeClass::LocalizedString) => {
            push_langs(out, s, p, value);
        },
        Some(DatatypeClass::PlainString) | None => {
            if let JsonValue::Str(t) = value {
                emit(out, copy_term(s), copy_term(p), string_literal(t.as_str()));
            }
        },
        Some(DatatypeClass::Number) => match value {
            JsonValue::Number { text, integral } => {
                let dt = if *integral { XSD_INTEGER } else { XSD_DECIMAL };
                emit(out, copy_term(s), copy_term(p), literal(text.as_str(), dt));
            },
            JsonValue::Str(t) => {
                emit(out, copy_term(s), copy_term(p), literal(t.as_str(), XSD_DECIMAL));
            },
            _ => {},
        },
        Some(DatatypeClass::Date) => {
            if let JsonValue::Str(t) = value {
                emit(out, copy_term(s), copy_term(p), literal(t.as_str(), XSD_DATE));
            }
        },
        Some(DatatypeClass::Boolean) => {
            if let JsonValue::Bool(b) = value {
                let text = if *b { "true" } else { "false" };
                emit(out, copy_term(s), copy_term(p), literal(text, XSD_BOOLEAN));
            }
        },
        Some(DatatypeClass::Url) => {
            if let Some(u) = extract_url(value) {
                emit(out, copy_term(s), copy_term(p), uri(u.as_str()));
            }
        },
        Some(DatatypeClass::Concept) => {
            push_ids(out, s, p, value, base_uri, true);
        },
        Some(DatatypeClass::ResourceInstance) => {
            push_ids(out, s, p, value, base_uri, false);
        },
        Some(DatatypeClass::GeoJson) => {
            if let Some(w) = &e.wkt {
                emit(out, copy_term(s), uri(GEO_AS_WKT), literal(w.as_str(), GEO_WKT_LITERAL));
            }
        },
        Some(DatatypeClass::DomainValue) => match value {
            JsonValue::Str(t) => {
                emit(out, copy_term(s), copy_term(p), string_literal(t.as_str()));
            },
            JsonValue::Array(items) => {
                push_str_items(out, s, p, items, 0, "");
                proof {
                    reveal_strlit("");
                    assert(""@ =~= Seq::<char>::empty());
                }
            },
            _ => {},
        },
        Some(DatatypeClass::Semantic) => {},
    }
    assert(triples_view(out@) =~= start + value_triples(s@, p@, dc, e.value, e.wkt, base_uri@));
}

fn push_entry(out: &mut Vec<Triple>, graph: &GraphSchema, s: &Term, e: &TileValue, base_uri: &str)
    ensures
        triples_view(final(out)@) == triples_view(old(out)@) + entry_triples(
            *graph,
            s@,
            *e,
            base_uri@,
        ),
{
    let ghost start = triples_view(out@);
    if let JsonValue::Null = &e.value {
        assert(triples_view(out@) =~= start + entry_triples(*graph, s@, *e, base_uri@));
        return;
    }
    match find_node(&graph.nodes, e.node_id.as_str()) {
        None => {
            assert(triples_view(out@) =~= start + entry_triples(*graph, s@, *e, base_uri@));
        },
        Some(node) => {
            match &node.alias {
                Some(a) => {
                    if a.as_str().is_empty() {
                        assert(triples_view(out@) =~= start + entry_triples(
                            *graph,
                            s@,
                            *e,
                            base_uri@,
                        ));
                        return;
                    }
                    let dc = classify_datatype(node.datatype.as_str());
                    if let Some(DatatypeClass::Semantic) = dc {
                        assert(triples_view(out@) =~= start + entry_triples(
                            *graph,
                            s@,
                            *e,
                            base_uri@,
                        ));
                        return;
                    }
                    let p = uri(node_uri(base_uri, a.as_str()).as_str());
                    push_value(out, s, &p, dc, e, base_uri);
                },
                None => {
                    assert(triples_view(out@) =~= start + entry_triples(
                        *graph,
                        s@,
                        *e,
                        base_uri@,
                    ));
                },
            }
        },
    }
}


/// The triples of a tile's values, in order.
pub open spec fn tile_triples(
    g: GraphSchema,
    s: TermModel,
    entries: Seq<TileValue>,
    base: Seq<char>,
) -> Seq<TripleModel>
    decreases entries.len(),
{
    if entries.len() == 0 {
        Seq::empty()
    } else {
        tile_triples(g, s, entries.drop_last(), base) + entry_triples(g, s, entries.last(), base)
    }
}

/// The triples of a resource's tiles, in order.
pub open spec fn tiles_triples(
    g: GraphSchema,
    s: TermModel,
    tiles: Seq<ResourceTile>,
    base: Seq<char>,
) -> Seq<TripleModel>
    decreases tiles.len(),
{
    if tiles.len() == 0 {
        Seq::empty()
    } else {
        tiles_triples(g, s, tiles.drop_last(), base) + tile_triples(g, s, tiles.last().data@, base)
    }
}

/// The triples of a resource: its `rdf:type` (the graph's class), then the
/// triples of each tile value.
pub open spec fn resource_triples(
    g: GraphSchema,
    resource_id: Seq<char>,
    tiles: Seq<ResourceTile>,
    base: Seq<char>,
) -> Seq<TripleModel> {
    let s = TermModel::Named(base + "resource/"@ + resource_id);
    seq![
        (
            s,
            TermModel::Named(RDF_TYPE@),
            TermModel::Named(base + "graph/"@ + g.graph_id@),
        ),
    ] + tiles_triples(g, s, tiles, base)
}

fn push_tile(out: &mut Vec<Triple>, graph: &GraphSchema, s: &Term, tile: &ResourceTile, base_uri: &str)
    ensures
        triples_view(final(out)@) == triples_view(old(out)@) + tile_triples(
            *graph,
            s@,
            tile.data@,
            base_uri@,
        ),
{
    let ghost start = triples_view(out@);
    let mut i: usize = 0;
    assert(start + tile_triples(*graph, s@, tile.data@.take(0), base_uri@) =~= start);
    while i < tile.data.len()
        invariant
            i <= tile.data@.len(),
            triples_view(out@) == start + tile_triples(
                *graph,
                s@,
                tile.data@.take(i as int),
                base_uri@,
            ),
        decreases tile.data@.len() - i,
    {
        push_entry(out, graph, s, &tile.data[i], base_uri);
        proof {
            assert(tile.data@.take(i + 1).drop_last() =~= tile.data@.take(i as int));
            assert(tile.data@.take(i + 1).last() == tile.data@[i as int]);
            assert(triples_view(out@) =~= start + tile_triples(
                *graph,
                s@,
                tile.data@.take(i + 1),
                base_uri@,
            ));
        }
        i = i + 1;
    }
    assert(tile.data@.take(tile.data@.len() as int) =~= tile.data@);
}

/// Convert a resource's tiles to RDF triples: its `rdf:type`, then, tile by
/// tile and value by value, the triples of each non-null value of a node
/// with an alias, by the node's datatype.
pub fn resource_to_triples(
    graph: &GraphSchema,
    resource_id: &str,
    tiles: &[ResourceTile],
    base_uri: &str,
) -> (r: Result<Vec<Triple>, TripleError>)
    ensures
        r matches Ok(v) && triples_view(v@) == resource_triples(
            *graph,
            resource_id@,
            tiles@,
            base_uri@,
        ),
{
    let subject = uri(resource_uri(base_uri, resource_id).as_str());
    let mut triples: Vec<Triple> = Vec::new();
    assert(triples_view(triples@) =~= Seq::<TripleModel>::empty());
    emit(
        &mut triples,
        copy_term(&subject),
        uri(RDF_TYPE),
        uri(graph_uri(base_uri, graph.graph_id.as_str()).as_str()),
    );
    let ghost head = triples_view(triples@);
    let mut i: usize = 0;
    assert(head + tiles_triples(*graph, subject@, tiles@.take(0), base_uri@) =~= head);
    while i < tiles.len()
        invariant
            i <= tiles@.len(),
            triples_view(triples@) == head + tiles_triples(
                *graph,
                subject@,
                tiles@.take(i as int),
                base_uri@,
            ),
        decreases tiles@.len() - i,
    {
        push_tile(&mut triples, graph, &subject, &tiles[i], base_uri);
        proof {
            assert(tiles@.take(i + 1).drop_last() =~= tiles@.take(i as int));
            assert(tiles@.take(i + 1).last() == tiles@[i as int]);
            assert(triples_view(triples@) =~= head + tiles_triples(
                *graph,
                subject@,
                tiles@.take(i + 1),
                base_uri@,
            ));
        }
        i = i + 1;
    }
    assert(tiles@.take(tiles@.len() as int) =~= tiles@);
    assert(triples_view(triples@) =~= resource_triples(*graph, resource_id@, tiles@, base_uri@));
    Ok(triples)
}

/// The property declarations of one node of a graph whose class is
/// `class`: none without an alias or for a semantic node; else its type
/// (object or datatype property), label, domain and, where it has one,
/// range.
pub open spec fn node_decl(n: GraphNode, class: Seq<char>, base: Seq<char>) -> Seq<TripleModel> {
    match usable_alias(n) {
        None => Seq::empty(),
        Some(a) => {
            let dc = spec_classify_datatype(n.datatype@);
            if dc == Some(DatatypeClass::Semantic) {
                Seq::empty()
            } else {
                let p = TermModel::Named(base + "node/"@ + a);
                let kind = match dc {
                    Some(c) => if c.spec_is_object_property() {
                        OWL_OBJECT_PROPERTY@
                    } else {
                        OWL_DATATYPE_PROPERTY@
                    },
                    None => OWL_DATATYPE_PROPERTY@,
                };
                seq![
                    (p, TermModel::Named(RDF_TYPE@), TermModel::Named(kind)),
                    (p, TermModel::Named(RDFS_LABEL@), TermModel::Lit(n.name@, None, Some("en"@))),
                    (p, TermModel::Named(RDFS_DOMAIN@), TermModel::Named(class)),
                ] + match spec_datatype_to_range(n.datatype@, base) {
                    Some(r) => seq![(p, TermModel::Named(RDFS_RANGE@), TermModel::Named(r))],
                    None => Seq::empty(),
                }
            }
        },
    }
}

/// The property declarations of a graph's nodes, in order.
pub open spec fn node_decls(nodes: Seq<GraphNode>, class: Seq<char>, base: Seq<char>) -> Seq<
    TripleModel,
>
    decreases nodes.len(),
{
    if nodes.len() == 0 {
        Seq::empty()
    } else {
        node_decls(nodes.drop_last(), class, base) + node_decl(nodes.last(), class, base)
    }
}

/// The schema triples of a graph: it is an `owl:Class`, labelled with its
/// English name when that is not empty, followed by its nodes' property
/// declarations.
pub open spec fn schema_triples(g: GraphSchema, base: Seq<char>) -> Seq<TripleModel> {
    let class = base + "graph/"@ + g.graph_id@;
    let c = TermModel::Named(class);
    seq![(c, TermModel::Named(RDF_TYPE@), TermModel::Named(OWL_CLASS@))] + (if g.name_en@.len()
        > 0 {
        seq![(c, TermModel::Named(RDFS_LABEL@), TermModel::Lit(g.name_en@, None, Some("en"@)))]
    } else {
        Seq::empty()
    }) + node_decls(g.nodes@, class, base)
}

fn push_node_decl(out: &mut Vec<Triple>, n: &GraphNode, class_uri: &str, base_uri: &str)
    ensures
        triples_view(final(out)@) == triples_view(old(out)@) + node_decl(
            *n,
            class_uri@,
            base_uri@,
        ),
{
    let ghost start = triples_view(out@);
    let alias = match &n.alias {
        Some(a) => a,
        None => {
            assert(triples_view(out@) =~= start + node_decl(*n, class_uri@, base_uri@));
            return;
        },
    };
    if alias.as_str().is_empty() {
        assert(triples_view(out@) =~= start + node_decl(*n, class_uri@, base_uri@));
        return;
    }
    let dc = classify_datatype(n.datatype.as_str());
    if let Some(DatatypeClass::Semantic) = dc {
        assert(triples_view(out@) =~= start + node_decl(*n, class_uri@, base_uri@));
        return;
    }
    let prop = node_uri(base_uri, alias.as_str());
    let kind = match dc {
        Some(c) => if c.is_object_property() {
            OWL_OBJECT_PROPERTY
        } else {
            OWL_DATATYPE_PROPERTY
        },
        None => OWL_DATATYPE_PROPERTY,
    };
    emit(out, uri(prop.as_str()), uri(RDF_TYPE), uri(kind));
    emit(out, uri(prop.as_str()), uri(RDFS_LABEL), lang_literal(n.name.as_str(), "en"));
    emit(out, uri(prop.as_str()), uri(RDFS_DOMAIN), uri(class_uri));
    if let Some(range) = datatype_to_range(n.datatype.as_str(), base_uri) {
        emit(out, uri(prop.as_str()), uri(RDFS_RANGE), uri(range.as_str()));
    }
    assert(triples_view(out@) =~= start + node_decl(*n, class_uri@, base_uri@));
}

/// Convert a graph schema to RDFS/OWL declarations: the graph is an
/// `owl:Class` with its English label, and each node with an alias that is
/// not semantic is an object or datatype property with label, domain and
/// range.
pub fn graph_schema_to_triples(graph: &GraphSchema, base_uri: &str) -> (r: Result<
    Vec<Triple>,
    TripleError,
>)
    ensures
        r matches Ok(v) && triples_view(v@) == schema_triples(*graph, base_uri@),
{
    let class_uri = graph_uri(base_uri, graph.graph_id.as_str());
    let mut triples: Vec<Triple> = Vec::new();
    assert(triples_view(triples@) =~= Seq::<TripleModel>::empty());
    emit(&mut triples, uri(class_uri.as_str()), uri(RDF_TYPE), uri(OWL_CLASS));
    if !graph.name_en.as_str().is_empty() {
        emit(
            &mut triples,
            uri(class_uri.as_str()),
            uri(RDFS_LABEL),
            lang_literal(graph.name_en.as_str(), "en"),
        );
    }
    let ghost head = triples_view(triples@);
    let mut i: usize = 0;
    assert(head + node_decls(graph.nodes@.take(0), class_uri@, base_uri@) =~= head);
    while i < graph.nodes.len()
        invariant
            i <= graph.nodes@.len(),
            triples_view(triples@) == head + node_decls(
                graph.nodes@.take(i as int),
                class_uri@,
                base_uri@,
            ),
        decreases graph.nodes@.len() - i,
    {
        push_node_decl(&mut triples, &graph.nodes[i], class_uri.as_str(), base_uri);
        proof {
            assert(graph.nodes@.take(i + 1).drop_last() =~= graph.nodes@.take(i as int));
            assert(graph.nodes@.take(i + 1).last() == graph.nodes@[i as int]);
            assert(triples_view(triples@) =~= head + node_decls(
                graph.nodes@.take(i + 1),
                class_uri@,
                base_uri@,
            ));
        }
        i = i + 1;
    }
    assert(graph.nodes@.take(graph.nodes@.len() as int) =~= graph.nodes@);
    assert(triples_view(triples@) =~= schema_triples(*graph, base_uri@));
    Ok(triples)
}


// ---------------------------------------------------------------------------
// SKOS collections
// ---------------------------------------------------------------------------

/// The `skos:prefLabel` triples of a concept, from `prefLabels`, or from
/// `prefLabel` when there is no `prefLabels`.
pub open spec fn concept_pref(c: JsonValue, cu: TermModel) -> Seq<TripleModel> {
    let key = if get(c, "prefLabels"@) is Some { "prefLabels"@ } else { "prefLabel"@ };
    match get(c, key) {
        Some(labels) => lang_triples(cu, TermModel::Named(SKOS_PREF_LABEL@), localized_strings(labels)),
        None => Seq::empty(),
    }
}

/// The `skos:altLabel` triples of an `altLabels` language map whose members
/// are arrays of strings.
pub open spec fn alt_fields(cu: TermModel, fields: Seq<(String, JsonValue)>) -> Seq<TripleModel>
    decreases fields.len(),
{
    if fields.len() == 0 {
        Seq::empty()
    } else {
        alt_fields(cu, fields.drop_last()) + match fields.last().1 {
            JsonValue::Array(items) => str_items(
                cu,
                TermModel::Named(SKOS_ALT_LABEL@),
                items@,
                1,
                fields.last().0@,
            ),
            _ => Seq::empty(),
        }
    }
}

/// The `skos:scopeNote` triples of a `scopeNote` language map of strings.
pub open spec fn scope_fields(cu: TermModel, fields: Seq<(String, JsonValue)>) -> Seq<TripleModel>
    decreases fields.len(),
{
    if fields.len() == 0 {
        Seq::empty()
    } else {
        scope_fields(cu, fields.drop_last()) + match as_str(fields.last().1) {
            Some(t) => seq![
                (cu, TermModel::Named(SKOS_SCOPE_NOTE@), TermModel::Lit(t, None, Some(fields.last().0@))),
            ],
            None => Seq::empty(),
        }
    }
}

/// The links of a concept to the concepts listed under `key`.
pub open spec fn concept_links(
    c: JsonValue,
    key: Seq<char>,
    pred: Seq<char>,
    cu: TermModel,
    base: Seq<char>,
) -> Seq<TripleModel> {
    match get(c, key) {
        Some(JsonValue::Array(items)) => str_items(cu, TermModel::Named(pred), items@, 2, base),
        _ => Seq::empty(),
    }
}

/// A concept has a non-empty `broader` array.
pub open spec fn has_broader(c: JsonValue) -> bool {
    match get(c, "broader"@) {
        Some(JsonValue::Array(items)) => items@.len() > 0,
        _ => false,
    }
}

/// The triples of a concept with id `id` in the scheme `scheme`: type,
/// scheme, labels, scope notes, broader and narrower links, and, when it has
/// no broader concept, the scheme's `skos:hasTopConcept`.
pub open spec fn concept_triples(
    c: JsonValue,
    id: Seq<char>,
    scheme: Seq<char>,
    base: Seq<char>,
) -> Seq<TripleModel> {
    let cu = TermModel::Named(base + "concept/"@ + id);
    seq![
        (cu, TermModel::Named(RDF_TYPE@), TermModel::Named(SKOS_CONCEPT@)),
        (cu, TermModel::Named(SKOS_IN_SCHEME@), TermModel::Named(scheme)),
    ] + concept_pref(c, cu) + concept_alt(c, cu) + concept_scope(c, cu) + concept_links(c, "broader"@, SKOS_BROADER@, cu, base) + concept_links(
        c,
        "narrower"@,
        SKOS_NARROWER@,
        cu,
        base,
    ) + (if has_broader(c) {
        Seq::empty()
    } else {
        seq![(TermModel::Named(scheme), TermModel::Named(SKOS_HAS_TOP_CONCEPT@), cu)]
    })
}

/// The triples of a list of concepts, in order.
pub open spec fn concepts_triples(cs: Seq<JsonValue>, scheme: Seq<char>, base: Seq<char>) -> Seq<
    TripleModel,
>
    decreases cs.len(),
{
    if cs.len() == 0 {
        Seq::empty()
    } else {
        concepts_triples(cs.drop_last(), scheme, base) + match str_member(cs.last(), "id"@) {
            Some(id) => concept_triples(cs.last(), id, scheme, base),
            None => Seq::empty(),
        }
    }
}

/// Every concept has a string `id`.
pub open spec fn all_have_ids(cs: Seq<JsonValue>) -> bool {
    forall|i: int| 0 <= i < cs.len() ==> (#[trigger] str_member(cs[i], "id"@)) is Some
}

/// The SKOS triples of a collection: it is a `skos:ConceptScheme`, followed
/// by the triples of each concept.
pub open spec fn collection_triples(
    collection_id: Seq<char>,
    cs: Seq<JsonValue>,
    base: Seq<char>,
) -> Seq<TripleModel> {
    let scheme = base + "collection/"@ + collection_id;
    seq![
        (
            TermModel::Named(scheme),
            TermModel::Named(RDF_TYPE@),
            TermModel::Named(SKOS_CONCEPT_SCHEME@),
        ),
    ] + concepts_triples(cs, scheme, base)
}

fn push_alt_fields(out: &mut Vec<Triple>, cu: &Term, fields: &Vec<(String, JsonValue)>)
    ensures
        triples_view(final(out)@) == triples_view(old(out)@) + alt_fields(cu@, fields@),
{
    let ghost start = triples_view(out@);
    let pred = uri(SKOS_ALT_LABEL);
    let mut i: usize = 0;
    assert(start + alt_fields(cu@, fields@.take(0)) =~= start);
    while i < fields.len()
        invariant
            i <= fields@.len(),
            pred@ == TermModel::Named(SKOS_ALT_LABEL@),
            triples_view(out@) == start + alt_fields(cu@, fields@.take(i as int)),
        decreases fields@.len() - i,
    {
        if let JsonValue::Array(items) = &fields[i].1 {
            push_str_items(out, cu, &pred, items, 1, fields[i].0.as_str());
        }
        proof {
            assert(fields@.take(i + 1).drop_last() =~= fields@.take(i as int));
            assert(fields@.take(i + 1).last() == fields@[i as int]);
            assert(triples_view(out@) =~= start + alt_fields(cu@, fields@.take(i + 1)));
        }
        i = i + 1;
    }
    assert(fields@.take(fields@.len() as int) =~= fields@);
}

fn push_scope_fields(out: &mut Vec<Triple>, cu: &Term, fields: &Vec<(String, JsonValue)>)
    ensures
        triples_view(final(out)@) == triples_view(old(out)@) + scope_fields(cu@, fields@),
{
    let ghost start = triples_view(out@);
    let mut i: usize = 0;
    assert(start + scope_fields(cu@, fields@.take(0)) =~= start);
    while i < fields.len()
        invariant
            i <= fields@.len(),
            triples_view(out@) == start + scope_fields(cu@, fields@.take(i as int)),
        decreases fields@.len() - i,
    {
        if let JsonValue::Str(t) = &fields[i].1 {
            emit(
                out,
                copy_term(cu),
                uri(SKOS_SCOPE_NOTE),
                lang_literal(t.as_str(), fields[i].0.as_str()),
            );
        }
        proof {
            assert(fields@.take(i + 1).drop_last() =~= fields@.take(i as int));
            assert(fields@.take(i + 1).last() == fields@[i as int]);
            assert(triples_view(out@) =~= start + scope_fields(cu@, fields@.take(i + 1)));
        }
        i = i + 1;
    }
    assert(fields@.take(fields@.len() as int) =~= fields@);
}

fn push_links(
    out: &mut Vec<Triple>,
    c: &JsonValue,
    key: &str,
    pred: &str,
    cu: &Term,
    base_uri: &str,
)
    ensures
        triples_view(final(out)@) == triples_view(old(out)@) + concept_links(
            *c,
            key@,
            pred@,
            cu@,
            base_uri@,
        ),
{
    let ghost start = triples_view(out@);
    if let Some(JsonValue::Array(items)) = get_member(c, key) {
        let p = uri(pred);
        push_str_items(out, cu, &p, items, 2, base_uri);
    }
    assert(triples_view(out@) =~= start + concept_links(*c, key@, pred@, cu@, base_uri@));
}

/// The `skos:altLabel` triples of a concept.
pub open spec fn concept_alt(c: JsonValue, cu: TermModel) -> Seq<TripleModel> {
    match get(c, "altLabels"@) {
        Some(JsonValue::Object(fields)) => alt_fields(cu, fields@),
        _ => Seq::empty(),
    }
}

/// The `skos:scopeNote` triples of a concept.
pub open spec fn concept_scope(c: JsonValue, cu: TermModel) -> Seq<TripleModel> {
    match get(c, "scopeNote"@) {
        Some(JsonValue::Object(fields)) => scope_fields(cu, fields@),
        _ => Seq::empty(),
    }
}

fn push_pref(out: &mut Vec<Triple>, c: &JsonValue, cu: &Term)
    ensures
        triples_view(final(out)@) == triples_view(old(out)@) + concept_pref(*c, cu@),
{
    let ghost start = triples_view(out@);
    let key = if get_member(c, "prefLabels").is_some() { "prefLabels" } else { "prefLabel" };
    if let Some(labels) = get_member(c, key) {
        let p = uri(SKOS_PREF_LABEL);
        push_langs(out, cu, &p, labels);
    }
    assert(triples_view(out@) =~= start + concept_pref(*c, cu@));
}

fn push_alt_scope(out: &mut Vec<Triple>, c: &JsonValue, cu: &Term)
    ensures
        triples_view(final(out)@) == triples_view(old(out)@) + concept_alt(*c, cu@) + concept_scope(
            *c,
            cu@,
        ),
{
    let ghost start = triples_view(out@);
    if let Some(JsonValue::Object(fields)) = get_member(c, "altLabels") {
        push_alt_fields(out, cu, fields);
    }
    let ghost mid = triples_view(out@);
    assert(mid =~= start + concept_alt(*c, cu@));
    if let Some(JsonValue::Object(fields)) = get_member(c, "scopeNote") {
        push_scope_fields(out, cu, fields);
    }
    assert(triples_view(out@) =~= mid + concept_scope(*c, cu@));
}

fn push_concept(out: &mut Vec<Triple>, c: &JsonValue, id: &str, scheme: &str, base_uri: &str)
    ensures
        triples_view(final(out)@) == triples_view(old(out)@) + concept_triples(
            *c,
            id@,
            scheme@,
            base_uri@,
        ),
{
    let ghost start = triples_view(out@);
    let cu = uri(concept_uri(base_uri, id).as_str());
    emit(out, copy_term(&cu), uri(RDF_TYPE), uri(SKOS_CONCEPT));
    emit(out, copy_term(&cu), uri(SKOS_IN_SCHEME), uri(scheme));
    let ghost s1 = triples_view(out@);
    push_pref(out, c, &cu);
    push_alt_scope(out, c, &cu);
    let ghost s3 = triples_view(out@);
    push_links(out, c, "broader", SKOS_BROADER, &cu, base_uri);
    push_links(out, c, "narrower", SKOS_NARROWER, &cu, base_uri);
    let ghost s5 = triples_view(out@);
    let with_broader = match get_member(c, "broader") {
        Some(JsonValue::Array(items)) => items.len() > 0,
        _ => false,
    };
    if !with_broader {
        emit(out, uri(scheme), uri(SKOS_HAS_TOP_CONCEPT), copy_term(&cu));
    }
    proof {
        let cm = cu@;
        let two = seq![
            (cm, TermModel::Named(RDF_TYPE@), TermModel::Named(SKOS_CONCEPT@)),
            (cm, TermModel::Named(SKOS_IN_SCHEME@), TermModel::Named(scheme@)),
        ];
        assert(s1 =~= start + two);
        let top = if has_broader(*c) {
            Seq::<TripleModel>::empty()
        } else {
            seq![(TermModel::Named(scheme@), TermModel::Named(SKOS_HAS_TOP_CONCEPT@), cm)]
        };
        assert(triples_view(out@) =~= s5 + top);
        assert(concept_triples(*c, id@, scheme@, base_uri@) =~= two + concept_pref(*c, cm)
            + concept_alt(*c, cm) + concept_scope(*c, cm) + concept_links(
            *c,
            "broader"@,
            SKOS_BROADER@,
            cm,
            base_uri@,
        ) + concept_links(*c, "narrower"@, SKOS_NARROWER@, cm, base_uri@) + top);
        assert(triples_view(out@) =~= start + concept_triples(*c, id@, scheme@, base_uri@));
    }
}

/// Convert a collection's concepts to SKOS triples. Fails with
/// `MissingField` when a concept has no string `id`.
pub fn collection_to_triples(
    collection_id: &str,
    concepts: &[JsonValue],
    base_uri: &str,
) -> (r: Result<Vec<Triple>, TripleError>)
    ensures
        match r {
            Ok(v) => all_have_ids(concepts@) && triples_view(v@) == collection_triples(
                collection_id@,
                concepts@,
                base_uri@,
            ),
            Err(e) => !all_have_ids(concepts@) && (e matches TripleError::MissingField(m)
                && m@ == "concept id"@),
        },
{
    let scheme = collection_uri(base_uri, collection_id);
    let mut triples: Vec<Triple> = Vec::new();
    assert(triples_view(triples@) =~= Seq::<TripleModel>::empty());
    emit(&mut triples, uri(scheme.as_str()), uri(RDF_TYPE), uri(SKOS_CONCEPT_SCHEME));
    let ghost head = triples_view(triples@);
    let mut i: usize = 0;
    assert(head + concepts_triples(concepts@.take(0), scheme@, base_uri@) =~= head);
    while i < concepts.len()
        invariant
            i <= concepts@.len(),
            all_have_ids(concepts@.take(i as int)),
            triples_view(triples@) == head + concepts_triples(
                concepts@.take(i as int),
                scheme@,
                base_uri@,
            ),
        decreases concepts@.len() - i,
    {
        let c = &concepts[i];
        let id = match get_member(c, "id") {
            Some(JsonValue::Str(s)) => s,
            _ => {
                proof {
                    assert(str_member(concepts@[i as int], "id"@) is None);
                }
                return Err(TripleError::MissingField("concept id".to_owned()));
            },
        };
        push_concept(&mut triples, c, id.as_str(), scheme.as_str(), base_uri);
        proof {
            assert(concepts@.take(i + 1).drop_last() =~= concepts@.take(i as int));
            assert(concepts@.take(i + 1).last() == concepts@[i as int]);
            assert(str_member(concepts@[i as int], "id"@) == Some(id@));
            assert(triples_view(triples@) =~= head + concepts_triples(
                concepts@.take(i + 1),
                scheme@,
                base_uri@,
            ));
            assert forall|k: int| 0 <= k < i + 1 implies (#[trigger] str_member(
                concepts@.take(i + 1)[k],
                "id"@,
            )) is Some by {
                if k < i {
                    assert(concepts@.take(i + 1)[k] == concepts@.take(i as int)[k]);
                }
            }
        }
        i = i + 1;
    }
    assert(concepts@.take(concepts@.len() as int) =~= concepts@);
    assert(triples_view(triples@) =~= collection_triples(collection_id@, concepts@, base_uri@));
    Ok(triples)
}

/// Convert a collection's concepts, given as JSON text holding an array of
/// concepts, to SKOS triples. Fails with `JsonError` when the text is not a
/// JSON array, and otherwise as `collection_to_triples` does.
pub fn collection_to_triples_json(
    collection_id: &str,
    concepts_json: &str,
    base_uri: &str,
) -> (r: Result<Vec<Triple>, TripleError>)
    ensures
        match parsed_json(concepts_json@) {
            Some(JsonValue::Array(concepts)) => match r {
                Ok(v) => all_have_ids(concepts@) && triples_view(v@) == collection_triples(
                    collection_id@,
                    concepts@,
                    base_uri@,
                ),
                Err(e) => !all_have_ids(concepts@) && (e matches TripleError::MissingField(m)
                    && m@ == "concept id"@),
            },
            _ => r matches Err(TripleError::JsonError(_)),
        },
{
    match parse_json(concepts_json) {
        Ok(JsonValue::Array(concepts)) => collection_to_triples(
            collection_id,
            concepts.as_slice(),
            base_uri,
        ),
        Ok(_) => Err(TripleError::JsonError("expected a JSON array of concepts".to_owned())),
        Err(msg) => Err(TripleError::JsonError(msg)),
    }
}

// ---------------------------------------------------------------------------
// Laws of the exported values
// ---------------------------------------------------------------------------

/// A boolean tile value `b` gives exactly one triple, whose object is an
/// `xsd:boolean` literal spelling `b`: `"true"` exactly when `b` holds and
/// `"false"` otherwise, so `true` and `false` never give the same literal.
pub proof fn lemma_boolean_literal_text(
    s: TermModel,
    p: TermModel,
    datatype: Seq<char>,
    b: bool,
    wkt: Option<String>,
    base: Seq<char>,
)
    requires
        spec_classify_datatype(datatype) == Some(DatatypeClass::Boolean),
    ensures
        ({
            let ts = value_triples(s, p, spec_classify_datatype(datatype), JsonValue::Bool(b), wkt, base);
            &&& ts.len() == 1
            &&& ts[0].0 == s && ts[0].1 == p
            &&& ts[0].2 matches TermModel::Lit(text, dt, lang) && dt == Some(XSD_BOOLEAN@) && lang
                is None && (text == "true"@ <==> b) && (text == "false"@ <==> !b)
        }),
        value_triples(s, p, spec_classify_datatype(datatype), JsonValue::Bool(true), wkt, base)
            != value_triples(s, p, spec_classify_datatype(datatype), JsonValue::Bool(false), wkt, base),
{
    reveal_strlit("true");
    reveal_strlit("false");
    assert("true"@.len() != "false"@.len());
    let tt = value_triples(s, p, spec_classify_datatype(datatype), JsonValue::Bool(true), wkt, base);
    let tf = value_triples(s, p, spec_classify_datatype(datatype), JsonValue::Bool(false), wkt, base);
    assert(tt[0] != tf[0]);
}

/// The datatype of every literal a tile value gives is the `rdfs:range` that
/// the schema states for a property of the node's datatype (an integer value
/// of a decimal property being an `xsd:integer`, a kind of `xsd:decimal`).
pub proof fn lemma_value_literals_in_range(
    s: TermModel,
    p: TermModel,
    datatype: Seq<char>,
    v: JsonValue,
    wkt: Option<String>,
    base: Seq<char>,
)
    requires
        match spec_classify_datatype(datatype) {
            Some(DatatypeClass::PlainString) | Some(DatatypeClass::Number) | Some(
                DatatypeClass::Date,
            ) | Some(DatatypeClass::Boolean) | Some(DatatypeClass::GeoJson) => true,
            _ => false,
        },
    ensures
        forall|i: int|
            0 <= i < value_triples(s, p, spec_classify_datatype(datatype), v, wkt, base).len()
                ==> ((#[trigger] value_triples(s, p, spec_classify_datatype(datatype), v, wkt, base)[i]).2 matches TermModel::Lit(
                _,
                Some(dt),
                _,
            ) ==> (spec_datatype_to_range(datatype, base) == Some(dt) || (dt == XSD_INTEGER@
                && spec_datatype_to_range(datatype, base) == Some(XSD_DECIMAL@)))),
{
}

/// The scope-note triple of the note stored under key `k` of a language map.
pub open spec fn keyed_note(cu: TermModel, fields: Seq<(String, JsonValue)>, k: int) -> TripleModel {
    (
        cu,
        TermModel::Named(SKOS_SCOPE_NOTE@),
        TermModel::Lit(as_str(fields[k].1).unwrap(), None, Some(fields[k].0@)),
    )
}

/// Triple `x` is the note of some key of the map that holds a string.
pub open spec fn note_of_some_key(cu: TermModel, fields: Seq<(String, JsonValue)>, x: TripleModel) -> bool {
    exists|k: int| 0 <= k < fields.len() && as_str(fields[k].1) is Some && x == #[trigger] keyed_note(cu, fields, k)
}

/// Each scope note is a literal tagged with the language key it is stored
/// under in the `scopeNote` map, with that key's text; and every key whose
/// note is a string gives one.
pub proof fn lemma_scope_notes_tagged(cu: TermModel, fields: Seq<(String, JsonValue)>)
    ensures
        forall|i: int|
            0 <= i < scope_fields(cu, fields).len() ==> note_of_some_key(
                cu,
                fields,
                #[trigger] scope_fields(cu, fields)[i],
            ),
        forall|k: int|
            0 <= k < fields.len() && as_str((#[trigger] fields[k]).1) is Some ==> scope_fields(
                cu,
                fields,
            ).contains(keyed_note(cu, fields, k)),
    decreases fields.len(),
{
    if fields.len() > 0 {
        let front = fields.drop_last();
        let pre = scope_fields(cu, front);
        let all = scope_fields(cu, fields);
        lemma_scope_notes_tagged(cu, front);
        let n = fields.len() - 1;
        assert forall|i: int| 0 <= i < all.len() implies note_of_some_key(cu, fields, #[trigger] all[i]) by {
            if i < pre.len() {
                assert(all[i] == pre[i]);
                assert(note_of_some_key(cu, front, pre[i]));
                let k = choose|k: int|
                    0 <= k < front.len() && as_str(front[k].1) is Some && pre[i] == #[trigger] keyed_note(cu, front, k);
                assert(fields[k] == front[k]);
                assert(keyed_note(cu, front, k) == keyed_note(cu, fields, k));
            } else {
                assert(fields[n] == fields.last());
                assert(all[i] == keyed_note(cu, fields, n));
            }
        }
        assert forall|k: int|
            0 <= k < fields.len() && as_str((#[trigger] fields[k]).1) is Some implies all.contains(
            keyed_note(cu, fields, k),
        ) by {
            let x = keyed_note(cu, fields, k);
            if k < n {
                assert(front[k] == fields[k]);
                assert(keyed_note(cu, front, k) == x);
                assert(pre.contains(keyed_note(cu, front, k)));
                let j = choose|j: int| 0 <= j < pre.len() && pre[j] == x;
                assert(all[j] == x);
            } else {
                assert(fields.last() == fields[k]);
                assert(all[pre.len() as int] == x);
            }
        }
    }
}

} // verus!
